//! A dynamic forest kept as the Euler tours of its trees.
//!
//! Each tree with at least one edge is a sequence that holds, for each of its edges, both
//! directions once, in the order of a walk around the tree. Two vertices are connected when
//! their tours are the same sequence; linking joins two tours, cutting splits one.
use vstd::prelude::*;
use crate::seq::{EdgeSeq, SeqEdge, pair_of, placed_all, frame, lemma_frame_trans};
use crate::tour::{src, tgt, tour, nxt, has_pair, rotated, joined, joinable, outer, inner, lemma_rotate, lemma_join, lemma_split, lemma_pair, lemma_tour_ends};

verus! {

/// An edge of the forest, by its index.
#[derive(Clone, Copy, Debug)]
pub struct Edge(usize);

impl Edge {
    pub closed spec fn index(&self) -> usize {
        self.0
    }

    /// The index of the edge.
    pub fn to_usize(&self) -> (r: usize)
        ensures
            r == self.index(),
    {
        self.0
    }
}

/// A forest on the vertices `0..n`, kept as Euler tours.
pub struct EulerTourTree {
    trees: Vec<EdgeSeq>,
    ends: Vec<(usize, usize)>,
    edges: Vec<SeqEdge>,
    active: Vec<Option<usize>>,
    free_trees: Vec<usize>,
    free_edges: Vec<usize>,
}

/// A set of integers in `[0, n)` is finite.
proof fn lemma_bounded_finite(s: Set<int>, n: int)
    requires
        forall|x: int| #[trigger] s.contains(x) ==> 0 <= x < n,
    ensures
        s.finite(),
{
    if n >= 0 {
        vstd::set_lib::lemma_int_range(0, n);
        vstd::set_lib::lemma_set_subset_finite(vstd::set_lib::set_int_range(0, n), s);
    } else {
        assert(s =~= Set::empty());
    }
}

impl EulerTourTree {
    /// The tour kept in slot `t`.
    pub closed spec fn tour_at(&self, t: int) -> Seq<usize> {
        self.trees@[t]@
    }

    /// The number of vertices.
    pub closed spec fn num_vertices_spec(&self) -> nat {
        self.active@.len()
    }

    /// The vertex that the edge direction `x` leaves.
    pub closed spec fn sv(&self, x: int) -> int {
        src(self.ends@, x)
    }

    /// The slot that holds the edge direction `x`.
    pub closed spec fn slot_of(&self, x: int) -> int {
        self.edges@[x].spec_tree() as int
    }

    /// The table records the edge direction `x` where it is.
    pub closed spec fn placed(&self, x: int) -> bool {
        let t = self.edges@[x].spec_tree() as int;
        let r = self.edges@[x].spec_rank() as int;
        &&& 0 <= x < self.edges@.len()
        &&& t < self.trees@.len()
        &&& r < self.tour_at(t).len()
        &&& self.tour_at(t)[r] == x
    }

    /// The edge with index `i` is in the forest.
    pub closed spec fn in_use(&self, i: int) -> bool {
        0 <= i < self.ends@.len() && self.placed(2 * i)
    }

    /// The edge indices not in use, in the order in which they are handed out: the last one
    /// first.
    pub closed spec fn free_list(&self) -> Seq<usize> {
        self.free_edges@
    }

    /// The ends of the edge with index `i`, as linked.
    pub closed spec fn ends_spec(&self, i: int) -> (usize, usize) {
        self.ends@[i]
    }

    /// The slots that hold a tour.
    pub closed spec fn nonempty_slots(&self) -> Set<int> {
        Set::new(|t: int| 0 <= t < self.trees@.len() && self.tour_at(t).len() > 0)
    }

    /// The vertices without edges.
    pub closed spec fn isolated(&self) -> Set<int> {
        Set::new(|w: int| 0 <= w < self.active@.len() && self.active@[w] is None)
    }

    /// `u` and `v` are in the same tree of the forest.
    pub closed spec fn connected(&self, u: int, v: int) -> bool {
        u == v || (self.active@[u] is Some && self.active@[v] is Some && self.slot_of(
            self.active@[u]->0 as int,
        ) == self.slot_of(self.active@[v]->0 as int))
    }

    /// Each slot keeps a tour, recorded in the table.
    #[verifier::opaque]
    pub closed spec fn wf_tours(&self) -> bool {
        forall|t: int|
            0 <= t < self.trees@.len() ==> placed_all(self.edges@, #[trigger] self.tour_at(t), t as usize)
                && tour(self.ends@, self.tour_at(t))
    }

    /// Each vertex that a tour leaves has its active direction in that tour.
    #[verifier::opaque]
    pub closed spec fn wf_owner(&self) -> bool {
        forall|t: int, i: int|
            0 <= t < self.trees@.len() && 0 <= i < self.tour_at(t).len() ==> {
                let y = #[trigger] self.tour_at(t)[i];
                let w = self.sv(y as int);
                &&& self.ends@[y as int / 2].0 < self.active@.len()
                &&& self.ends@[y as int / 2].1 < self.active@.len()
                &&& self.active@[w] is Some
                &&& self.slot_of(self.active@[w]->0 as int) == t
            }
    }

    /// Each active direction is in the table and leaves its vertex.
    #[verifier::opaque]
    pub closed spec fn wf_active(&self) -> bool {
        forall|w: int|
            0 <= w < self.active@.len() && #[trigger] self.active@[w] is Some ==> {
                let x = self.active@[w]->0 as int;
                &&& self.placed(x)
                &&& self.sv(x) == w
            }
    }

    /// The free slots are exactly the empty ones, each listed once.
    #[verifier::opaque]
    pub closed spec fn wf_free_trees(&self) -> bool {
        &&& forall|k: int|
            0 <= k < self.free_trees@.len() ==> #[trigger] self.free_trees@[k] < self.trees@.len()
        &&& forall|k: int, l: int|
            0 <= k < l < self.free_trees@.len() ==> self.free_trees@[k] != self.free_trees@[l]
        &&& forall|t: int|
            0 <= t < self.trees@.len() ==> (self.tour_at(t).len() == 0 <==> #[trigger] self.free_trees@.contains(
                t as usize,
            ))
    }

    /// The free edge indices are exactly the unused ones, each listed once, and there are one
    /// fewer of them than trees.
    #[verifier::opaque]
    pub closed spec fn wf_free_edges(&self) -> bool {
        &&& forall|k: int|
            0 <= k < self.free_edges@.len() ==> #[trigger] self.free_edges@[k] < self.ends@.len()
        &&& forall|k: int, l: int|
            0 <= k < l < self.free_edges@.len() ==> self.free_edges@[k] != self.free_edges@[l]
        &&& forall|i: int|
            0 <= i < self.ends@.len() ==> (#[trigger] self.free_edges@.contains(i as usize)
                <==> !self.placed(2 * i))
        &&& self.free_edges@.len() + 1 == self.nonempty_slots().len() + self.isolated().len()
    }

    /// Each entry of the table has its position as id.
    pub closed spec fn wf_ids(&self) -> bool {
        forall|k: int| 0 <= k < self.edges@.len() ==> (#[trigger] self.edges@[k]).spec_id() == k
    }

    /// The structure is well formed.
    pub closed spec fn wf(&self) -> bool {
        &&& self.active@.len() >= 1
        &&& self.wf_ids()
        &&& self.ends@.len() + 1 == self.active@.len()
        &&& self.edges@.len() == 2 * self.ends@.len()
        &&& self.wf_tours()
        &&& self.wf_owner()
        &&& self.wf_active()
        &&& self.wf_free_trees()
        &&& self.wf_free_edges()
    }

    proof fn lemma_sets_finite(&self)
        ensures
            self.nonempty_slots().finite(),
            self.isolated().finite(),
    {
        lemma_bounded_finite(self.nonempty_slots(), self.trees@.len() as int);
        lemma_bounded_finite(self.isolated(), self.active@.len() as int);
    }

    /// A forest without edges on the vertices `0..n`.
    pub fn new(n: usize) -> (s: Self)
        requires
            1 <= n,
            n - 1 <= usize::MAX / 2,
        ensures
            s.wf(),
            s.num_vertices_spec() == n,
            forall|u: int, v: int| 0 <= u < n && 0 <= v < n ==> (s.connected(u, v) <==> u == v),
    {
        reveal(EulerTourTree::wf_tours);
        reveal(EulerTourTree::wf_owner);
        reveal(EulerTourTree::wf_active);
        reveal(EulerTourTree::wf_free_trees);
        reveal(EulerTourTree::wf_free_edges);
        let m = n - 1;
        let max_edges = 2 * m;
        let mut ends: Vec<(usize, usize)> = Vec::with_capacity(m);
        let mut i: usize = 0;
        while i < m
            invariant
                i <= m,
                ends@.len() == i,
            decreases m - i,
        {
            ends.push((0, 0));
            i = i + 1;
        }
        let mut edges: Vec<SeqEdge> = Vec::with_capacity(max_edges);
        let mut k: usize = 0;
        while k < max_edges
            invariant
                k <= max_edges,
                edges@.len() == k,
                forall|j: int| 0 <= j < k ==> (#[trigger] edges@[j]).spec_id() == j,
            decreases max_edges - k,
        {
            edges.push(SeqEdge::new(k));
            k = k + 1;
        }
        let mut active: Vec<Option<usize>> = Vec::with_capacity(n);
        let mut j: usize = 0;
        while j < n
            invariant
                j <= n,
                active@.len() == j,
                forall|w: int| 0 <= w < j ==> #[trigger] active@[w] is None,
            decreases n - j,
        {
            active.push(None);
            j = j + 1;
        }
        let mut free_edges: Vec<usize> = Vec::with_capacity(m);
        let mut f: usize = m;
        while f > 0
            invariant
                f <= m,
                free_edges@.len() == m - f,
                forall|q: int| 0 <= q < free_edges@.len() ==> #[trigger] free_edges@[q] == m - 1 - q,
            decreases f,
        {
            f = f - 1;
            free_edges.push(f);
        }
        let s = EulerTourTree {
            trees: Vec::with_capacity(n / 2 + 1),
            ends,
            edges,
            active,
            free_edges,
            free_trees: Vec::new(),
        };
        proof {
            assert(s.nonempty_slots() =~= Set::empty());
            assert(s.isolated() =~= vstd::set_lib::set_int_range(0, n as int));
            vstd::set_lib::lemma_int_range(0, n as int);
            assert forall|i: int| 0 <= i < s.ends@.len() implies (#[trigger] s.free_edges@.contains(
                i as usize,
            ) <==> !s.placed(2 * i)) by {
                assert(s.free_edges@[m - 1 - i] == i);
            }
        }
        s
    }

    /// The number of vertices.
    pub fn num_vertices(&self) -> (r: usize)
        ensures
            r == self.num_vertices_spec(),
    {
        self.active.len()
    }

    /// The ends of the direction `e`: the vertex it leaves and the vertex it enters.
    fn dir_ends(&self, e: usize) -> (r: (usize, usize))
        requires
            e < self.edges@.len(),
            self.edges@.len() == 2 * self.ends@.len(),
            self.wf_ids(),
        ensures
            r.0 == src(self.ends@, e as int),
            r.1 == tgt(self.ends@, e as int),
    {
        let x = self.edges[e];
        let (u, v) = self.ends[x.index()];
        if x.is_reversed() {
            (v, u)
        } else {
            (u, v)
        }
    }

    /// Whether `u` and `v` are in the same tree.
    pub fn is_connected(&self, u: usize, v: usize) -> (r: bool)
        requires
            self.wf(),
            u < self.num_vertices_spec(),
            v < self.num_vertices_spec(),
        ensures
            r == self.connected(u as int, v as int),
    {
        reveal(EulerTourTree::wf_tours);
        reveal(EulerTourTree::wf_owner);
        reveal(EulerTourTree::wf_active);
        reveal(EulerTourTree::wf_free_trees);
        reveal(EulerTourTree::wf_free_edges);
        if u == v {
            return true;
        }
        if let Some(e1) = self.active[u] {
            if let Some(e2) = self.active[v] {
                return self.edges[e1].tree() == self.edges[e2].tree();
            }
        }
        false
    }

    /// The slot and position of the direction `e`.
    fn tree_and_rank(&self, e: usize) -> (r: (usize, usize))
        requires
            e < self.edges@.len(),
        ensures
            r.0 == self.edges@[e as int].spec_tree(),
            r.1 == self.edges@[e as int].spec_rank(),
    {
        (self.edges[e].tree(), self.edges[e].rank())
    }

    /// In a well formed structure, the table records a direction exactly when a tour holds it.
    proof fn lemma_placed_member(&self, x: int)
        requires
            self.wf(),
            0 <= x < self.edges@.len(),
        ensures
            self.placed(x) <==> exists|t: int|
                0 <= t < self.trees@.len() && #[trigger] self.tour_at(t).contains(x as usize),
    {
        reveal(EulerTourTree::wf_tours);
        reveal(EulerTourTree::wf_owner);
        reveal(EulerTourTree::wf_active);
        reveal(EulerTourTree::wf_free_trees);
        reveal(EulerTourTree::wf_free_edges);
        if exists|t: int| 0 <= t < self.trees@.len() && #[trigger] self.tour_at(t).contains(x as usize) {
            let t = choose|t: int| 0 <= t < self.trees@.len() && #[trigger] self.tour_at(t).contains(x as usize);
            let i = choose|i: int| 0 <= i < self.tour_at(t).len() && self.tour_at(t)[i] == x as usize;
            assert(placed_all(self.edges@, self.tour_at(t), t as usize));
        }
        if self.placed(x) {
            let t = self.slot_of(x);
            assert(self.tour_at(t)[self.edges@[x].spec_rank() as int] == x);
            assert(self.tour_at(t).contains(x as usize));
        }
    }

    /// Replacing the tour in slot `t` by another tour on the same directions, recorded in the
    /// table, keeps the structure well formed and every direction in its slot.
    proof fn lemma_reorder(&self, new: &Self, t: int)
        requires
            self.wf(),
            0 <= t < self.trees@.len(),
            new.trees@.len() == self.trees@.len(),
            forall|s: int| 0 <= s < self.trees@.len() && s != t ==> #[trigger] new.tour_at(s) == self.tour_at(s),
            tour(self.ends@, new.tour_at(t)),
            new.tour_at(t).len() == self.tour_at(t).len(),
            forall|y: usize| #[trigger] new.tour_at(t).contains(y) <==> self.tour_at(t).contains(y),
            placed_all(new.edges@, new.tour_at(t), t as usize),
            frame(self.edges@, new.edges@, self.tour_at(t), new.tour_at(t)),
            new.ends@ == self.ends@,
            new.active@ == self.active@,
            new.free_trees@ == self.free_trees@,
            new.free_edges@ == self.free_edges@,
        ensures
            new.wf(),
            forall|k: int| 0 <= k < self.edges@.len() ==> #[trigger] new.slot_of(k) == self.slot_of(k),
            forall|k: int| 0 <= k < self.edges@.len() ==> (new.placed(k) <==> self.placed(k)),
            forall|u: int, v: int|
                0 <= u < self.active@.len() && 0 <= v < self.active@.len() ==> #[trigger] new.connected(u, v)
                    == self.connected(u, v),
    {
        reveal(EulerTourTree::wf_tours);
        reveal(EulerTourTree::wf_owner);
        reveal(EulerTourTree::wf_active);
        reveal(EulerTourTree::wf_free_trees);
        reveal(EulerTourTree::wf_free_edges);
        let ot = self.tour_at(t);
        let nt = new.tour_at(t);
        assert forall|k: int| 0 <= k < self.edges@.len() implies #[trigger] new.slot_of(k) == self.slot_of(k) by {
            if ot.contains(k as usize) {
                let i = choose|i: int| 0 <= i < ot.len() && ot[i] == k as usize;
                assert(placed_all(self.edges@, ot, t as usize));
                assert(nt.contains(k as usize));
                let j = choose|j: int| 0 <= j < nt.len() && nt[j] == k as usize;
            } else {
                assert(!nt.contains(k as usize));
            }
        }
        assert forall|s: int| 0 <= s < new.trees@.len() implies placed_all(new.edges@, #[trigger] new.tour_at(s), s as usize)
            && tour(new.ends@, new.tour_at(s)) by {
            if s != t {
                assert(placed_all(self.edges@, self.tour_at(s), s as usize));
                assert forall|i: int| 0 <= i < new.tour_at(s).len() implies {
                    &&& #[trigger] new.tour_at(s)[i] < new.edges@.len()
                    &&& new.edges@[new.tour_at(s)[i] as int].spec_tree() == s as usize
                    &&& new.edges@[new.tour_at(s)[i] as int].spec_rank() == i
                } by {
                    let y = self.tour_at(s)[i];
                    if ot.contains(y) {
                        let q = choose|q: int| 0 <= q < ot.len() && ot[q] == y;
                        assert(placed_all(self.edges@, ot, t as usize));
                    }
                    if nt.contains(y) {
                        assert(ot.contains(y));
                        let q = choose|q: int| 0 <= q < ot.len() && ot[q] == y;
                        assert(placed_all(self.edges@, ot, t as usize));
                    }
                }
            }
        }
        assert forall|k: int| 0 <= k < self.edges@.len() implies (new.placed(k) <==> self.placed(k)) by {
            self.lemma_placed_member(k);
            if new.placed(k) {
                let s = new.slot_of(k);
                assert(new.tour_at(s)[new.edges@[k].spec_rank() as int] == k);
                assert(new.tour_at(s).contains(k as usize));
                if s == t {
                    assert(ot.contains(k as usize));
                } else {
                    assert(self.tour_at(s).contains(k as usize));
                }
            }
            if self.placed(k) {
                let s = self.slot_of(k);
                assert(self.tour_at(s)[self.edges@[k].spec_rank() as int] == k);
                assert(self.tour_at(s).contains(k as usize));
                let s2 = new.slot_of(k);
                if s == t {
                    assert(nt.contains(k as usize));
                    let j = choose|j: int| 0 <= j < nt.len() && nt[j] == k as usize;
                } else {
                    assert(placed_all(new.edges@, new.tour_at(s), s as usize));
                    let j = choose|j: int| 0 <= j < self.tour_at(s).len() && self.tour_at(s)[j] == k as usize;
                }
            }
        }
        assert forall|s: int, i: int|
            0 <= s < new.trees@.len() && 0 <= i < new.tour_at(s).len() implies {
                let y = #[trigger] new.tour_at(s)[i];
                let w = new.sv(y as int);
                &&& new.ends@[y as int / 2].0 < new.active@.len()
                &&& new.ends@[y as int / 2].1 < new.active@.len()
                &&& new.active@[w] is Some
                &&& new.slot_of(new.active@[w]->0 as int) == s
            } by {
            let y = new.tour_at(s)[i];
            if s == t {
                assert(nt.contains(y));
                assert(ot.contains(y));
                let q = choose|q: int| 0 <= q < ot.len() && ot[q] == y;
                assert(self.tour_at(t)[q] == y);
            } else {
                assert(self.tour_at(s)[i] == y);
            }
            let w = self.sv(y as int);
            let x = self.active@[w]->0 as int;
            assert(self.placed(x));
        }
        assert forall|w: int|
            0 <= w < new.active@.len() && #[trigger] new.active@[w] is Some implies {
                let x = new.active@[w]->0 as int;
                &&& new.placed(x)
                &&& new.sv(x) == w
            } by {
            let x = new.active@[w]->0 as int;
            assert(self.placed(x));
        }
        assert(new.nonempty_slots() =~= self.nonempty_slots());
        assert(new.isolated() =~= self.isolated());
        assert forall|i: int| 0 <= i < new.ends@.len() implies (#[trigger] new.free_edges@.contains(
            i as usize,
        ) <==> !new.placed(2 * i)) by {
            assert(self.free_edges@.contains(i as usize) <==> !self.placed(2 * i));
        }
        assert forall|s: int| 0 <= s < new.trees@.len() implies (new.tour_at(s).len() == 0
            <==> #[trigger] new.free_trees@.contains(s as usize)) by {
            assert(self.tour_at(s).len() == 0 <==> self.free_trees@.contains(s as usize));
        }
        assert forall|u: int, v: int|
            0 <= u < self.active@.len() && 0 <= v < self.active@.len() implies #[trigger] new.connected(u, v)
                == self.connected(u, v) by {
            if self.active@[u] is Some {
                assert(self.placed(self.active@[u]->0 as int));
            }
            if self.active@[v] is Some {
                assert(self.placed(self.active@[v]->0 as int));
            }
        }
    }

    /// Turns the tour of `x`'s tree so that it starts at `x`. Nothing else changes: the same
    /// directions stay in the same slots.
    fn make_root(&mut self, x: usize)
        requires
            old(self).wf(),
            x < old(self).num_vertices_spec(),
        ensures
            final(self).wf(),
            final(self).ends@ == old(self).ends@,
            final(self).active@ == old(self).active@,
            final(self).free_trees@ == old(self).free_trees@,
            final(self).free_edges@ == old(self).free_edges@,
            final(self).trees@.len() == old(self).trees@.len(),
            forall|k: int| 0 <= k < old(self).edges@.len() ==> #[trigger] final(self).slot_of(k) == old(self).slot_of(k),
            forall|k: int| 0 <= k < old(self).edges@.len() ==> (final(self).placed(k) <==> old(self).placed(k)),
            forall|u: int, v: int|
                0 <= u < old(self).active@.len() && 0 <= v < old(self).active@.len() ==> #[trigger] final(self).connected(u, v)
                    == old(self).connected(u, v),
            forall|s: int|
                0 <= s < old(self).trees@.len() && (old(self).active@[x as int] is None || s != old(self).slot_of(
                    old(self).active@[x as int]->0 as int,
                )) ==> #[trigger] final(self).tour_at(s) == old(self).tour_at(s),
            forall|s: int, y: usize|
                0 <= s < old(self).trees@.len() ==> (#[trigger] final(self).tour_at(s).contains(y)
                    <==> old(self).tour_at(s).contains(y)),
            forall|s: int|
                0 <= s < old(self).trees@.len() ==> #[trigger] final(self).tour_at(s).len() == old(self).tour_at(s).len(),
            old(self).active@[x as int] is Some ==> final(self).sv(
                final(self).tour_at(final(self).slot_of(old(self).active@[x as int]->0 as int))[0] as int,
            ) == x,
            Self::same_forest(old(self), final(self)),
    {
        reveal(EulerTourTree::wf_tours);
        reveal(EulerTourTree::wf_owner);
        reveal(EulerTourTree::wf_active);
        reveal(EulerTourTree::wf_free_trees);
        reveal(EulerTourTree::wf_free_edges);
        if let Some(e) = self.active[x] {
            let ghost s0 = *self;
            let (tree, rank) = self.tree_and_rank(e);
            proof {
                assert(s0.placed(e as int));
                assert(placed_all(s0.edges@, s0.tour_at(tree as int), tree));
                lemma_rotate(s0.ends@, s0.tour_at(tree as int), rank as int);
            }
            if rank == 0 {
                return;
            }
            self.trees[tree].rotate(&mut self.edges, tree, rank);
            proof {
                assert(self.tour_at(tree as int) == rotated(s0.tour_at(tree as int), rank as int));
                assert forall|s: int| 0 <= s < s0.trees@.len() && s != tree implies #[trigger] self.tour_at(s)
                    == s0.tour_at(s) by {
                    assert(self.trees@[s] == s0.trees@[s]);
                }
                s0.lemma_reorder(self, tree as int);
                assert forall|s: int, y: usize|
                    0 <= s < s0.trees@.len() implies (#[trigger] self.tour_at(s).contains(y)
                        <==> s0.tour_at(s).contains(y)) by {
                    if s != tree {
                        assert(self.tour_at(s) == s0.tour_at(s));
                    }
                }
                assert forall|s: int| 0 <= s < s0.trees@.len() implies #[trigger] self.tour_at(s).len()
                    == s0.tour_at(s).len() by {
                    if s != tree {
                        assert(self.tour_at(s) == s0.tour_at(s));
                    }
                }
            }
        }
    }

    /// The `a` side of a link: the old tour in slot `ts`, if any.
    spec fn side_a(&self, ts: int) -> Seq<usize> {
        if ts < self.trees@.len() {
            self.tour_at(ts)
        } else {
            Seq::empty()
        }
    }

    /// The `b` side of a link: the old tour in slot `ss`, if any.
    spec fn side_b(&self, ss: int) -> Seq<usize> {
        if ss >= 0 {
            self.tour_at(ss)
        } else {
            Seq::empty()
        }
    }

    /// `new` is `self` after linking `ua` and `va` by the new edge `i`, whose direction `e1`
    /// leaves `ua`: the tour of `ua` (slot `ts`), `e1`, the tour of `va` (slot `ss`, emptied)
    /// and `f1` make the tour in slot `ts`.
    spec fn link_step(
        &self,
        new: &Self,
        i: int,
        ua: int,
        va: int,
        ts: int,
        ss: int,
        e1: usize,
        f1: usize,
    ) -> bool {
        let n = self.active@.len();
        let a = self.side_a(ts);
        let b = self.side_b(ss);
        &&& 0 <= ua < n
        &&& 0 <= va < n
        &&& ua != va
        &&& !self.connected(ua, va)
        &&& 0 <= i < self.ends@.len()
        &&& self.free_edges@.len() > 0
        &&& self.free_edges@.last() == i
        &&& new.free_edges@ == self.free_edges@.drop_last()
        &&& (e1 == 2 * i && f1 == 2 * i + 1) || (e1 == 2 * i + 1 && f1 == 2 * i)
        &&& new.ends@ == self.ends@.update(i, new.ends@[i])
        &&& src(new.ends@, e1 as int) == ua
        &&& tgt(new.ends@, e1 as int) == va
        &&& new.edges@.len() == self.edges@.len()
        &&& 0 <= ts <= self.trees@.len()
        &&& new.trees@.len() <= usize::MAX
        &&& self.active@[ua] is Some ==> ts == self.slot_of(self.active@[ua]->0 as int)
        &&& self.active@[ua] is None ==> (ts == self.trees@.len() || self.tour_at(ts).len() == 0)
        &&& self.active@[va] is Some ==> ss == self.slot_of(self.active@[va]->0 as int)
        &&& self.active@[va] is None ==> ss == -1
        &&& self.active@[va] is Some ==> self.active@[ua] is Some
        &&& a.len() > 0 ==> self.sv(a[0] as int) == ua
        &&& b.len() > 0 ==> self.sv(b[0] as int) == va
        &&& new.trees@.len() == (if ts == self.trees@.len() {
            self.trees@.len() + 1
        } else {
            self.trees@.len() + 0
        })
        &&& new.tour_at(ts) == joined(a, e1, b, f1)
        &&& ss >= 0 ==> new.tour_at(ss) == Seq::<usize>::empty()
        &&& forall|s: int|
            0 <= s < self.trees@.len() && s != ts && s != ss ==> #[trigger] new.tour_at(s) == self.tour_at(s)
        &&& placed_all(new.edges@, new.tour_at(ts), ts as usize)
        &&& frame(self.edges@, new.edges@, new.tour_at(ts), new.tour_at(ts))
        &&& new.active@.len() == n
        &&& forall|w: int| 0 <= w < n && w != ua && w != va ==> #[trigger] new.active@[w] == self.active@[w]
        &&& new.active@[ua] == (if self.active@[ua] is Some {
            self.active@[ua]
        } else {
            Some(e1)
        })
        &&& new.active@[va] == (if self.active@[va] is Some {
            self.active@[va]
        } else {
            Some(f1)
        })
        &&& if ss >= 0 {
            new.free_trees@ == self.free_trees@.push(ss as usize)
        } else if ts == self.trees@.len() {
            new.free_trees@ == self.free_trees@ && self.free_trees@.len() == 0
        } else if self.active@[ua] is None {
            self.free_trees@.len() > 0 && ts == self.free_trees@.last() && new.free_trees@
                == self.free_trees@.drop_last()
        } else {
            new.free_trees@ == self.free_trees@
        }
    }

    /// Facts of a well formed structure about one direction: its pair is in the same place,
    /// and a direction that is not recorded is in no tour.
    proof fn lemma_pair_placed(&self, x: int)
        requires
            self.wf(),
            0 <= x < self.edges@.len(),
        ensures
            self.placed(x) <==> self.placed(pair_of(x)),
            self.placed(x) ==> self.slot_of(x) == self.slot_of(pair_of(x)),
            !self.placed(x) ==> forall|s: int|
                0 <= s < self.trees@.len() ==> !(#[trigger] self.tour_at(s)).contains(x as usize),
    {
        reveal(EulerTourTree::wf_tours);
        reveal(EulerTourTree::wf_owner);
        reveal(EulerTourTree::wf_active);
        reveal(EulerTourTree::wf_free_trees);
        reveal(EulerTourTree::wf_free_edges);
        lemma_pair(self.ends@, x);
        assert(pair_of(x) < self.edges@.len());
        if self.placed(x) {
            let t = self.slot_of(x);
            let r = self.edges@[x].spec_rank() as int;
            assert(crate::tour::has_pair(self.tour_at(t), r));
            reveal(crate::tour::has_pair);
            let q = choose|q: int|
                0 <= q < self.tour_at(t).len() && self.tour_at(t)[q] as int == pair_of(self.tour_at(t)[r] as int);
            assert(placed_all(self.edges@, self.tour_at(t), t as usize));
        }
        if self.placed(pair_of(x)) {
            let y = pair_of(x);
            let t = self.slot_of(y);
            let r = self.edges@[y].spec_rank() as int;
            assert(crate::tour::has_pair(self.tour_at(t), r));
            reveal(crate::tour::has_pair);
            let q = choose|q: int|
                0 <= q < self.tour_at(t).len() && self.tour_at(t)[q] as int == pair_of(self.tour_at(t)[r] as int);
            assert(placed_all(self.edges@, self.tour_at(t), t as usize));
        }
        if !self.placed(x) {
            assert forall|s: int| 0 <= s < self.trees@.len() implies !(#[trigger] self.tour_at(s)).contains(
                x as usize,
            ) by {
                if self.tour_at(s).contains(x as usize) {
                    self.lemma_placed_member(x);
                }
            }
        }
    }

    proof fn lemma_link_basics(
        &self,
        new: &Self,
        i: int,
        ua: int,
        va: int,
        ts: int,
        ss: int,
        e1: usize,
        f1: usize,
    )
        requires
            self.wf(),
            self.link_step(new, i, ua, va, ts, ss, e1, f1),
        ensures
            !self.placed(e1 as int),
            !self.placed(f1 as int),
            f1 as int == pair_of(e1 as int),
            forall|s: int|
                0 <= s < self.trees@.len() ==> !(#[trigger] self.tour_at(s)).contains(e1) && !self.tour_at(
                    s,
                ).contains(f1),
            forall|s: int, k: int|
                0 <= s < self.trees@.len() && 0 <= k < self.tour_at(s).len() ==> {
                    let y = #[trigger] self.tour_at(s)[k] as int;
                    &&& src(new.ends@, y) == src(self.ends@, y)
                    &&& tgt(new.ends@, y) == tgt(self.ends@, y)
                    &&& y / 2 != i
                },
            ss >= 0 ==> 0 <= ss < self.trees@.len() && ss != ts && self.tour_at(ss).len() > 0,
            ts < self.trees@.len() && self.active@[ua] is Some ==> self.tour_at(ts).len() > 0,
            tour(self.ends@, self.side_a(ts)),
            tour(self.ends@, self.side_b(ss)),
            placed_all(self.edges@, self.side_a(ts), ts as usize),
            ss >= 0 ==> placed_all(self.edges@, self.side_b(ss), ss as usize),
    {
        reveal(EulerTourTree::wf_tours);
        reveal(EulerTourTree::wf_owner);
        reveal(EulerTourTree::wf_active);
        reveal(EulerTourTree::wf_free_trees);
        reveal(EulerTourTree::wf_free_edges);
        assert(self.free_edges@[self.free_edges@.len() - 1] == i);
        assert(self.free_edges@.contains(i as usize));
        assert(!self.placed(2 * i));
        self.lemma_pair_placed(2 * i);
        assert forall|s: int, k: int|
            0 <= s < self.trees@.len() && 0 <= k < self.tour_at(s).len() implies {
                let y = #[trigger] self.tour_at(s)[k] as int;
                &&& src(new.ends@, y) == src(self.ends@, y)
                &&& tgt(new.ends@, y) == tgt(self.ends@, y)
                &&& y / 2 != i
            } by {
            let y = self.tour_at(s)[k] as int;
            assert(placed_all(self.edges@, self.tour_at(s), s as usize));
            assert(self.placed(y));
            if y / 2 == i {
                if y == 2 * i {
                } else {
                    assert(y == 2 * i + 1);
                    assert(pair_of(2 * i) == y);
                }
            }
        }
        if self.active@[ua] is Some {
            let x = self.active@[ua]->0 as int;
            assert(self.placed(x));
            assert(self.tour_at(ts)[self.edges@[x].spec_rank() as int] == x);
        }
        if ss >= 0 {
            let x = self.active@[va]->0 as int;
            assert(self.placed(x));
            assert(self.tour_at(ss)[self.edges@[x].spec_rank() as int] == x);
        }
        if ts == self.trees@.len() {
            assert(self.side_a(ts) =~= Seq::<usize>::empty());
        } else {
            assert(self.tour_at(ts) == self.tour_at(ts));
        }
        if ss < 0 {
            assert(self.side_b(ss) =~= Seq::<usize>::empty());
        } else {
            assert(self.tour_at(ss) == self.tour_at(ss));
        }
        reveal(crate::tour::apart);
        reveal(crate::tour::has_pair);
    }

    proof fn lemma_link_tours(
        &self,
        new: &Self,
        i: int,
        ua: int,
        va: int,
        ts: int,
        ss: int,
        e1: usize,
        f1: usize,
    )
        requires
            self.wf(),
            self.link_step(new, i, ua, va, ts, ss, e1, f1),
        ensures
            new.wf_tours(),
            tour(new.ends@, new.tour_at(ts)),
    {
        reveal(EulerTourTree::wf_tours);
        reveal(EulerTourTree::wf_owner);
        reveal(EulerTourTree::wf_active);
        reveal(EulerTourTree::wf_free_trees);
        reveal(EulerTourTree::wf_free_edges);
        self.lemma_link_basics(new, i, ua, va, ts, ss, e1, f1);
        let a = self.side_a(ts);
        let b = self.side_b(ss);
        let j = joined(a, e1, b, f1);
        // the two sides under the new ends
        assert forall|k: int| 0 <= k < a.len() implies src(self.ends@, #[trigger] a[k] as int) == src(
            new.ends@,
            a[k] as int,
        ) && tgt(self.ends@, a[k] as int) == tgt(new.ends@, a[k] as int) by {
            assert(self.tour_at(ts)[k] == a[k]);
        }
        lemma_tour_ends(self.ends@, new.ends@, a);
        assert forall|k: int| 0 <= k < b.len() implies src(self.ends@, #[trigger] b[k] as int) == src(
            new.ends@,
            b[k] as int,
        ) && tgt(self.ends@, b[k] as int) == tgt(new.ends@, b[k] as int) by {
            assert(self.tour_at(ss)[k] == b[k]);
        }
        lemma_tour_ends(self.ends@, new.ends@, b);
        // the sides are on different vertices
        assert forall|p: int, q: int|
            0 <= p < a.len() && 0 <= q < b.len() implies src(new.ends@, #[trigger] a[p] as int) != src(
            new.ends@,
            #[trigger] b[q] as int,
        ) && a[p] != b[q] by {
            assert(self.tour_at(ts)[p] == a[p]);
            assert(self.tour_at(ss)[q] == b[q]);
        }
        assert forall|q: int| 0 <= q < b.len() implies src(new.ends@, #[trigger] b[q] as int) != ua by {
            assert(self.tour_at(ss)[q] == b[q]);
        }
        assert forall|p: int| 0 <= p < a.len() implies src(new.ends@, #[trigger] a[p] as int) != va by {
            assert(self.tour_at(ts)[p] == a[p]);
        }
        assert(!a.contains(e1) && !a.contains(f1) && !b.contains(e1) && !b.contains(f1)) by {
            if ts < self.trees@.len() {
                assert(!self.tour_at(ts).contains(e1));
                assert(!self.tour_at(ts).contains(f1));
            }
            if ss >= 0 {
                assert(!self.tour_at(ss).contains(e1));
                assert(!self.tour_at(ss).contains(f1));
            }
        }
        if a.len() > 0 {
            assert(self.tour_at(ts)[0] == a[0]);
        }
        if b.len() > 0 {
            assert(self.tour_at(ss)[0] == b[0]);
        }
        assert(joinable(new.ends@, a, e1, b, f1, ua, va));
        lemma_join(new.ends@, a, e1, b, f1, ua, va);
        assert forall|s: int| 0 <= s < new.trees@.len() implies placed_all(
            new.edges@,
            #[trigger] new.tour_at(s),
            s as usize,
        ) && tour(new.ends@, new.tour_at(s)) by {
            if s == ts {
            } else if s == ss {
                assert(new.tour_at(s) =~= Seq::<usize>::empty());
                reveal(crate::tour::apart);
                reveal(crate::tour::has_pair);
            } else {
                let t = self.tour_at(s);
                assert(new.tour_at(s) == t);
                assert forall|k: int| 0 <= k < t.len() implies src(self.ends@, #[trigger] t[k] as int)
                    == src(new.ends@, t[k] as int) && tgt(self.ends@, t[k] as int) == tgt(
                    new.ends@,
                    t[k] as int,
                ) by {
                    assert(self.tour_at(s)[k] == t[k]);
                }
                lemma_tour_ends(self.ends@, new.ends@, t);
                assert(placed_all(self.edges@, t, s as usize));
                assert forall|k: int| 0 <= k < t.len() implies {
                    &&& #[trigger] t[k] < new.edges@.len()
                    &&& new.edges@[t[k] as int].spec_tree() == s as usize
                    &&& new.edges@[t[k] as int].spec_rank() == k
                } by {
                    let y = t[k];
                    assert(self.tour_at(s)[k] == y);
                    if j.contains(y) {
                        if a.contains(y) {
                            let p = choose|p: int| 0 <= p < a.len() && a[p] == y;
                            assert(self.tour_at(ts)[p] == y);
                        } else if b.contains(y) {
                            let p = choose|p: int| 0 <= p < b.len() && b[p] == y;
                            assert(self.tour_at(ss)[p] == y);
                        } else {
                            assert(!self.tour_at(s).contains(e1));
                            assert(!self.tour_at(s).contains(f1));
                            assert(self.tour_at(s).contains(y));
                        }
                    }
                }
            }
        }
    }

    /// Where the directions are after a link: those of the new tour in slot `ts`, the others
    /// where they were.
    #[verifier::rlimit(40)]
    #[verifier::spinoff_prover]
    proof fn lemma_link_slots(
        &self,
        new: &Self,
        i: int,
        ua: int,
        va: int,
        ts: int,
        ss: int,
        e1: usize,
        f1: usize,
    )
        requires
            self.wf(),
            self.link_step(new, i, ua, va, ts, ss, e1, f1),
        ensures
            forall|x: usize|
                x < self.edges@.len() && #[trigger] new.tour_at(ts).contains(x) ==> new.slot_of(x as int)
                    == ts && new.placed(x as int),
            forall|x: usize|
                x < self.edges@.len() && !new.tour_at(ts).contains(x) ==> #[trigger] new.slot_of(x as int)
                    == self.slot_of(x as int),
            forall|x: usize|
                x < self.edges@.len() && self.placed(x as int) && self.slot_of(x as int) != ts && self.slot_of(x as int) != ss
                    ==> #[trigger] new.placed(x as int) && !new.tour_at(ts).contains(x),
            forall|x: usize|
                x < self.edges@.len() && self.placed(x as int) && (self.slot_of(x as int) == ts || self.slot_of(x as int)
                    == ss) ==> #[trigger] new.tour_at(ts).contains(x),
    {
        reveal(EulerTourTree::wf_tours);
        reveal(EulerTourTree::wf_owner);
        reveal(EulerTourTree::wf_active);
        reveal(EulerTourTree::wf_free_trees);
        reveal(EulerTourTree::wf_free_edges);
        self.lemma_link_basics(new, i, ua, va, ts, ss, e1, f1);
        let a = self.side_a(ts);
        let b = self.side_b(ss);
        let j = joined(a, e1, b, f1);
        crate::tour::lemma_join_pos_pub(a, e1, b, f1);
        assert forall|x: usize|
            x < self.edges@.len() && #[trigger] new.tour_at(ts).contains(x) implies new.slot_of(x as int)
                == ts && new.placed(x as int) by {
            let r = choose|r: int| 0 <= r < j.len() && j[r] == x;
        }
        assert forall|x: usize|
            x < self.edges@.len() && self.placed(x as int) && (self.slot_of(x as int) == ts || self.slot_of(x as int)
                == ss) implies #[trigger] new.tour_at(ts).contains(x) by {
            let r = self.edges@[x as int].spec_rank() as int;
            if self.slot_of(x as int) == ts {
                assert(a[r] == x);
                assert(j[r] == x);
            } else {
                assert(b[r] == x);
                assert(j[a.len() + 1 + r] == x);
            }
        }
        assert forall|x: usize|
            x < self.edges@.len() && self.placed(x as int) && self.slot_of(x as int) != ts && self.slot_of(x as int) != ss
                implies #[trigger] new.placed(x as int) && !new.tour_at(ts).contains(x) by {
            let s0 = self.slot_of(x as int);
            assert(new.tour_at(s0) == self.tour_at(s0));
            if j.contains(x) {
                let r = choose|r: int| 0 <= r < j.len() && j[r] == x;
                if r < a.len() {
                    assert(placed_all(self.edges@, a, ts as usize));
                } else if a.len() < r < a.len() + 1 + b.len() {
                    assert(b[r - a.len() - 1] == x);
                    assert(placed_all(self.edges@, b, ss as usize));
                } else {
                    assert(self.tour_at(s0).contains(x));
                }
            }
        }
    }

    /// What a link does to one direction.
    proof fn lemma_link_dir(
        &self,
        new: &Self,
        i: int,
        ua: int,
        va: int,
        ts: int,
        ss: int,
        e1: usize,
        f1: usize,
        x: usize,
    )
        requires
            self.wf(),
            self.link_step(new, i, ua, va, ts, ss, e1, f1),
            x < self.edges@.len(),
        ensures
            self.placed(x as int) ==> {
                &&& x as int / 2 != i
                &&& x != e1 && x != f1
                &&& src(new.ends@, x as int) == src(self.ends@, x as int)
                &&& tgt(new.ends@, x as int) == tgt(self.ends@, x as int)
                &&& new.ends@[x as int / 2] == self.ends@[x as int / 2]
                &&& new.placed(x as int)
                &&& (self.slot_of(x as int) == ts || self.slot_of(x as int) == ss) ==> new.slot_of(x as int) == ts
                &&& (self.slot_of(x as int) != ts && self.slot_of(x as int) != ss) ==> new.slot_of(x as int)
                    == self.slot_of(x as int)
            },
            (x == e1 || x == f1) ==> new.placed(x as int) && new.slot_of(x as int) == ts,
            new.placed(x as int) && new.slot_of(x as int) == ts ==> (x == e1 || x == f1 || (self.placed(
                x as int,
            ) && (self.slot_of(x as int) == ts || self.slot_of(x as int) == ss))),
            new.placed(x as int) && new.slot_of(x as int) != ts ==> self.placed(x as int) && self.slot_of(
                x as int,
            ) == new.slot_of(x as int),
    {
        self.lemma_link_basics(new, i, ua, va, ts, ss, e1, f1);
        self.lemma_link_slots(new, i, ua, va, ts, ss, e1, f1);
        reveal(EulerTourTree::wf_tours);
        let a = self.side_a(ts);
        let b = self.side_b(ss);
        let j = joined(a, e1, b, f1);
        crate::tour::lemma_join_pos_pub(a, e1, b, f1);
        if self.placed(x as int) {
            let s0 = self.slot_of(x as int);
            let r = self.edges@[x as int].spec_rank() as int;
            assert(self.tour_at(s0)[r] == x);
            if x == e1 || x == f1 {
                assert(self.tour_at(s0).contains(x));
            }
        }
        if x == e1 {
            assert(j[a.len() as int] == e1);
        }
        if x == f1 {
            assert(j[a.len() + 1 + b.len() as int] == f1);
        }
        if new.placed(x as int) {
            let s1 = new.slot_of(x as int);
            let r = new.edges@[x as int].spec_rank() as int;
            assert(new.tour_at(s1)[r] == x);
            if new.tour_at(ts).contains(x) {
                let p = choose|p: int| 0 <= p < j.len() && j[p] == x;
                if p < a.len() {
                    assert(self.tour_at(ts)[p] == x);
                    assert(placed_all(self.edges@, a, ts as usize));
                } else if a.len() < p < a.len() + 1 + b.len() {
                    assert(b[p - a.len() - 1] == x);
                    assert(self.tour_at(ss)[p - a.len() - 1] == x);
                    assert(placed_all(self.edges@, b, ss as usize));
                }
            } else {
                if s1 == ts {
                    assert(new.tour_at(ts).contains(x));
                }
                if s1 == ss && ss >= 0 {
                    assert(new.tour_at(ss).len() == 0);
                }
                assert(new.tour_at(s1) == self.tour_at(s1));
            }
        }
    }

    proof fn lemma_link_owner_at(
        &self,
        new: &Self,
        i: int,
        ua: int,
        va: int,
        ts: int,
        ss: int,
        e1: usize,
        f1: usize,
        s: int,
        k: int,
    )
        requires
            self.wf(),
            self.link_step(new, i, ua, va, ts, ss, e1, f1),
            0 <= s < new.trees@.len(),
            0 <= k < new.tour_at(s).len(),
        ensures
            ({
                let y = new.tour_at(s)[k];
                let w = new.sv(y as int);
                &&& new.ends@[y as int / 2].0 < new.active@.len()
                &&& new.ends@[y as int / 2].1 < new.active@.len()
                &&& new.active@[w] is Some
                &&& new.slot_of(new.active@[w]->0 as int) == s
            }),
    {
        reveal(EulerTourTree::wf_tours);
        reveal(EulerTourTree::wf_owner);
        reveal(EulerTourTree::wf_active);
        let y = new.tour_at(s)[k];
        assert(new.wf_tours() || true);
        // y is recorded in the new table at slot s
        self.lemma_link_tours(new, i, ua, va, ts, ss, e1, f1);
        assert(placed_all(new.edges@, new.tour_at(s), s as usize));
        assert(new.placed(y as int));
        self.lemma_link_dir(new, i, ua, va, ts, ss, e1, f1, y);
        lemma_pair(new.ends@, e1 as int);
        let w = new.sv(y as int);
        if y == e1 || y == f1 {
            if self.active@[w] is Some {
                let x = self.active@[w]->0;
                assert(self.placed(x as int));
                self.lemma_link_dir(new, i, ua, va, ts, ss, e1, f1, x);
            }
        } else {
            let s0 = self.slot_of(y as int);
            let r0 = self.edges@[y as int].spec_rank() as int;
            assert(self.tour_at(s0)[r0] == y);
            let x = self.active@[w]->0;
            assert(self.placed(x as int));
            self.lemma_link_dir(new, i, ua, va, ts, ss, e1, f1, x);
            if s0 != ts && s0 != ss {
                if w == ua || w == va {
                    assert(false);
                }
            }
        }
    }

    proof fn lemma_link_owner(
        &self,
        new: &Self,
        i: int,
        ua: int,
        va: int,
        ts: int,
        ss: int,
        e1: usize,
        f1: usize,
    )
        requires
            self.wf(),
            self.link_step(new, i, ua, va, ts, ss, e1, f1),
        ensures
            new.wf_owner(),
    {
        reveal(EulerTourTree::wf_owner);
        assert forall|s: int, k: int|
            0 <= s < new.trees@.len() && 0 <= k < new.tour_at(s).len() implies {
                let y = #[trigger] new.tour_at(s)[k];
                let w = new.sv(y as int);
                &&& new.ends@[y as int / 2].0 < new.active@.len()
                &&& new.ends@[y as int / 2].1 < new.active@.len()
                &&& new.active@[w] is Some
                &&& new.slot_of(new.active@[w]->0 as int) == s
            } by {
            self.lemma_link_owner_at(new, i, ua, va, ts, ss, e1, f1, s, k);
        }
    }

    proof fn lemma_link_active(
        &self,
        new: &Self,
        i: int,
        ua: int,
        va: int,
        ts: int,
        ss: int,
        e1: usize,
        f1: usize,
    )
        requires
            self.wf(),
            self.link_step(new, i, ua, va, ts, ss, e1, f1),
        ensures
            new.wf_active(),
    {
        reveal(EulerTourTree::wf_tours);
        reveal(EulerTourTree::wf_owner);
        reveal(EulerTourTree::wf_active);
        reveal(EulerTourTree::wf_free_trees);
        reveal(EulerTourTree::wf_free_edges);
        self.lemma_link_basics(new, i, ua, va, ts, ss, e1, f1);
        self.lemma_link_slots(new, i, ua, va, ts, ss, e1, f1);
        let a = self.side_a(ts);
        let b = self.side_b(ss);
        let j = joined(a, e1, b, f1);
        crate::tour::lemma_join_pos_pub(a, e1, b, f1);
        lemma_pair(new.ends@, e1 as int);
        assert forall|w: int|
            0 <= w < new.active@.len() && #[trigger] new.active@[w] is Some implies {
                let x = new.active@[w]->0 as int;
                &&& new.placed(x)
                &&& new.sv(x) == w
            } by {
            let x = new.active@[w]->0 as int;
            if w == ua && self.active@[ua] is None {
                assert(j[a.len() as int] == e1);
                assert(new.tour_at(ts).contains(e1));
            } else if w == va && self.active@[va] is None {
                assert(j[a.len() + 1 + b.len() as int] == f1);
                assert(new.tour_at(ts).contains(f1));
            } else {
                assert(self.placed(x));
                let s0 = self.slot_of(x);
                assert(self.tour_at(s0)[self.edges@[x].spec_rank() as int] == x);
            }
        }
    }

    #[verifier::rlimit(40)]
    proof fn lemma_link_free_trees(
        &self,
        new: &Self,
        i: int,
        ua: int,
        va: int,
        ts: int,
        ss: int,
        e1: usize,
        f1: usize,
    )
        requires
            self.wf(),
            self.link_step(new, i, ua, va, ts, ss, e1, f1),
        ensures
            new.wf_free_trees(),
    {
        reveal(EulerTourTree::wf_free_trees);
        self.lemma_link_basics(new, i, ua, va, ts, ss, e1, f1);
        self.lemma_sets_finite();
        new.lemma_sets_finite();
        let a = self.side_a(ts);
        let b = self.side_b(ss);
        let j = joined(a, e1, b, f1);
        crate::tour::lemma_join_pos_pub(a, e1, b, f1);
        let ft = self.free_trees@;
        let nft = new.free_trees@;
        let n0 = self.trees@.len() as int;
        // free slots
        if ts < n0 && self.active@[ua] is Some {
            assert(!ft.contains(ts as usize));
        }
        if ss >= 0 {
            assert(!ft.contains(ss as usize));
        }
        assert forall|k: int| 0 <= k < nft.len() implies #[trigger] nft[k] < new.trees@.len() by {
            if ss < 0 && ts != n0 && self.active@[ua] is None {
                assert(nft[k] == ft[k]);
            } else if ss >= 0 && k == nft.len() - 1 {
            } else {
                assert(nft[k] == ft[k]);
            }
        }
        assert forall|k: int, l: int| 0 <= k < l < nft.len() implies nft[k] != nft[l] by {
            if ss >= 0 && l == nft.len() - 1 {
                assert(nft[k] == ft[k]);
                assert(ft.contains(ft[k]));
            } else {
                assert(nft[k] == ft[k]);
                assert(nft[l] == ft[l]);
            }
        }
        assert forall|t: int| 0 <= t < new.trees@.len() implies (new.tour_at(t).len() == 0
            <==> #[trigger] nft.contains(t as usize)) by {
            self.lemma_link_free_slot(new, i, ua, va, ts, ss, e1, f1, t);
        }
    }

    proof fn lemma_link_placed(
        &self,
        new: &Self,
        i: int,
        ua: int,
        va: int,
        ts: int,
        ss: int,
        e1: usize,
        f1: usize,
    )
        requires
            self.wf(),
            self.link_step(new, i, ua, va, ts, ss, e1, f1),
        ensures
            forall|k: int| 0 <= k < self.ends@.len() && k != i ==> (#[trigger] new.placed(2 * k) <==> self.placed(2 * k)),
            new.placed(2 * i),
    {
        assert forall|k: int| 0 <= k < self.ends@.len() && k != i implies (#[trigger] new.placed(2 * k)
            <==> self.placed(2 * k)) by {
            self.lemma_link_dir(new, i, ua, va, ts, ss, e1, f1, (2 * k) as usize);
        }
        self.lemma_link_dir(new, i, ua, va, ts, ss, e1, f1, (2 * i) as usize);
    }

    #[verifier::rlimit(40)]
    proof fn lemma_link_free_edges(
        &self,
        new: &Self,
        i: int,
        ua: int,
        va: int,
        ts: int,
        ss: int,
        e1: usize,
        f1: usize,
    )
        requires
            self.wf(),
            self.link_step(new, i, ua, va, ts, ss, e1, f1),
        ensures
            new.wf_free_edges(),
    {
        reveal(EulerTourTree::wf_active);
        reveal(EulerTourTree::wf_free_edges);
        self.lemma_link_placed(new, i, ua, va, ts, ss, e1, f1);
        self.lemma_link_count(new, i, ua, va, ts, ss, e1, f1);
        self.lemma_link_basics(new, i, ua, va, ts, ss, e1, f1);
        self.lemma_sets_finite();
        new.lemma_sets_finite();
        let a = self.side_a(ts);
        let b = self.side_b(ss);
        let j = joined(a, e1, b, f1);
        crate::tour::lemma_join_pos_pub(a, e1, b, f1);
        let ft = self.free_trees@;
        let nft = new.free_trees@;
        let n0 = self.trees@.len() as int;
        let fe = self.free_edges@;
        let nfe = new.free_edges@;
        assert forall|k: int| 0 <= k < nfe.len() implies #[trigger] nfe[k] < new.ends@.len() by {
            assert(nfe[k] == fe[k]);
        }
        assert forall|k: int, l: int| 0 <= k < l < nfe.len() implies nfe[k] != nfe[l] by {
            assert(nfe[k] == fe[k]);
            assert(nfe[l] == fe[l]);
        }
        assert forall|k: int| 0 <= k < new.ends@.len() implies (#[trigger] nfe.contains(k as usize)
            <==> !new.placed(2 * k)) by {
            if nfe.contains(k as usize) {
                let p = choose|p: int| 0 <= p < nfe.len() && nfe[p] == k as usize;
                assert(fe[p] == k as usize);
                if k == i {
                    assert(fe[fe.len() - 1] == i);
                }
            }
            if k != i && fe.contains(k as usize) {
                let p = choose|p: int| 0 <= p < fe.len() && fe[p] == k as usize;
                assert(p != fe.len() - 1);
                assert(nfe[p] == k as usize);
            }
        }

    }

    proof fn lemma_link_free_slot(
        &self,
        new: &Self,
        i: int,
        ua: int,
        va: int,
        ts: int,
        ss: int,
        e1: usize,
        f1: usize,
        t: int,
    )
        requires
            self.wf(),
            self.link_step(new, i, ua, va, ts, ss, e1, f1),
            0 <= t < new.trees@.len(),
        ensures
            new.tour_at(t).len() == 0 <==> new.free_trees@.contains(t as usize),
    {
        reveal(EulerTourTree::wf_free_trees);
        self.lemma_link_basics(new, i, ua, va, ts, ss, e1, f1);
        let a = self.side_a(ts);
        let b = self.side_b(ss);
        crate::tour::lemma_join_pos_pub(a, e1, b, f1);
        let ft = self.free_trees@;
        let nft = new.free_trees@;
        let n0 = self.trees@.len() as int;
        assert(new.tour_at(ts).len() > 0);
        if t == ts {
            if nft.contains(t as usize) {
                let k = choose|k: int| 0 <= k < nft.len() && nft[k] == t as usize;
                if ss >= 0 {
                    if k < ft.len() {
                        assert(ft[k] == t as usize);
                        assert(ft.contains(t as usize));
                        assert(false);
                    } else {
                        assert(nft[k] == ss as usize);
                        assert(false);
                    }
                } else if ts == n0 {
                    assert(nft[k] == ft[k]);
                    assert(ft[k] < n0);
                    assert(false);
                } else if self.active@[ua] is None {
                    assert(nft[k] == ft[k]);
                    assert(ft[k] == t as usize);
                    assert(ft[ft.len() - 1] == t as usize);
                    assert(false);
                } else {
                    assert(nft[k] == ft[k]);
                    assert(ft.contains(t as usize));
                    assert(false);
                }
            }
        } else if t == ss {
            assert(nft[nft.len() - 1] == ss as usize);
            assert(nft.contains(t as usize));
        } else {
            assert(t < n0);
            assert(new.tour_at(t) == self.tour_at(t));
            assert(self.tour_at(t).len() == 0 <==> ft.contains(t as usize));
            if nft.contains(t as usize) {
                let k = choose|k: int| 0 <= k < nft.len() && nft[k] == t as usize;
                if ss >= 0 && k == nft.len() - 1 {
                    assert(false);
                } else {
                    assert(nft[k] == ft[k]);
                    assert(ft.contains(t as usize));
                }
            }
            if ft.contains(t as usize) {
                let k = choose|k: int| 0 <= k < ft.len() && ft[k] == t as usize;
                if ss < 0 && ts != n0 && self.active@[ua] is None {
                    assert(ft[ft.len() - 1] == ts as usize);
                    if k == ft.len() - 1 {
                        assert(false);
                    }
                    assert(nft[k] == t as usize);
                } else {
                    assert(nft[k] == t as usize);
                }
                assert(nft.contains(t as usize));
            }
        }
    }

    #[verifier::rlimit(40)]
    proof fn lemma_link_count(
        &self,
        new: &Self,
        i: int,
        ua: int,
        va: int,
        ts: int,
        ss: int,
        e1: usize,
        f1: usize,
    )
        requires
            self.wf(),
            self.link_step(new, i, ua, va, ts, ss, e1, f1),
        ensures
            new.free_edges@.len() + 1 == new.nonempty_slots().len() + new.isolated().len(),
    {
        reveal(EulerTourTree::wf_free_edges);
        reveal(EulerTourTree::wf_active);
        reveal(EulerTourTree::wf_free_trees);
        self.lemma_link_basics(new, i, ua, va, ts, ss, e1, f1);
        self.lemma_sets_finite();
        new.lemma_sets_finite();
        let n0 = self.trees@.len() as int;
        let a = self.side_a(ts);
        let b = self.side_b(ss);
        crate::tour::lemma_join_pos_pub(a, e1, b, f1);
        // counting
        let ne0 = self.nonempty_slots();
        let ne1 = new.nonempty_slots();
        let is0 = self.isolated();
        let is1 = new.isolated();
        let su = self.active@[ua] is Some;
        let sv = self.active@[va] is Some;
        if su {
            assert(ne0.contains(ts));
        }
        if ss >= 0 {
            assert(ne0.contains(ss));
        }
        let ne_mid = if su { ne0 } else { ne0.insert(ts) };
        assert(ne_mid.finite());
        let ne_exp = if ss >= 0 { ne_mid.remove(ss) } else { ne_mid };
        assert(ne1 =~= ne_exp) by {
            assert forall|t: int| #[trigger] ne1.contains(t) <==> ne_exp.contains(t) by {
                if 0 <= t < n0 && t != ts && t != ss {
                    assert(new.tour_at(t) == self.tour_at(t));
                }
                if t == ss && ss >= 0 {
                    assert(new.tour_at(ss).len() == 0);
                }
            }
        }
        let is_mid = if su { is0 } else { is0.remove(ua) };
        let is_exp = if sv { is_mid } else { is_mid.remove(va) };
        assert(is1 =~= is_exp);
        if !su {
            assert(is0.contains(ua));
            assert(!ne0.contains(ts));
        }
        if !sv {
            assert(is_mid.contains(va));
        }
    }

    /// The slot of a vertex's active direction after a link.
    proof fn lemma_link_comp(
        &self,
        new: &Self,
        i: int,
        ua: int,
        va: int,
        ts: int,
        ss: int,
        e1: usize,
        f1: usize,
        w: int,
    )
        requires
            self.wf(),
            self.link_step(new, i, ua, va, ts, ss, e1, f1),
            0 <= w < self.active@.len(),
        ensures
            new.active@[w] is Some <==> (self.active@[w] is Some || w == ua || w == va),
            new.active@[w] is Some && (self.connected(w, ua) || self.connected(w, va)) ==> new.slot_of(
                new.active@[w]->0 as int,
            ) == ts,
            new.active@[w] is Some && !(self.connected(w, ua) || self.connected(w, va)) ==> {
                &&& self.active@[w] is Some
                &&& new.slot_of(new.active@[w]->0 as int) == self.slot_of(self.active@[w]->0 as int)
                &&& self.slot_of(self.active@[w]->0 as int) != ts
            },
    {
        reveal(EulerTourTree::wf_active);
        reveal(EulerTourTree::wf_tours);
        self.lemma_link_basics(new, i, ua, va, ts, ss, e1, f1);
        if w == ua && self.active@[ua] is None {
            self.lemma_link_dir(new, i, ua, va, ts, ss, e1, f1, e1);
        } else if w == va && self.active@[va] is None {
            self.lemma_link_dir(new, i, ua, va, ts, ss, e1, f1, f1);
        } else if self.active@[w] is Some {
            let x = self.active@[w]->0;
            assert(self.placed(x as int));
            self.lemma_link_dir(new, i, ua, va, ts, ss, e1, f1, x);
            let s0 = self.slot_of(x as int);
            if s0 == ts && self.active@[ua] is None {
                assert(self.tour_at(s0)[self.edges@[x as int].spec_rank() as int] == x);
            }
        }
    }

    proof fn lemma_link_connected(
        &self,
        new: &Self,
        i: int,
        ua: int,
        va: int,
        ts: int,
        ss: int,
        e1: usize,
        f1: usize,
    )
        requires
            self.wf(),
            self.link_step(new, i, ua, va, ts, ss, e1, f1),
        ensures
            forall|x: int, y: int|
                0 <= x < self.active@.len() && 0 <= y < self.active@.len() ==> (#[trigger] new.connected(x, y)
                    <==> (self.connected(x, y) || (self.connected(x, ua) && self.connected(y, va)) || (
                    self.connected(x, va) && self.connected(y, ua)))),
    {
        assert forall|x: int, y: int|
            0 <= x < self.active@.len() && 0 <= y < self.active@.len() implies (#[trigger] new.connected(x, y)
                <==> (self.connected(x, y) || (self.connected(x, ua) && self.connected(y, va)) || (
                self.connected(x, va) && self.connected(y, ua)))) by {
            self.lemma_link_comp(new, i, ua, va, ts, ss, e1, f1, x);
            self.lemma_link_comp(new, i, ua, va, ts, ss, e1, f1, y);
            self.lemma_link_comp(new, i, ua, va, ts, ss, e1, f1, ua);
            self.lemma_link_comp(new, i, ua, va, ts, ss, e1, f1, va);
        }
    }

    /// A link step leaves a well formed structure.
    proof fn lemma_link_wf(
        &self,
        new: &Self,
        i: int,
        ua: int,
        va: int,
        ts: int,
        ss: int,
        e1: usize,
        f1: usize,
    )
        requires
            self.wf(),
            self.link_step(new, i, ua, va, ts, ss, e1, f1),
            new.wf_ids(),
        ensures
            new.wf(),
            forall|k: int| 0 <= k < self.ends@.len() && k != i ==> (#[trigger] new.placed(2 * k) <==> self.placed(2 * k)),
            new.placed(2 * i),
    {
        self.lemma_link_tours(new, i, ua, va, ts, ss, e1, f1);
        self.lemma_link_owner(new, i, ua, va, ts, ss, e1, f1);
        self.lemma_link_active(new, i, ua, va, ts, ss, e1, f1);
        self.lemma_link_free_trees(new, i, ua, va, ts, ss, e1, f1);
        self.lemma_link_free_edges(new, i, ua, va, ts, ss, e1, f1);
        self.lemma_link_placed(new, i, ua, va, ts, ss, e1, f1);
    }

    /// The slot that holds the direction `e`.
    fn tree(&self, e: usize) -> (r: usize)
        requires
            e < self.edges@.len(),
        ensures
            r == self.slot_of(e as int),
    {
        self.edges[e].tree()
    }

    /// Makes `e`, or its pair, whichever leaves `v`, the active direction of `v`.
    fn set_active(&mut self, v: usize, e: Option<usize>)
        requires
            v < old(self).active@.len(),
            old(self).wf_ids(),
            old(self).edges@.len() == 2 * old(self).ends@.len(),
            e is Some ==> e->0 < old(self).edges@.len() && (src(old(self).ends@, e->0 as int) == v || tgt(
                old(self).ends@,
                e->0 as int,
            ) == v),
        ensures
            final(self).active@ == old(self).active@.update(
                v as int,
                match e {
                    Some(x) => Some(
                        if src(old(self).ends@, x as int) == v {
                            x
                        } else {
                            pair_of(x as int) as usize
                        },
                    ),
                    None => None,
                },
            ),
            final(self).trees@ == old(self).trees@,
            final(self).ends@ == old(self).ends@,
            final(self).edges@ == old(self).edges@,
            final(self).free_trees@ == old(self).free_trees@,
            final(self).free_edges@ == old(self).free_edges@,
    {
        let a = match e {
            Some(x) => {
                let (s, t) = self.dir_ends(x);
                if s == v {
                    Some(x)
                } else {
                    let p = self.edges[x].id_pair();
                    Some(p)
                }
            },
            None => None,
        };
        self.active.set(v, a);
    }

    /// Takes a free edge index for a new edge from `u` to `v`, and returns it with its two
    /// directions.
    fn new_edge(&mut self, u: usize, v: usize) -> (r: (usize, usize, usize))
        requires
            old(self).free_edges@.len() > 0,
            old(self).free_edges@.last() < old(self).ends@.len(),
            old(self).edges@.len() == 2 * old(self).ends@.len(),
            u != v,
        ensures
            r.0 == old(self).free_edges@.last(),
            r.1 == 2 * r.0,
            r.2 == 2 * r.0 + 1,
            final(self).free_edges@ == old(self).free_edges@.drop_last(),
            final(self).ends@ == old(self).ends@.update(r.0 as int, (u, v)),
            final(self).trees@ == old(self).trees@,
            final(self).edges@ == old(self).edges@,
            final(self).active@ == old(self).active@,
            final(self).free_trees@ == old(self).free_trees@,
    {
        let m = self.edges.len();
        let i = self.free_edges.pop().unwrap();
        let e = 2 * i;
        let f = 2 * i + 1;
        self.ends.set(i, (u, v));
        (i, e, f)
    }

    /// Gives back the index of a cut edge.
    fn dispose_edge(&mut self, i: usize)
        ensures
            final(self).free_edges@ == old(self).free_edges@.push(i),
            final(self).trees@ == old(self).trees@,
            final(self).edges@ == old(self).edges@,
            final(self).ends@ == old(self).ends@,
            final(self).active@ == old(self).active@,
            final(self).free_trees@ == old(self).free_trees@,
    {
        self.free_edges.push(i);
    }

    /// Gives back an emptied slot.
    fn dispose_tree(&mut self, t: usize)
        ensures
            final(self).free_trees@ == old(self).free_trees@.push(t),
            final(self).trees@ == old(self).trees@,
            final(self).edges@ == old(self).edges@,
            final(self).ends@ == old(self).ends@,
            final(self).active@ == old(self).active@,
            final(self).free_edges@ == old(self).free_edges@,
    {
        self.free_trees.push(t);
    }

    /// A free slot: a given back one if there is one, else a new one.
    fn new_tree(&mut self) -> (t: usize)
        requires
            forall|k: int|
                0 <= k < old(self).free_trees@.len() ==> #[trigger] old(self).free_trees@[k] < old(self).trees@.len(),
        ensures
            old(self).free_trees@.len() > 0 ==> t == old(self).free_trees@.last() && final(self).free_trees@
                == old(self).free_trees@.drop_last() && final(self).trees@ == old(self).trees@,
            old(self).free_trees@.len() == 0 ==> t == old(self).trees@.len() && final(self).free_trees@
                == old(self).free_trees@ && final(self).trees@.len() == old(self).trees@.len() + 1
                && final(self).trees@.drop_last() == old(self).trees@ && final(self).tour_at(t as int)
                == Seq::<usize>::empty(),
            t < final(self).trees@.len(),
            final(self).edges@ == old(self).edges@,
            final(self).ends@ == old(self).ends@,
            final(self).active@ == old(self).active@,
            final(self).free_edges@ == old(self).free_edges@,
    {
        if let Some(tree) = self.free_trees.pop() {
            tree
        } else {
            let tree = EdgeSeq::with_capacity(self.edges.len());
            self.trees.push(tree);
            proof {
                assert(self.trees@.drop_last() =~= old(self).trees@);
            }
            self.trees.len() - 1
        }
    }

    /// With `u` and `v` in different trees, there are at least two trees and isolated
    /// vertices, so a free edge index is left.
    proof fn lemma_two_components(&self, u: int, v: int)
        requires
            self.wf(),
            0 <= u < self.active@.len(),
            0 <= v < self.active@.len(),
            !self.connected(u, v),
        ensures
            self.free_edges@.len() > 0,
    {
        reveal(EulerTourTree::wf_active);
        reveal(EulerTourTree::wf_free_edges);
        self.lemma_sets_finite();
        let ne = self.nonempty_slots();
        let is = self.isolated();
        if self.active@[u] is None && self.active@[v] is None {
            vstd::set_lib::lemma_len_subset(set![u, v], is);
        } else if self.active@[u] is None {
            let x = self.active@[v]->0 as int;
            assert(self.placed(x));
            assert(ne.contains(self.slot_of(x)));
            assert(is.contains(u));
        } else if self.active@[v] is None {
            let x = self.active@[u]->0 as int;
            assert(self.placed(x));
            assert(ne.contains(self.slot_of(x)));
            assert(is.contains(v));
        } else {
            let x = self.active@[u]->0 as int;
            let y = self.active@[v]->0 as int;
            assert(self.placed(x));
            assert(self.placed(y));
            vstd::set_lib::lemma_len_subset(set![self.slot_of(x), self.slot_of(y)], ne);
        }
    }

    /// A free slot holding the tour `e`, `f` of a single edge.
    fn new_tree_with_edges(&mut self, e: usize, f: usize) -> (t: usize)
        requires
            forall|k: int|
                0 <= k < old(self).free_trees@.len() ==> #[trigger] old(self).free_trees@[k] < old(self).trees@.len()
                    && old(self).tour_at(old(self).free_trees@[k] as int).len() == 0,
            e < old(self).edges@.len(),
            f < old(self).edges@.len(),
            e != f,
        ensures
            old(self).free_trees@.len() > 0 ==> t == old(self).free_trees@.last() && final(self).free_trees@
                == old(self).free_trees@.drop_last() && final(self).trees@.len() == old(self).trees@.len(),
            old(self).free_trees@.len() == 0 ==> t == old(self).trees@.len() && final(self).free_trees@
                == old(self).free_trees@ && final(self).trees@.len() == old(self).trees@.len() + 1,
            t < final(self).trees@.len(),
            final(self).tour_at(t as int) == seq![e, f],
            forall|s: int| 0 <= s < old(self).trees@.len() && s != t ==> #[trigger] final(self).tour_at(s) == old(self).tour_at(s),
            placed_all(final(self).edges@, final(self).tour_at(t as int), t),
            frame(old(self).edges@, final(self).edges@, seq![e, f], seq![e, f]),
            final(self).ends@ == old(self).ends@,
            final(self).active@ == old(self).active@,
            final(self).free_edges@ == old(self).free_edges@,
    {
        let ghost s0 = *self;
        let tree = self.new_tree();
        let ghost e0 = self.edges@;
        proof {
            if s0.free_trees@.len() > 0 {
                assert(s0.free_trees@[s0.free_trees@.len() - 1] == tree);
            }
            assert(self.tour_at(tree as int) == Seq::<usize>::empty());
        }
        self.trees[tree].push(&mut self.edges, tree, e);
        let ghost e1 = self.edges@;
        self.trees[tree].push(&mut self.edges, tree, f);
        proof {
            assert(self.tour_at(tree as int) =~= seq![e, f]);
            assert forall|s: int| 0 <= s < s0.trees@.len() && s != tree implies #[trigger] self.tour_at(s)
                == s0.tour_at(s) by {
                if s0.free_trees@.len() == 0 {
                    assert(s0.trees@[s] == s0.trees@[s]);
                }
            }
            let ef = seq![e, f];
            let just_e = seq![e];
            assert forall|x: usize|
                Seq::<usize>::empty().contains(x) || just_e.contains(x) || ef.contains(x)
                    implies #[trigger] ef.contains(x) by {
                if just_e.contains(x) {
                    assert(ef[0] == x);
                }
            }
            assert(Seq::<usize>::empty().push(e) =~= seq![e]);
            assert(seq![e].push(f) =~= seq![e, f]);
            lemma_frame_trans(e0, e1, self.edges@, Seq::<usize>::empty(), seq![e], seq![e], seq![e, f], seq![e, f]);
        }
        tree
    }

    /// `a` and `b` have the same vertices, edges and trees.
    pub open spec fn same_forest(a: &Self, b: &Self) -> bool {
        &&& a.num_vertices_spec() == b.num_vertices_spec()
        &&& forall|k: int| #[trigger] a.in_use(k) <==> b.in_use(k)
        &&& forall|k: int| a.in_use(k) ==> #[trigger] a.ends_spec(k) == b.ends_spec(k)
        &&& forall|x: int, y: int|
            0 <= x < a.num_vertices_spec() && 0 <= y < a.num_vertices_spec() ==> (#[trigger] a.connected(x, y)
                <==> b.connected(x, y))
    }

    proof fn lemma_same_forest_trans(a: &Self, b: &Self, c: &Self)
        requires
            Self::same_forest(a, b),
            Self::same_forest(b, c),
        ensures
            Self::same_forest(a, c),
    {
        assert forall|k: int| a.in_use(k) implies #[trigger] a.ends_spec(k) == c.ends_spec(k) by {
            assert(b.in_use(k));
        }
        assert forall|x: int, y: int|
            0 <= x < a.num_vertices_spec() && 0 <= y < a.num_vertices_spec() implies (#[trigger] a.connected(x, y)
                <==> c.connected(x, y)) by {
            assert(a.connected(x, y) == b.connected(x, y));
        }
    }

    proof fn lemma_linked_after(s0: &Self, s1: &Self, new: &Self, u: int, v: int, i: int)
        requires
            Self::same_forest(s0, s1),
            s1.free_list() == s0.free_list(),
            Self::linked(s1, new, u, v, i),
            0 <= u < s0.num_vertices_spec(),
            0 <= v < s0.num_vertices_spec(),
        ensures
            Self::linked(s0, new, u, v, i),
    {
        assert forall|x: int, y: int|
            0 <= x < s0.num_vertices_spec() && 0 <= y < s0.num_vertices_spec() implies (#[trigger] new.connected(x, y)
                <==> (s0.connected(x, y) || (s0.connected(x, u) && s0.connected(y, v)) || (
                s0.connected(x, v) && s0.connected(y, u)))) by {
            assert(s1.connected(x, y) == s0.connected(x, y));
            assert(s1.connected(x, u) == s0.connected(x, u));
            assert(s1.connected(y, v) == s0.connected(y, v));
            assert(s1.connected(x, v) == s0.connected(x, v));
            assert(s1.connected(y, u) == s0.connected(y, u));
        }
        assert forall|k: int| k != i && s0.in_use(k) implies #[trigger] new.ends_spec(k) == s0.ends_spec(k) by {
            assert(s1.in_use(k));
        }
    }

    /// `new` is `old` with the edge `i` from `u` to `v` added: it joins the trees of `u` and
    /// `v`, and every other edge stays.
    pub open spec fn linked(old: &Self, new: &Self, u: int, v: int, i: int) -> bool {
        &&& new.num_vertices_spec() == old.num_vertices_spec()
        &&& !old.in_use(i)
        &&& new.in_use(i)
        &&& old.free_list().len() > 0
        &&& old.free_list().last() == i
        &&& new.free_list() == old.free_list().drop_last()
        &&& new.ends_spec(i) == (u as usize, v as usize)
        &&& forall|k: int| k != i ==> (#[trigger] new.in_use(k) <==> old.in_use(k))
        &&& forall|k: int| k != i && old.in_use(k) ==> #[trigger] new.ends_spec(k) == old.ends_spec(k)
        &&& forall|x: int, y: int|
            0 <= x < old.num_vertices_spec() && 0 <= y < old.num_vertices_spec() ==> (#[trigger] new.connected(x, y)
                <==> (old.connected(x, y) || (old.connected(x, u) && old.connected(y, v)) || (
                old.connected(x, v) && old.connected(y, u))))
    }

    /// Concludes a link step.
    proof fn lemma_link_done(
        &self,
        new: &Self,
        i: int,
        ua: int,
        va: int,
        ts: int,
        ss: int,
        e1: usize,
        f1: usize,
        u: int,
        v: int,
    )
        requires
            self.wf(),
            self.link_step(new, i, ua, va, ts, ss, e1, f1),
            new.wf_ids(),
            (ua == u && va == v) || (ua == v && va == u),
            new.ends@[i] == (u as usize, v as usize),
        ensures
            new.wf(),
            Self::linked(self, new, u, v, i),
    {
        self.lemma_link_wf(new, i, ua, va, ts, ss, e1, f1);
        self.lemma_link_connected(new, i, ua, va, ts, ss, e1, f1);
        reveal(EulerTourTree::wf_free_edges);
        assert(self.free_edges@.contains(i as usize)) by {
            assert(self.free_edges@[self.free_edges@.len() - 1] == i);
        }
        assert forall|k: int| k != i && self.in_use(k) implies #[trigger] new.ends_spec(k) == self.ends_spec(k) by {
        }
    }

    /// Adds an edge between `u` and `v` when they are in different trees, and returns it;
    /// returns `None`, and changes nothing, when they are already connected.
    pub fn link(&mut self, u: usize, v: usize) -> (r: Option<Edge>)
        requires
            old(self).wf(),
            u < old(self).num_vertices_spec(),
            v < old(self).num_vertices_spec(),
        ensures
            final(self).wf(),
            old(self).connected(u as int, v as int) ==> r is None && *final(self) == *old(self),
            !old(self).connected(u as int, v as int) ==> r is Some && Self::linked(
                old(self),
                final(self),
                u as int,
                v as int,
                r->0.index() as int,
            ),
    {
        if self.is_connected(u, v) {
            return None;
        }
        match (self.active[u], self.active[v]) {
            (Some(u_act), Some(v_act)) => self.link_trees(u, v, u_act, v_act),
            (Some(u_act), None) => self.link_tree_vertex(u, v, u_act),
            (None, Some(v_act)) => self.link_vertex_tree(u, v, v_act),
            (None, None) => self.link_vertices(u, v),
        }
    }

    /// Links two vertices that are both in trees.
    fn link_trees(&mut self, u: usize, v: usize, u_act: usize, v_act: usize) -> (r: Option<Edge>)
        requires
            old(self).wf(),
            u < old(self).num_vertices_spec(),
            v < old(self).num_vertices_spec(),
            !old(self).connected(u as int, v as int),
            old(self).active@[u as int] == Some(u_act),
            old(self).active@[v as int] == Some(v_act),
        ensures
            final(self).wf(),
            r is Some && Self::linked(old(self), final(self), u as int, v as int, r->0.index() as int),
    {
        let ghost s0 = *self;
        proof {
            s0.lemma_two_components(u as int, v as int);
        }
                proof {
                    reveal(EulerTourTree::wf_active);
                    assert(s0.placed(u_act as int));
                    assert(s0.placed(v_act as int));
                    assert(s0.slot_of(u_act as int) != s0.slot_of(v_act as int));
                }
                let t = self.tree(v_act);
                self.make_root(u);
                let ghost sm = *self;
                self.make_root(v);
                let ghost s1 = *self;
                assert(s1.slot_of(u_act as int) == s0.slot_of(u_act as int)) by {
                    assert(sm.slot_of(u_act as int) == s0.slot_of(u_act as int));
                }
                assert(s1.slot_of(v_act as int) == s0.slot_of(v_act as int)) by {
                    assert(sm.slot_of(v_act as int) == s0.slot_of(v_act as int));
                }
                proof {
                    reveal(EulerTourTree::wf_active);
                    reveal(EulerTourTree::wf_free_edges);
                    reveal(EulerTourTree::wf_free_trees);
                    assert(s1.placed(u_act as int));
                    assert(s1.placed(v_act as int));
                    assert(s1.free_edges@[s1.free_edges@.len() - 1] < s1.ends@.len());
                }
                let (i, e, f) = self.new_edge(u, v);
                let tu = self.tree(u_act);
                let ghost e0 = self.edges@;
                let ghost a = self.tour_at(tu as int);
                let ghost b = self.tour_at(t as int);
                proof {
                    reveal(EulerTourTree::wf_tours);
                    reveal(EulerTourTree::wf_free_edges);
                    assert(s1.free_edges@[s1.free_edges@.len() - 1] == i);
                    assert(s1.free_edges@.contains((i as int) as usize));
                    assert(!s1.placed(2 * i));
                    assert(tu != t);
                    s1.lemma_pair_placed(e as int);
                    assert(a == s1.tour_at(tu as int));
                    assert(b == s1.tour_at(t as int));
                    assert(placed_all(self.edges@, a, tu));
                    assert(placed_all(self.edges@, b, t));
                    assert(!a.contains(e));
                    assert(!b.contains(e));
                    assert(!b.contains(f));
                }
                self.trees[tu].push(&mut self.edges, tu, e);
                let ghost e1 = self.edges@;
                assert(self.trees@[t as int] == s1.trees@[t as int]);
                let mut tmp = EdgeSeq::with_capacity(0);
                std::mem::swap(&mut tmp, &mut self.trees[t]);
                proof {
                    assert(tmp@ == b);
                    assert forall|k: int| 0 <= k < b.len() implies {
                        &&& #[trigger] b[k] < e1.len()
                        &&& e1[b[k] as int].spec_tree() == t
                        &&& e1[b[k] as int].spec_rank() == k
                    } by {
                        assert(b[k] != e);
                        assert(!a.contains(b[k])) by {
                            if a.contains(b[k]) {
                                let q = choose|q: int| 0 <= q < a.len() && a[q] == b[k];
                            }
                        }
                        assert(!(a.push(e)).contains(b[k])) by {
                            if a.push(e).contains(b[k]) {
                                let q = choose|q: int| 0 <= q < a.len() + 1 && a.push(e)[q] == b[k];
                                if q < a.len() {
                                    assert(a[q] == b[k]);
                                }
                            }
                        }
                    }
                }
                self.trees[tu].append(&mut self.edges, tu, &mut tmp, t);
                std::mem::swap(&mut tmp, &mut self.trees[t]);
                let ghost e2 = self.edges@;
                proof {
                    assert(self.tour_at(tu as int) == a.push(e) + b);
                    assert(!(a.push(e) + b).contains(f)) by {
                        if (a.push(e) + b).contains(f) {
                            let q = choose|q: int| 0 <= q < a.len() + 1 + b.len() && (a.push(e) + b)[q] == f;
                            if q < a.len() {
                                assert(a[q] == f);
                                assert(a.contains(f));
                            } else if q > a.len() {
                                assert(b[q - a.len() - 1] == f);
                            }
                        }
                    }
                }
                self.trees[tu].push(&mut self.edges, tu, f);
                self.dispose_tree(t);
                let ntrees = self.trees.len();
                proof {
                    let j = joined(a, e, b, f);
                    assert(self.tour_at(tu as int) =~= j);
                    assert(self.tour_at(t as int) =~= Seq::<usize>::empty());
                    crate::tour::lemma_join_pos_pub(a, e, b, f);
                    assert forall|x: usize|
                        a.contains(x) || a.push(e).contains(x) || (a.push(e) + b).contains(x) || b.contains(x)
                            || j.contains(x) implies #[trigger] j.contains(x) by {
                        if a.contains(x) {
                            let q = choose|q: int| 0 <= q < a.len() && a[q] == x;
                            assert(j[q] == x);
                        }
                        if a.push(e).contains(x) {
                            let q = choose|q: int| 0 <= q < a.len() + 1 && a.push(e)[q] == x;
                            if q < a.len() {
                                assert(j[q] == x);
                            } else {
                                assert(j[a.len() as int] == x);
                            }
                        }
                        if b.contains(x) {
                            let q = choose|q: int| 0 <= q < b.len() && b[q] == x;
                            assert(j[a.len() + 1 + q] == x);
                        }
                        if (a.push(e) + b).contains(x) {
                            let q = choose|q: int| 0 <= q < a.len() + 1 + b.len() && (a.push(e) + b)[q] == x;
                            assert(j[q] == x);
                        }
                    }
                    lemma_frame_trans(e0, e1, e2, a, a.push(e), a.push(e), a.push(e) + b, j);
                    lemma_frame_trans(e0, e2, self.edges@, j, j, a.push(e) + b, j, j);
                    assert forall|s: int|
                        0 <= s < s1.trees@.len() && s != tu && s != t implies #[trigger] self.tour_at(s)
                            == s1.tour_at(s) by {
                        assert(self.trees@[s] == s1.trees@[s]);
                    }
                    assert(s1.side_a(tu as int) == a);
                    assert(s1.side_b(t as int) == b);
                    assert(s1.sv(a[0] as int) == u);
                    assert(s1.sv(b[0] as int) == v);
                    let new = *self;
                    assert(ntrees == new.trees@.len());
                    assert(0 <= tu <= s1.trees@.len());
                    assert(new.trees@.len() <= usize::MAX);
                    assert(s1.active@[u as int] is Some ==> tu == s1.slot_of(s1.active@[u as int]->0 as int));
                    assert(s1.active@[v as int] is Some ==> t == s1.slot_of(s1.active@[v as int]->0 as int));
                    assert(new.trees@.len() == s1.trees@.len());
                    assert(new.tour_at(tu as int) == joined(s1.side_a(tu as int), e, s1.side_b(t as int), f));
                    assert(new.tour_at(t as int) == Seq::<usize>::empty());
                    assert(placed_all(new.edges@, new.tour_at(tu as int), tu));
                    assert(frame(s1.edges@, new.edges@, new.tour_at(tu as int), new.tour_at(tu as int)));
                    assert(new.free_trees@ == s1.free_trees@.push(t));
                    assert(new.ends@ == s1.ends@.update(i as int, new.ends@[i as int]));
                    assert(src(new.ends@, e as int) == u);
                    assert(tgt(new.ends@, e as int) == v);
                    assert(s1.link_step(self, i as int, u as int, v as int, tu as int, t as int, e, f));
                    s1.lemma_link_done(self, i as int, u as int, v as int, tu as int, t as int, e, f, u as int, v as int);
                    Self::lemma_same_forest_trans(&s0, &sm, &s1);
                    Self::lemma_linked_after(&s0, &s1, self, u as int, v as int, i as int);
                }
                Some(Edge(i))
            
    }

    /// Links a vertex in a tree to an isolated vertex.
    fn link_tree_vertex(&mut self, u: usize, v: usize, u_act: usize) -> (r: Option<Edge>)
        requires
            old(self).wf(),
            u < old(self).num_vertices_spec(),
            v < old(self).num_vertices_spec(),
            !old(self).connected(u as int, v as int),
            old(self).active@[u as int] == Some(u_act),
            old(self).active@[v as int] is None,
        ensures
            final(self).wf(),
            r is Some && Self::linked(old(self), final(self), u as int, v as int, r->0.index() as int),
    {
        let ghost s0 = *self;
        proof {
            s0.lemma_two_components(u as int, v as int);
        }
                proof {
                    reveal(EulerTourTree::wf_active);
                    assert(s0.placed(u_act as int));
                }
                self.make_root(u);
                let ghost s1 = *self;
                proof {
                    reveal(EulerTourTree::wf_active);
                    reveal(EulerTourTree::wf_free_edges);
                    assert(s1.placed(u_act as int));
                    assert(s1.free_edges@[s1.free_edges@.len() - 1] < s1.ends@.len());
                }
                let (i, e, f) = self.new_edge(u, v);
                let tu = self.tree(u_act);
                let ghost e0 = self.edges@;
                let ghost a = self.tour_at(tu as int);
                proof {
                    reveal(EulerTourTree::wf_tours);
                    reveal(EulerTourTree::wf_free_edges);
                    assert(s1.free_edges@[s1.free_edges@.len() - 1] == i);
                    assert(s1.free_edges@.contains((i as int) as usize));
                    assert(!s1.placed(2 * i));
                    s1.lemma_pair_placed(e as int);
                    assert(a == s1.tour_at(tu as int));
                    assert(placed_all(self.edges@, a, tu));
                    assert(!a.contains(e));
                    assert(!a.contains(f));
                }
                self.trees[tu].push(&mut self.edges, tu, e);
                let ghost e1 = self.edges@;
                proof {
                    assert(!a.push(e).contains(f)) by {
                        if a.push(e).contains(f) {
                            let q = choose|q: int| 0 <= q < a.len() + 1 && a.push(e)[q] == f;
                            if q < a.len() {
                                assert(a[q] == f);
                            }
                        }
                    }
                }
                self.trees[tu].push(&mut self.edges, tu, f);
                let ghost e2 = self.edges@;
                proof {
                    assert(src(self.ends@, f as int) == v);
                }
                self.set_active(v, Some(f));
                let ntrees = self.trees.len();
                proof {
                    let b = Seq::<usize>::empty();
                    let j = joined(a, e, b, f);
                    assert(self.tour_at(tu as int) =~= j);
                    crate::tour::lemma_join_pos_pub(a, e, b, f);
                    assert forall|x: usize|
                        a.contains(x) || a.push(e).contains(x) || j.contains(x) implies #[trigger] j.contains(x) by {
                        if a.contains(x) {
                            let q = choose|q: int| 0 <= q < a.len() && a[q] == x;
                            assert(j[q] == x);
                        }
                        if a.push(e).contains(x) {
                            let q = choose|q: int| 0 <= q < a.len() + 1 && a.push(e)[q] == x;
                            assert(j[q] == x);
                        }
                    }
                    lemma_frame_trans(e0, e1, e2, a, a.push(e), a.push(e), j, j);
                    assert forall|s: int|
                        0 <= s < s1.trees@.len() && s != tu implies #[trigger] self.tour_at(s) == s1.tour_at(s) by {
                        assert(self.trees@[s] == s1.trees@[s]);
                    }
                    assert(s1.side_a(tu as int) == a);
                    assert(s1.side_b(-1) =~= b);
                    assert(s1.sv(a[0] as int) == u);
                    assert(ntrees == self.trees@.len());
                    assert(self.active@ == s1.active@.update(v as int, Some(f)));
                    assert(s1.link_step(self, i as int, u as int, v as int, tu as int, -1, e, f));
                    s1.lemma_link_done(self, i as int, u as int, v as int, tu as int, -1, e, f, u as int, v as int);
                    Self::lemma_linked_after(&s0, &s1, self, u as int, v as int, i as int);
                }
                Some(Edge(i))
            
    }

    /// Links an isolated vertex to a vertex in a tree.
    fn link_vertex_tree(&mut self, u: usize, v: usize, v_act: usize) -> (r: Option<Edge>)
        requires
            old(self).wf(),
            u < old(self).num_vertices_spec(),
            v < old(self).num_vertices_spec(),
            !old(self).connected(u as int, v as int),
            old(self).active@[u as int] is None,
            old(self).active@[v as int] == Some(v_act),
        ensures
            final(self).wf(),
            r is Some && Self::linked(old(self), final(self), u as int, v as int, r->0.index() as int),
    {
        let ghost s0 = *self;
        proof {
            s0.lemma_two_components(u as int, v as int);
        }
                proof {
                    reveal(EulerTourTree::wf_active);
                    assert(s0.placed(v_act as int));
                }
                self.make_root(v);
                let ghost s1 = *self;
                proof {
                    reveal(EulerTourTree::wf_active);
                    reveal(EulerTourTree::wf_free_edges);
                    assert(s1.placed(v_act as int));
                    assert(s1.free_edges@[s1.free_edges@.len() - 1] < s1.ends@.len());
                }
                let (i, e, f) = self.new_edge(u, v);
                let tv = self.tree(v_act);
                let ghost e0 = self.edges@;
                let ghost a = self.tour_at(tv as int);
                proof {
                    reveal(EulerTourTree::wf_tours);
                    reveal(EulerTourTree::wf_free_edges);
                    assert(s1.free_edges@[s1.free_edges@.len() - 1] == i);
                    assert(s1.free_edges@.contains((i as int) as usize));
                    assert(!s1.placed(2 * i));
                    s1.lemma_pair_placed(e as int);
                    assert(a == s1.tour_at(tv as int));
                    assert(placed_all(self.edges@, a, tv));
                    assert(!a.contains(e));
                    assert(!a.contains(f));
                }
                self.trees[tv].push(&mut self.edges, tv, f);
                let ghost e1 = self.edges@;
                proof {
                    assert(!a.push(f).contains(e)) by {
                        if a.push(f).contains(e) {
                            let q = choose|q: int| 0 <= q < a.len() + 1 && a.push(f)[q] == e;
                            if q < a.len() {
                                assert(a[q] == e);
                            }
                        }
                    }
                }
                self.trees[tv].push(&mut self.edges, tv, e);
                let ghost e2 = self.edges@;
                proof {
                    assert(src(self.ends@, e as int) == u);
                }
                self.set_active(u, Some(e));
                let ntrees = self.trees.len();
                proof {
                    let b = Seq::<usize>::empty();
                    let j = joined(a, f, b, e);
                    assert(self.tour_at(tv as int) =~= j);
                    crate::tour::lemma_join_pos_pub(a, f, b, e);
                    assert forall|x: usize|
                        a.contains(x) || a.push(f).contains(x) || j.contains(x) implies #[trigger] j.contains(x) by {
                        if a.contains(x) {
                            let q = choose|q: int| 0 <= q < a.len() && a[q] == x;
                            assert(j[q] == x);
                        }
                        if a.push(f).contains(x) {
                            let q = choose|q: int| 0 <= q < a.len() + 1 && a.push(f)[q] == x;
                            assert(j[q] == x);
                        }
                    }
                    lemma_frame_trans(e0, e1, e2, a, a.push(f), a.push(f), j, j);
                    assert forall|s: int|
                        0 <= s < s1.trees@.len() && s != tv implies #[trigger] self.tour_at(s) == s1.tour_at(s) by {
                        assert(self.trees@[s] == s1.trees@[s]);
                    }
                    assert(s1.side_a(tv as int) == a);
                    assert(s1.side_b(-1) =~= b);
                    assert(s1.sv(a[0] as int) == v);
                    assert(ntrees == self.trees@.len());
                    assert(self.active@ == s1.active@.update(u as int, Some(e)));
                    assert(src(self.ends@, f as int) == v);
                    assert(s1.link_step(self, i as int, v as int, u as int, tv as int, -1, f, e));
                    s1.lemma_link_done(self, i as int, v as int, u as int, tv as int, -1, f, e, u as int, v as int);
                    Self::lemma_linked_after(&s0, &s1, self, u as int, v as int, i as int);
                }
                Some(Edge(i))
            
    }

    /// Links two isolated vertices.
    fn link_vertices(&mut self, u: usize, v: usize) -> (r: Option<Edge>)
        requires
            old(self).wf(),
            u < old(self).num_vertices_spec(),
            v < old(self).num_vertices_spec(),
            !old(self).connected(u as int, v as int),
            old(self).active@[u as int] is None,
            old(self).active@[v as int] is None,
        ensures
            final(self).wf(),
            r is Some && Self::linked(old(self), final(self), u as int, v as int, r->0.index() as int),
    {
        let ghost s0 = *self;
        proof {
            s0.lemma_two_components(u as int, v as int);
        }
                proof {
                    reveal(EulerTourTree::wf_free_edges);
                    reveal(EulerTourTree::wf_free_trees);
                    assert(s0.free_edges@[s0.free_edges@.len() - 1] < s0.ends@.len());
                    assert forall|k: int| 0 <= k < s0.free_trees@.len() implies #[trigger] s0.free_trees@[k] < s0.trees@.len()
                        && s0.tour_at(s0.free_trees@[k] as int).len() == 0 by {
                        assert(s0.free_trees@.contains((s0.free_trees@[k] as int) as usize));
                    }
                }
                let (i, e, f) = self.new_edge(u, v);
                let ghost s2 = *self;
                let t = self.new_tree_with_edges(e, f);
                let ghost s3 = *self;
                let ghost e2 = self.edges@;
                proof {
                    assert(src(self.ends@, e as int) == u);
                    assert(src(self.ends@, f as int) == v);
                }
                self.set_active(u, Some(e));
                self.set_active(v, Some(f));
                let ntrees = self.trees.len();
                proof {
                    reveal(EulerTourTree::wf_free_trees);
                    let a = s0.side_a(t as int);
                    let b = Seq::<usize>::empty();
                    let j = joined(a, e, b, f);
                    if s0.free_trees@.len() > 0 {
                        assert(s0.free_trees@.contains((s0.free_trees@[s0.free_trees@.len() - 1] as int) as usize));
                        assert(s0.tour_at(t as int).len() == 0);
                    }
                    assert(a =~= Seq::<usize>::empty());
                    assert(self.tour_at(t as int) =~= j);
                    assert forall|s: int|
                        0 <= s < s0.trees@.len() && s != t implies #[trigger] self.tour_at(s) == s0.tour_at(s) by {
                        assert(s2.trees@ == s0.trees@);
                        assert(s2.tour_at(s) == s0.tour_at(s));
                        assert(s3.tour_at(s) == s2.tour_at(s));
                        assert(self.trees@ == s3.trees@);
                    }
                    assert(s0.side_b(-1) =~= b);
                    assert(ntrees == self.trees@.len());
                    assert(self.active@ == s0.active@.update(u as int, Some(e)).update(v as int, Some(f)));
                    let new = *self;
                    assert(!s0.connected(u as int, v as int));
                    assert(new.free_edges@ == s0.free_edges@.drop_last());
                    assert(new.ends@ == s0.ends@.update(i as int, new.ends@[i as int]));
                    assert(0 <= t <= s0.trees@.len());
                    assert(s0.active@[u as int] is None ==> (t == s0.trees@.len() || s0.tour_at(t as int).len() == 0));
                    assert(new.trees@.len() == (if t == s0.trees@.len() { s0.trees@.len() + 1 } else { s0.trees@.len() + 0 }));
                    assert(new.tour_at(t as int) == joined(s0.side_a(t as int), e, s0.side_b(-1), f));
                    assert(placed_all(new.edges@, new.tour_at(t as int), t));
                    assert(frame(s0.edges@, new.edges@, new.tour_at(t as int), new.tour_at(t as int)));
                    assert(s0.link_step(self, i as int, u as int, v as int, t as int, -1, e, f));
                    s0.lemma_link_done(self, i as int, u as int, v as int, t as int, -1, e, f, u as int, v as int);
                }
                Some(Edge(i))
    }

    /// The direction that becomes the active one of `u` after a cut: the one after the cut
    /// range in the outer tour, or (when the range ran to the end) the first one.
    spec fn cut_active_u(t1: Seq<usize>, ra: int) -> Option<usize> {
        if ra < t1.len() {
            Some(t1[ra])
        } else if t1.len() > 0 {
            Some(t1[0])
        } else {
            None
        }
    }

    /// The free slots after a cut.
    spec fn cut_free_trees(&self, ts: int, js: int, t1: Seq<usize>, t2: Seq<usize>) -> Seq<usize> {
        let ft1 = if js == self.trees@.len() {
            self.free_trees@
        } else {
            self.free_trees@.drop_last()
        };
        let ft2 = if t1.len() == 0 {
            ft1.push(ts as usize)
        } else {
            ft1
        };
        if t2.len() == 0 {
            ft2.push(js as usize)
        } else {
            ft2
        }
    }

    /// `new` is `self` after cutting the edge `i`, whose directions are at positions
    /// `ra < rb` of the tour in slot `ts`: the tour outside stays in `ts`, the tour between
    /// goes to the free slot `js`.
    spec fn cut_step(&self, new: &Self, i: int, ts: int, js: int, ra: int, rb: int) -> bool {
        let t = self.tour_at(ts);
        let t1 = outer(t, ra, rb);
        let t2 = inner(t, ra, rb);
        let u = self.sv(t[ra] as int);
        let v = tgt(self.ends@, t[ra] as int);
        &&& self.in_use(i)
        &&& 0 <= ts < self.trees@.len()
        &&& 0 <= ra < rb < t.len()
        &&& t[rb] as int == pair_of(t[ra] as int)
        &&& t[ra] as int / 2 == i
        &&& (js == self.trees@.len() && self.free_trees@.len() == 0 && new.trees@.len() == self.trees@.len() + 1)
            || (self.free_trees@.len() > 0 && js == self.free_trees@.last() && new.trees@.len()
            == self.trees@.len())
        &&& new.trees@.len() <= usize::MAX
        &&& new.tour_at(ts) == t1
        &&& new.tour_at(js) == t2
        &&& forall|s: int|
            0 <= s < self.trees@.len() && s != ts && s != js ==> #[trigger] new.tour_at(s) == self.tour_at(s)
        &&& placed_all(new.edges@, t1, ts as usize)
        &&& placed_all(new.edges@, t2, js as usize)
        &&& frame(self.edges@, new.edges@, t, t)
        &&& new.ends@ == self.ends@
        &&& new.free_edges@ == self.free_edges@.push(i as usize)
        &&& new.active@ == self.active@.update(u, Self::cut_active_u(t1, ra)).update(
            v,
            if t2.len() > 0 {
                Some(t2[0])
            } else {
                None
            },
        )
        &&& new.free_trees@ == self.cut_free_trees(ts, js, t1, t2)
    }

    proof fn lemma_cut_basics(&self, new: &Self, i: int, ts: int, js: int, ra: int, rb: int)
        requires
            self.wf(),
            self.cut_step(new, i, ts, js, ra, rb),
        ensures
            ({
                let t = self.tour_at(ts);
                let t1 = outer(t, ra, rb);
                let t2 = inner(t, ra, rb);
                let u = self.sv(t[ra] as int);
                let v = tgt(self.ends@, t[ra] as int);
                &&& tour(self.ends@, t)
                &&& placed_all(self.edges@, t, ts as usize)
                &&& tour(self.ends@, t1)
                &&& tour(self.ends@, t2)
                &&& js != ts
                &&& 0 <= js < new.trees@.len()
                &&& new.trees@.len() >= self.trees@.len()
                &&& js < self.trees@.len() ==> self.tour_at(js).len() == 0
                &&& 0 <= u < self.active@.len()
                &&& 0 <= v < self.active@.len()
                &&& u != v
                &&& forall|p: int, q: int|
                    0 <= p < t1.len() && 0 <= q < t2.len() ==> src(self.ends@, #[trigger] t1[p] as int) != src(
                        self.ends@,
                        #[trigger] t2[q] as int,
                    )
                &&& forall|q: int| 0 <= q < t2.len() ==> src(self.ends@, #[trigger] t2[q] as int) != u
                &&& forall|p: int| 0 <= p < t1.len() ==> src(self.ends@, #[trigger] t1[p] as int) != v
                &&& t2.len() > 0 ==> src(self.ends@, t2[0] as int) == v
                &&& Self::cut_active_u(t1, ra) is Some ==> src(self.ends@, Self::cut_active_u(t1, ra)->0 as int) == u
                    && t1.contains(Self::cut_active_u(t1, ra)->0)
                &&& t2.len() > 0 ==> t2.contains(t2[0])
                &&& forall|x: usize|
                    t.contains(x) <==> (t1.contains(x) || t2.contains(x) || x == t[ra] || x == t[rb])
                &&& forall|x: usize| t1.contains(x) ==> x != t[ra] && x != t[rb] && !t2.contains(x)
                &&& forall|x: usize| t2.contains(x) ==> x != t[ra] && x != t[rb]
                &&& self.active@[u] is Some && self.slot_of(self.active@[u]->0 as int) == ts
                &&& self.active@[v] is Some && self.slot_of(self.active@[v]->0 as int) == ts
            }),
    {
        reveal(EulerTourTree::wf_tours);
        reveal(EulerTourTree::wf_owner);
        reveal(EulerTourTree::wf_active);
        reveal(EulerTourTree::wf_free_trees);
        let t = self.tour_at(ts);
        let t1 = outer(t, ra, rb);
        let t2 = inner(t, ra, rb);
        lemma_split(self.ends@, t, ra, rb);
        crate::tour::lemma_split_pos_pub(t, ra, rb);
        lemma_pair(self.ends@, t[ra] as int);
        assert(self.tour_at(ts)[ra] == t[ra]);
        assert(self.tour_at(ts)[rb] == t[rb]);
        if js < self.trees@.len() {
            assert(self.free_trees@[self.free_trees@.len() - 1] == js);
            assert(self.free_trees@.contains(self.free_trees@[self.free_trees@.len() - 1]));
            assert(self.free_trees@.contains((js as int) as usize));
            assert(self.tour_at(ts).len() > 0);
        }
        if ra < t1.len() {
            assert(t1.contains(t1[ra]));
        }
        if t1.len() > 0 {
            assert(t1.contains(t1[0]));
        }
        let u = self.sv(t[ra] as int);
        let v = tgt(self.ends@, t[ra] as int);
        assert(src(self.ends@, t[rb] as int) == v);
        assert(t[ra] != t[rb]);
        crate::tour::lemma_src_ne_tgt_pub(self.ends@, t, ra, rb);
    }

    /// What a cut does to one direction.
    proof fn lemma_cut_dir(
        &self,
        new: &Self,
        i: int,
        ts: int,
        js: int,
        ra: int,
        rb: int,
        x: usize,
    )
        requires
            self.wf(),
            self.cut_step(new, i, ts, js, ra, rb),
            x < self.edges@.len(),
        ensures
            ({
                let t = self.tour_at(ts);
                let t1 = outer(t, ra, rb);
                let t2 = inner(t, ra, rb);
                &&& self.placed(x as int) && self.slot_of(x as int) != ts ==> new.placed(x as int) && new.slot_of(
                    x as int,
                ) == self.slot_of(x as int) && !t.contains(x)
                &&& t1.contains(x) ==> new.placed(x as int) && new.slot_of(x as int) == ts
                &&& t2.contains(x) ==> new.placed(x as int) && new.slot_of(x as int) == js
                &&& new.placed(x as int) ==> self.placed(x as int) && (t1.contains(x) || t2.contains(x) || (
                    self.slot_of(x as int) != ts && new.slot_of(x as int) == self.slot_of(x as int)))
                &&& self.placed(x as int) && self.slot_of(x as int) == ts ==> t.contains(x)
            }),
    {
        reveal(EulerTourTree::wf_tours);
        self.lemma_cut_basics(new, i, ts, js, ra, rb);
        let t = self.tour_at(ts);
        let t1 = outer(t, ra, rb);
        let t2 = inner(t, ra, rb);
        if self.placed(x as int) {
            let s0 = self.slot_of(x as int);
            let r = self.edges@[x as int].spec_rank() as int;
            assert(self.tour_at(s0)[r] == x);
            if s0 != ts {
                if t.contains(x) {
                    let q = choose|q: int| 0 <= q < t.len() && t[q] == x;
                }
                if s0 == js {
                    assert(false);
                }
                assert(new.tour_at(s0) == self.tour_at(s0));
                assert(placed_all(self.edges@, self.tour_at(s0), s0 as usize));
            } else {
                assert(t.contains(x));
            }
        }
        if t1.contains(x) {
            let q = choose|q: int| 0 <= q < t1.len() && t1[q] == x;
        }
        if t2.contains(x) {
            let q = choose|q: int| 0 <= q < t2.len() && t2[q] == x;
        }
        if new.placed(x as int) {
            let s1 = new.slot_of(x as int);
            let r = new.edges@[x as int].spec_rank() as int;
            assert(new.tour_at(s1)[r] == x);
            if s1 == ts {
                assert(t1.contains(x));
            } else if s1 == js {
                assert(t2.contains(x));
            } else {
                assert(new.tour_at(s1) == self.tour_at(s1));
                assert(self.tour_at(s1).contains(x));
                assert(placed_all(self.edges@, self.tour_at(s1), s1 as usize));
                if t.contains(x) {
                    let q = choose|q: int| 0 <= q < t.len() && t[q] == x;
                }
                let q = choose|q: int| 0 <= q < self.tour_at(s1).len() && self.tour_at(s1)[q] == x;
            }
            if t1.contains(x) || t2.contains(x) {
                assert(t.contains(x));
                let q = choose|q: int| 0 <= q < t.len() && t[q] == x;
            }
        }
    }

    proof fn lemma_cut_tours(
        &self,
        new: &Self,
        i: int,
        ts: int,
        js: int,
        ra: int,
        rb: int,
    )
        requires
            self.wf(),
            self.cut_step(new, i, ts, js, ra, rb),
        ensures
            new.wf_tours(),
    {
        reveal(EulerTourTree::wf_tours);
        self.lemma_cut_basics(new, i, ts, js, ra, rb);
        let t = self.tour_at(ts);
        assert forall|s: int| 0 <= s < new.trees@.len() implies placed_all(
            new.edges@,
            #[trigger] new.tour_at(s),
            s as usize,
        ) && tour(new.ends@, new.tour_at(s)) by {
            if s != ts && s != js {
                let ot = self.tour_at(s);
                assert(new.tour_at(s) == ot);
                assert(placed_all(self.edges@, ot, s as usize));
                assert forall|k: int| 0 <= k < ot.len() implies {
                    &&& #[trigger] ot[k] < new.edges@.len()
                    &&& new.edges@[ot[k] as int].spec_tree() == s as usize
                    &&& new.edges@[ot[k] as int].spec_rank() == k
                } by {
                    if t.contains(ot[k]) {
                        let q = choose|q: int| 0 <= q < t.len() && t[q] == ot[k];
                    }
                }
            }
        }
    }

    proof fn lemma_cut_owner_at(
        &self,
        new: &Self,
        i: int,
        ts: int,
        js: int,
        ra: int,
        rb: int,
        s: int,
        k: int,
    )
        requires
            self.wf(),
            self.cut_step(new, i, ts, js, ra, rb),
            0 <= s < new.trees@.len(),
            0 <= k < new.tour_at(s).len(),
        ensures
            ({
                let y = new.tour_at(s)[k];
                let w = new.sv(y as int);
                &&& new.ends@[y as int / 2].0 < new.active@.len()
                &&& new.ends@[y as int / 2].1 < new.active@.len()
                &&& new.active@[w] is Some
                &&& new.slot_of(new.active@[w]->0 as int) == s
            }),
    {
        reveal(EulerTourTree::wf_owner);
        reveal(EulerTourTree::wf_active);
        self.lemma_cut_basics(new, i, ts, js, ra, rb);
        self.lemma_cut_tours(new, i, ts, js, ra, rb);
        reveal(EulerTourTree::wf_tours);
        let t = self.tour_at(ts);
        let t1 = outer(t, ra, rb);
        let t2 = inner(t, ra, rb);
        let u = self.sv(t[ra] as int);
        let v = tgt(self.ends@, t[ra] as int);
        let y = new.tour_at(s)[k];
        let w = new.sv(y as int);
        assert(placed_all(new.edges@, new.tour_at(s), s as usize));
        self.lemma_cut_dir(new, i, ts, js, ra, rb, y);
        assert(self.placed(y as int));
        let s0 = self.slot_of(y as int);
        assert(self.tour_at(s0)[self.edges@[y as int].spec_rank() as int] == y);
        let x = self.active@[w]->0;
        assert(self.placed(x as int));
        self.lemma_cut_dir(new, i, ts, js, ra, rb, x);
        if s == ts {
            assert(t1.contains(y));
            let p = choose|p: int| 0 <= p < t1.len() && t1[p] == y;
            if w == u {
                let au = Self::cut_active_u(t1, ra)->0;
                self.lemma_cut_dir(new, i, ts, js, ra, rb, au);
            } else {
                assert(w != v);
                if !t1.contains(x) {
                    if t2.contains(x) {
                        let q = choose|q: int| 0 <= q < t2.len() && t2[q] == x;
                        assert(self.sv(x as int) == w);
                    } else {
                        assert(t.contains(x));
                        let q = choose|q: int| 0 <= q < t.len() && t[q] == x;
                        assert(q == ra || q == rb);
                        lemma_pair(self.ends@, t[ra] as int);
                    }
                }
            }
        } else if s == js {
            assert(t2.contains(y));
            let p = choose|p: int| 0 <= p < t2.len() && t2[p] == y;
            if w == v {
                self.lemma_cut_dir(new, i, ts, js, ra, rb, t2[0]);
            } else {
                assert(w != u);
                if !t2.contains(x) {
                    if t1.contains(x) {
                        let q = choose|q: int| 0 <= q < t1.len() && t1[q] == x;
                        assert(self.sv(x as int) == w);
                    } else {
                        assert(t.contains(x));
                        let q = choose|q: int| 0 <= q < t.len() && t[q] == x;
                        assert(q == ra || q == rb);
                        lemma_pair(self.ends@, t[ra] as int);
                    }
                }
            }
        } else {
            assert(new.tour_at(s) == self.tour_at(s));
            assert(self.tour_at(s)[k] == y);
            if w == u || w == v {
                assert(false);
            }
        }
    }

    proof fn lemma_cut_owner(
        &self,
        new: &Self,
        i: int,
        ts: int,
        js: int,
        ra: int,
        rb: int,
    )
        requires
            self.wf(),
            self.cut_step(new, i, ts, js, ra, rb),
        ensures
            new.wf_owner(),
    {
        reveal(EulerTourTree::wf_owner);
        assert forall|s: int, k: int|
            0 <= s < new.trees@.len() && 0 <= k < new.tour_at(s).len() implies {
                let y = #[trigger] new.tour_at(s)[k];
                let w = new.sv(y as int);
                &&& new.ends@[y as int / 2].0 < new.active@.len()
                &&& new.ends@[y as int / 2].1 < new.active@.len()
                &&& new.active@[w] is Some
                &&& new.slot_of(new.active@[w]->0 as int) == s
            } by {
            self.lemma_cut_owner_at(new, i, ts, js, ra, rb, s, k);
        }
    }

    proof fn lemma_cut_active(
        &self,
        new: &Self,
        i: int,
        ts: int,
        js: int,
        ra: int,
        rb: int,
    )
        requires
            self.wf(),
            self.cut_step(new, i, ts, js, ra, rb),
        ensures
            new.wf_active(),
    {
        reveal(EulerTourTree::wf_active);
        self.lemma_cut_basics(new, i, ts, js, ra, rb);
        let t = self.tour_at(ts);
        let t1 = outer(t, ra, rb);
        let t2 = inner(t, ra, rb);
        let u = self.sv(t[ra] as int);
        let v = tgt(self.ends@, t[ra] as int);
        assert forall|w: int|
            0 <= w < new.active@.len() && #[trigger] new.active@[w] is Some implies {
                let x = new.active@[w]->0 as int;
                &&& new.placed(x)
                &&& new.sv(x) == w
            } by {
            let x = new.active@[w]->0;
            if w == v {
                assert(t2.contains(x));
                let q = choose|q: int| 0 <= q < t2.len() && t2[q] == x;
                self.lemma_cut_dir(new, i, ts, js, ra, rb, x);
            } else if w == u {
                assert(t1.contains(x));
                let q = choose|q: int| 0 <= q < t1.len() && t1[q] == x;
                self.lemma_cut_dir(new, i, ts, js, ra, rb, x);
            } else {
                assert(self.placed(x as int));
                self.lemma_cut_dir(new, i, ts, js, ra, rb, x);
                if self.slot_of(x as int) == ts {
                    assert(t.contains(x));
                    if !t1.contains(x) && !t2.contains(x) {
                        let q = choose|q: int| 0 <= q < t.len() && t[q] == x;
                        lemma_pair(self.ends@, t[ra] as int);
                        assert(false);
                    }
                    if t1.contains(x) {
                        let q = choose|q: int| 0 <= q < t1.len() && t1[q] == x;
                    } else {
                        let q = choose|q: int| 0 <= q < t2.len() && t2[q] == x;
                    }
                }
            }
        }
    }

    proof fn lemma_cut_free_slot(
        &self,
        new: &Self,
        i: int,
        ts: int,
        js: int,
        ra: int,
        rb: int,
        t: int,
    )
        requires
            self.wf(),
            self.cut_step(new, i, ts, js, ra, rb),
            0 <= t < new.trees@.len(),
        ensures
            new.tour_at(t).len() == 0 <==> new.free_trees@.contains(t as usize),
    {
        reveal(EulerTourTree::wf_free_trees);
        self.lemma_cut_basics(new, i, ts, js, ra, rb);
        let tt = self.tour_at(ts);
        let t1 = outer(tt, ra, rb);
        let t2 = inner(tt, ra, rb);
        let ft = self.free_trees@;
        let nft = new.free_trees@;
        let n0 = self.trees@.len() as int;
        let ft1 = if js == n0 { ft } else { ft.drop_last() };
        let ft2 = if t1.len() == 0 { ft1.push(ts as usize) } else { ft1 };
        assert(nft == (if t2.len() == 0 { ft2.push(js as usize) } else { ft2 }));
        assert(tt.len() > 0);
        assert(!ft.contains(ts as usize));
        assert forall|x: usize| ft1.contains(x) implies ft.contains(x) && x != js as usize by {
            let k = choose|k: int| 0 <= k < ft1.len() && ft1[k] == x;
            assert(ft[k] == x);
            if js < n0 {
                assert(ft[ft.len() - 1] == js);
            }
        }
        assert forall|x: usize| ft.contains(x) && x != js as usize implies ft1.contains(x) by {
            let k = choose|k: int| 0 <= k < ft.len() && ft[k] == x;
            if js < n0 {
                assert(k != ft.len() - 1);
            }
            assert(ft1[k] == x);
        }
        assert forall|x: usize| ft2.contains(x) <==> (ft1.contains(x) || (t1.len() == 0 && x == ts as usize)) by {
            if t1.len() == 0 {
                if ft2.contains(x) {
                    let k = choose|k: int| 0 <= k < ft2.len() && ft2[k] == x;
                    if k < ft1.len() {
                        assert(ft1[k] == x);
                    }
                }
                if ft1.contains(x) {
                    let k = choose|k: int| 0 <= k < ft1.len() && ft1[k] == x;
                    assert(ft2[k] == x);
                }
                assert(ft2[ft1.len() as int] == ts as usize);
            }
        }
        assert forall|x: usize| nft.contains(x) <==> (ft2.contains(x) || (t2.len() == 0 && x == js as usize)) by {
            if t2.len() == 0 {
                if nft.contains(x) {
                    let k = choose|k: int| 0 <= k < nft.len() && nft[k] == x;
                    if k < ft2.len() {
                        assert(ft2[k] == x);
                    }
                }
                if ft2.contains(x) {
                    let k = choose|k: int| 0 <= k < ft2.len() && ft2[k] == x;
                    assert(nft[k] == x);
                }
                assert(nft[ft2.len() as int] == js as usize);
            }
        }
        if t != ts && t != js {
            assert(t < n0);
            assert(new.tour_at(t) == self.tour_at(t));
            assert(self.tour_at(t).len() == 0 <==> ft.contains(t as usize));
        }
    }

    proof fn lemma_cut_free_trees(
        &self,
        new: &Self,
        i: int,
        ts: int,
        js: int,
        ra: int,
        rb: int,
    )
        requires
            self.wf(),
            self.cut_step(new, i, ts, js, ra, rb),
        ensures
            new.wf_free_trees(),
    {
        reveal(EulerTourTree::wf_free_trees);
        self.lemma_cut_basics(new, i, ts, js, ra, rb);
        let tt = self.tour_at(ts);
        let t1 = outer(tt, ra, rb);
        let t2 = inner(tt, ra, rb);
        let ft = self.free_trees@;
        let nft = new.free_trees@;
        let n0 = self.trees@.len() as int;
        let ft1 = if js == n0 { ft } else { ft.drop_last() };
        let ft2 = if t1.len() == 0 { ft1.push(ts as usize) } else { ft1 };
        assert(nft == (if t2.len() == 0 { ft2.push(js as usize) } else { ft2 }));
        assert(tt.len() > 0);
        assert(!ft.contains(ts as usize));
        if js < n0 {
            assert(ft[ft.len() - 1] == js);
        }
        assert forall|k: int| 0 <= k < ft1.len() implies #[trigger] ft1[k] < n0 && ft1[k] != ts as usize
            && ft1[k] != js as usize by {
            assert(ft1[k] == ft[k]);
            assert(ft.contains(ft[k]));
        }
        assert forall|k: int| 0 <= k < nft.len() implies #[trigger] nft[k] < new.trees@.len() by {
            if k < ft1.len() {
                assert(nft[k] == ft1[k]);
            }
        }
        assert forall|k: int, l: int| 0 <= k < l < nft.len() implies nft[k] != nft[l] by {
            if l < ft1.len() {
                assert(nft[k] == ft[k]);
                assert(nft[l] == ft[l]);
            } else if k < ft1.len() {
                assert(nft[k] == ft1[k]);
            }
        }
        assert forall|t: int| 0 <= t < new.trees@.len() implies (new.tour_at(t).len() == 0
            <==> #[trigger] nft.contains(t as usize)) by {
            self.lemma_cut_free_slot(new, i, ts, js, ra, rb, t);
        }
    }

    proof fn lemma_cut_placed(
        &self,
        new: &Self,
        i: int,
        ts: int,
        js: int,
        ra: int,
        rb: int,
    )
        requires
            self.wf(),
            self.cut_step(new, i, ts, js, ra, rb),
        ensures
            forall|k: int| 0 <= k < self.ends@.len() && k != i ==> (#[trigger] new.placed(2 * k) <==> self.placed(2 * k)),
            !new.placed(2 * i),
    {
        reveal(EulerTourTree::wf_tours);
        self.lemma_cut_basics(new, i, ts, js, ra, rb);
        let tt = self.tour_at(ts);
        let t1 = outer(tt, ra, rb);
        let t2 = inner(tt, ra, rb);
        assert forall|k: int| 0 <= k < self.ends@.len() && k != i implies (#[trigger] new.placed(2 * k)
            <==> self.placed(2 * k)) by {
            let x = (2 * k) as usize;
            self.lemma_cut_dir(new, i, ts, js, ra, rb, x);
            if self.placed(2 * k) && self.slot_of(2 * k) == ts {
                assert(tt.contains(x));
                if x == tt[ra] || x == tt[rb] {
                    lemma_pair(self.ends@, tt[ra] as int);
                    assert(false);
                }
            }
        }
        let x = (2 * i) as usize;
        self.lemma_cut_dir(new, i, ts, js, ra, rb, x);
        lemma_pair(self.ends@, tt[ra] as int);
        assert(x == tt[ra] || x == tt[rb]);
        assert(tt.contains(x)) by {
            if x == tt[ra] {
                assert(tt[ra] == x);
            } else {
                assert(tt[rb] == x);
            }
        }
        assert(placed_all(self.edges@, tt, ts as usize));
        if x == tt[ra] {
            assert(self.slot_of(x as int) == ts);
        } else {
            assert(self.slot_of(x as int) == ts);
        }
    }

    #[verifier::rlimit(40)]
    proof fn lemma_cut_free_edges(
        &self,
        new: &Self,
        i: int,
        ts: int,
        js: int,
        ra: int,
        rb: int,
    )
        requires
            self.wf(),
            self.cut_step(new, i, ts, js, ra, rb),
        ensures
            new.wf_free_edges(),
    {
        reveal(EulerTourTree::wf_free_edges);
        self.lemma_cut_placed(new, i, ts, js, ra, rb);
        self.lemma_cut_count(new, i, ts, js, ra, rb);
        let fe = self.free_edges@;
        let nfe = new.free_edges@;
        assert(self.placed(2 * i));
        assert(!fe.contains(i as usize));
        assert forall|k: int| 0 <= k < nfe.len() implies #[trigger] nfe[k] < new.ends@.len() by {
            if k < fe.len() {
                assert(nfe[k] == fe[k]);
            }
        }
        assert forall|k: int, l: int| 0 <= k < l < nfe.len() implies nfe[k] != nfe[l] by {
            assert(nfe[k] == fe[k]);
            if l < fe.len() {
                assert(nfe[l] == fe[l]);
            } else {
                assert(fe.contains(fe[k]));
            }
        }
        assert forall|k: int| 0 <= k < new.ends@.len() implies (#[trigger] nfe.contains(k as usize)
            <==> !new.placed(2 * k)) by {
            if k == i {
                assert(nfe[fe.len() as int] == i as usize);
            } else {
                if nfe.contains(k as usize) {
                    let p = choose|p: int| 0 <= p < nfe.len() && nfe[p] == k as usize;
                    assert(p < fe.len());
                    assert(fe[p] == k as usize);
                }
                if fe.contains(k as usize) {
                    let p = choose|p: int| 0 <= p < fe.len() && fe[p] == k as usize;
                    assert(nfe[p] == k as usize);
                }
            }
        }
    }

    #[verifier::rlimit(40)]
    proof fn lemma_cut_count(
        &self,
        new: &Self,
        i: int,
        ts: int,
        js: int,
        ra: int,
        rb: int,
    )
        requires
            self.wf(),
            self.cut_step(new, i, ts, js, ra, rb),
        ensures
            new.free_edges@.len() + 1 == new.nonempty_slots().len() + new.isolated().len(),
    {
        reveal(EulerTourTree::wf_free_edges);
        reveal(EulerTourTree::wf_active);
        self.lemma_cut_basics(new, i, ts, js, ra, rb);
        self.lemma_sets_finite();
        new.lemma_sets_finite();
        let tt = self.tour_at(ts);
        let t1 = outer(tt, ra, rb);
        let t2 = inner(tt, ra, rb);
        let u = self.sv(tt[ra] as int);
        let v = tgt(self.ends@, tt[ra] as int);
        let n0 = self.trees@.len() as int;
        let ne0 = self.nonempty_slots();
        let ne1 = new.nonempty_slots();
        let is0 = self.isolated();
        let is1 = new.isolated();
        assert(ne0.contains(ts));
        assert(!ne0.contains(js));
        let ne_mid = if t1.len() == 0 { ne0.remove(ts) } else { ne0 };
        let ne_exp = if t2.len() > 0 { ne_mid.insert(js) } else { ne_mid };
        assert(ne1 =~= ne_exp) by {
            assert forall|t: int| #[trigger] ne1.contains(t) <==> ne_exp.contains(t) by {
                if 0 <= t < n0 && t != ts && t != js {
                    assert(new.tour_at(t) == self.tour_at(t));
                }
            }
        }
        assert(!is0.contains(u));
        assert(!is0.contains(v));
        let is_mid = if t1.len() == 0 { is0.insert(u) } else { is0 };
        let is_exp = if t2.len() == 0 { is_mid.insert(v) } else { is_mid };
        assert(is1 =~= is_exp);
        assert(!is_mid.contains(v));
    }

    /// The slot of a vertex's active direction after a cut.
    proof fn lemma_cut_comp(
        &self,
        new: &Self,
        i: int,
        ts: int,
        js: int,
        ra: int,
        rb: int,
        w: int,
    )
        requires
            self.wf(),
            self.cut_step(new, i, ts, js, ra, rb),
            0 <= w < self.active@.len(),
        ensures
            ({
                let tt = self.tour_at(ts);
                let u = self.sv(tt[ra] as int);
                let v = tgt(self.ends@, tt[ra] as int);
                &&& new.active@[w] is Some ==> self.active@[w] is Some
                &&& self.active@[w] is Some && self.slot_of(self.active@[w]->0 as int) != ts ==> {
                    &&& new.active@[w] is Some
                    &&& new.slot_of(new.active@[w]->0 as int) == self.slot_of(self.active@[w]->0 as int)
                    &&& new.slot_of(new.active@[w]->0 as int) != ts
                    &&& new.slot_of(new.active@[w]->0 as int) != js
                }
                &&& new.active@[w] is Some && self.slot_of(self.active@[w]->0 as int) == ts ==> new.slot_of(
                    new.active@[w]->0 as int,
                ) == ts || new.slot_of(new.active@[w]->0 as int) == js
                &&& new.active@[u] is Some ==> new.slot_of(new.active@[u]->0 as int) == ts
                &&& new.active@[v] is Some ==> new.slot_of(new.active@[v]->0 as int) == js
                &&& self.active@[w] is Some && self.slot_of(self.active@[w]->0 as int) == ts && w != u && w != v
                    ==> new.active@[w] is Some && (new.slot_of(new.active@[w]->0 as int) == ts
                    ==> new.active@[u] is Some) && (new.slot_of(new.active@[w]->0 as int) == js
                    ==> new.active@[v] is Some)
            }),
    {
        reveal(EulerTourTree::wf_active);
        reveal(EulerTourTree::wf_tours);
        self.lemma_cut_basics(new, i, ts, js, ra, rb);
        let tt = self.tour_at(ts);
        let t1 = outer(tt, ra, rb);
        let t2 = inner(tt, ra, rb);
        let u = self.sv(tt[ra] as int);
        let v = tgt(self.ends@, tt[ra] as int);
        if Self::cut_active_u(t1, ra) is Some {
            self.lemma_cut_dir(new, i, ts, js, ra, rb, Self::cut_active_u(t1, ra)->0);
        }
        if t2.len() > 0 {
            self.lemma_cut_dir(new, i, ts, js, ra, rb, t2[0]);
        }
        if self.active@[w] is Some && w != u && w != v {
            let x = self.active@[w]->0;
            assert(self.placed(x as int));
            self.lemma_cut_dir(new, i, ts, js, ra, rb, x);
            if self.slot_of(x as int) == ts {
                assert(tt.contains(x));
                if x == tt[ra] || x == tt[rb] {
                    lemma_pair(self.ends@, tt[ra] as int);
                    assert(false);
                }
                if t1.contains(x) {
                    assert(t1.len() > 0);
                } else {
                    assert(t2.len() > 0);
                }
            }
        }
    }

    proof fn lemma_cut_connected(
        &self,
        new: &Self,
        i: int,
        ts: int,
        js: int,
        ra: int,
        rb: int,
    )
        requires
            self.wf(),
            self.cut_step(new, i, ts, js, ra, rb),
        ensures
            ({
                let tt = self.tour_at(ts);
                let u = self.sv(tt[ra] as int);
                let v = tgt(self.ends@, tt[ra] as int);
                &&& 0 <= u < self.active@.len()
                &&& 0 <= v < self.active@.len()
                &&& self.connected(u, v)
                &&& !new.connected(u, v)
                &&& forall|x: int, y: int|
                    0 <= x < self.active@.len() && 0 <= y < self.active@.len() ==> (#[trigger] new.connected(x, y)
                        ==> self.connected(x, y))
                &&& forall|x: int, y: int|
                    0 <= x < self.active@.len() && 0 <= y < self.active@.len() && #[trigger] self.connected(x, y)
                        && !self.connected(x, u) ==> new.connected(x, y)
                &&& forall|x: int|
                    0 <= x < self.active@.len() && #[trigger] self.connected(x, u) ==> new.connected(x, u)
                        || new.connected(x, v)
            }),
    {
        self.lemma_cut_basics(new, i, ts, js, ra, rb);
        let tt = self.tour_at(ts);
        let u = self.sv(tt[ra] as int);
        let v = tgt(self.ends@, tt[ra] as int);
        self.lemma_cut_comp(new, i, ts, js, ra, rb, u);
        self.lemma_cut_comp(new, i, ts, js, ra, rb, v);
        assert forall|x: int, y: int|
            0 <= x < self.active@.len() && 0 <= y < self.active@.len() && #[trigger] new.connected(x, y)
                implies self.connected(x, y) by {
            self.lemma_cut_comp(new, i, ts, js, ra, rb, x);
            self.lemma_cut_comp(new, i, ts, js, ra, rb, y);
        }
        assert forall|x: int, y: int|
            0 <= x < self.active@.len() && 0 <= y < self.active@.len() && #[trigger] self.connected(x, y)
                && !self.connected(x, u) implies new.connected(x, y) by {
            self.lemma_cut_comp(new, i, ts, js, ra, rb, x);
            self.lemma_cut_comp(new, i, ts, js, ra, rb, y);
        }
        assert forall|x: int|
            0 <= x < self.active@.len() && #[trigger] self.connected(x, u) implies new.connected(x, u)
                || new.connected(x, v) by {
            self.lemma_cut_comp(new, i, ts, js, ra, rb, x);
        }
    }

    /// A cut step leaves a well formed structure.
    proof fn lemma_cut_wf(
        &self,
        new: &Self,
        i: int,
        ts: int,
        js: int,
        ra: int,
        rb: int,
    )
        requires
            self.wf(),
            self.cut_step(new, i, ts, js, ra, rb),
            new.wf_ids(),
        ensures
            new.wf(),
            forall|k: int| 0 <= k < self.ends@.len() && k != i ==> (#[trigger] new.placed(2 * k) <==> self.placed(2 * k)),
            !new.placed(2 * i),
    {
        self.lemma_cut_basics(new, i, ts, js, ra, rb);
        assert(new.active@.len() == self.active@.len());
        self.lemma_cut_tours(new, i, ts, js, ra, rb);
        self.lemma_cut_owner(new, i, ts, js, ra, rb);
        self.lemma_cut_active(new, i, ts, js, ra, rb);
        self.lemma_cut_free_trees(new, i, ts, js, ra, rb);
        self.lemma_cut_free_edges(new, i, ts, js, ra, rb);
        self.lemma_cut_placed(new, i, ts, js, ra, rb);
    }

    /// `new` is `old` without the edge `i`: its two ends are no longer connected, no two
    /// vertices become connected, the trees that did not hold it stay as they were, and each
    /// vertex of its tree stays with one of its two ends.
    pub open spec fn cut_apart(old: &Self, new: &Self, i: int) -> bool {
        let u = old.ends_spec(i).0 as int;
        let v = old.ends_spec(i).1 as int;
        let n = old.num_vertices_spec();
        &&& new.num_vertices_spec() == n
        &&& new.free_list() == old.free_list().push(i as usize)
        &&& !new.in_use(i)
        &&& forall|k: int| k != i ==> (#[trigger] new.in_use(k) <==> old.in_use(k))
        &&& forall|k: int| new.in_use(k) ==> #[trigger] new.ends_spec(k) == old.ends_spec(k)
        &&& old.connected(u, v)
        &&& !new.connected(u, v)
        &&& forall|x: int, y: int|
            0 <= x < n && 0 <= y < n && #[trigger] new.connected(x, y) ==> old.connected(x, y)
        &&& forall|x: int, y: int|
            0 <= x < n && 0 <= y < n && #[trigger] old.connected(x, y) && !old.connected(x, u)
                ==> new.connected(x, y)
        &&& forall|x: int|
            0 <= x < n && #[trigger] old.connected(x, u) ==> new.connected(x, u) || new.connected(x, v)
    }

    /// Concludes a cut step.
    proof fn lemma_cut_done(&self, new: &Self, i: int, ts: int, js: int, ra: int, rb: int)
        requires
            self.wf(),
            self.cut_step(new, i, ts, js, ra, rb),
            new.wf_ids(),
        ensures
            new.wf(),
            Self::cut_apart(self, new, i),
    {
        self.lemma_cut_wf(new, i, ts, js, ra, rb);
        self.lemma_cut_connected(new, i, ts, js, ra, rb);
        self.lemma_cut_basics(new, i, ts, js, ra, rb);
        let tt = self.tour_at(ts);
        let u = self.sv(tt[ra] as int);
        let v = tgt(self.ends@, tt[ra] as int);
        let eu = self.ends@[i].0 as int;
        let ev = self.ends@[i].1 as int;
        lemma_pair(self.ends@, tt[ra] as int);
        assert((u == eu && v == ev) || (u == ev && v == eu));
        let n = self.num_vertices_spec();
        assert forall|x: int, y: int|
            0 <= x < n && 0 <= y < n && #[trigger] self.connected(x, y) && !self.connected(x, eu)
                implies new.connected(x, y) by {
            if u == ev {
                reveal(EulerTourTree::wf_active);
                if self.connected(x, u) {
                    assert(self.connected(x, eu));
                }
            }
        }
        assert forall|x: int| 0 <= x < n && #[trigger] self.connected(x, eu) implies new.connected(x, eu)
            || new.connected(x, ev) by {
            if u == ev {
                assert(self.connected(x, u));
            }
        }
        assert forall|k: int| new.in_use(k) implies #[trigger] new.ends_spec(k) == self.ends_spec(k) by {
        }
    }

    /// Removes the edge `edge` from the forest.
    pub fn cut(&mut self, edge: Edge)
        requires
            old(self).wf(),
            old(self).in_use(edge.index() as int),
        ensures
            final(self).wf(),
            Self::cut_apart(old(self), final(self), edge.index() as int),
    {
        let ghost s0 = *self;
        let i = edge.0;
        proof {
            reveal(EulerTourTree::wf_tours);
            s0.lemma_pair_placed(2 * i as int);
        }
        let e = 2 * i;
        let f = 2 * i + 1;
        let (ts, e_rank) = self.tree_and_rank(e);
        let (_, f_rank) = self.tree_and_rank(f);
        let (ra, rb) = if e_rank < f_rank {
            (e_rank, f_rank)
        } else {
            (f_rank, e_rank)
        };
        let ghost t = s0.tour_at(ts as int);
        proof {
            assert(s0.placed(e as int));
            assert(s0.placed(f as int));
            assert(e_rank != f_rank);
            assert(t[e_rank as int] == e);
            assert(t[f_rank as int] == f);
            assert(pair_of(e as int) == f);
            assert(pair_of(f as int) == e);
        }
        let x = self.trees[ts].get(ra);
        let (u, v) = self.dir_ends(x);
        proof {
            reveal(EulerTourTree::wf_free_trees);
            reveal(EulerTourTree::wf_owner);
            lemma_split(s0.ends@, t, ra as int, rb as int);
            assert(s0.tour_at(ts as int)[ra as int] == x);
            assert(s0.ends@[x as int / 2].0 < s0.active@.len());
            assert(s0.ends@[x as int / 2].1 < s0.active@.len());
        }
        let tlen = self.trees[ts].len();
        let js = self.new_tree();
        let ghost s1 = *self;
        proof {
            reveal(EulerTourTree::wf_free_trees);
            assert(s1.trees@[ts as int] == s0.trees@[ts as int]) by {
                if s0.free_trees@.len() == 0 {
                    assert(s1.trees@.drop_last()[ts as int] == s0.trees@[ts as int]);
                }
            }
            if s0.free_trees@.len() > 0 {
                assert(s0.free_trees@[s0.free_trees@.len() - 1] == js);
                assert(s0.free_trees@.contains(s0.free_trees@[s0.free_trees@.len() - 1]));
                assert(t.len() > 0);
                assert(!s0.free_trees@.contains(ts));
                assert(js != ts);
                assert(s0.tour_at(js as int).len() == 0);
            }
            assert(js != ts);
            assert(s1.tour_at(js as int).len() == 0);
            assert(s1.trees@[js as int]@ == Seq::<usize>::empty());
        }
        let mut tmp = EdgeSeq::with_capacity(0);
        std::mem::swap(&mut tmp, &mut self.trees[js]);
        assert(self.trees@[ts as int]@ == t);
        assert(self.trees@[ts as int].placed(self.edges@, ts)) by {
            reveal(EulerTourTree::wf_tours);
        }
        self.trees[ts].extract(&mut self.edges, ts, ra, rb + 1, &mut tmp, js);
        std::mem::swap(&mut tmp, &mut self.trees[js]);
        let ghost s2 = *self;
        proof {
            assert(self.tour_at(ts as int) =~= outer(t, ra as int, rb as int));
            assert(self.tour_at(js as int) =~= inner(t, ra as int, rb as int));
            assert(self.edges@.len() == s0.edges@.len());
            assert forall|k: int| 0 <= k < self.edges@.len() implies (#[trigger] self.edges@[k]).spec_id() == k by {
                assert(s0.edges@[k].spec_id() == k);
            }
            assert(self.wf_ids());
            assert(self.ends@ == s0.ends@);
            assert(self.active@ == s0.active@);
        }
        let len1 = self.trees[ts].len();
        if ra < len1 {
            let a = self.trees[ts].get(ra);
            self.set_active(u, Some(a));
        } else {
            let a = self.trees[ts].first();
            self.set_active(u, a);
        }
        let b = self.trees[js].first();
        self.set_active(v, b);
        if self.trees[ts].len() == 0 {
            self.dispose_tree(ts);
        }
        if self.trees[js].len() == 0 {
            self.dispose_tree(js);
        }
        self.dispose_edge(i);
        let ntrees = self.trees.len();
        proof {
            let new = *self;
            assert(ntrees == new.trees@.len());
            let t1 = outer(t, ra as int, rb as int);
            let t2 = inner(t, ra as int, rb as int);
            assert(new.tour_at(ts as int) == t1);
            assert(new.tour_at(js as int) == t2);
            assert forall|s: int| 0 <= s < s0.trees@.len() && s != ts && s != js implies #[trigger] new.tour_at(s)
                == s0.tour_at(s) by {
                assert(new.trees@[s] == s0.trees@[s]);
            }
            assert(s0.cut_step(self, i as int, ts as int, js as int, ra as int, rb as int));
            s0.lemma_cut_done(self, i as int, ts as int, js as int, ra as int, rb as int);
        }
    }

    /// The ends of `e`, in the order in which they were linked.
    pub fn ends(&self, e: &Edge) -> (r: (usize, usize))
        requires
            self.wf(),
            e.index() + 1 < self.num_vertices_spec(),
        ensures
            r == self.ends_spec(e.index() as int),
    {
        let m = self.edges.len();
        let (u, v) = self.dir_ends(2 * e.0);
        proof {
            assert((2 * e.0) as int / 2 == e.0);
            assert((2 * e.0) as int % 2 == 0);
        }
        (u, v)
    }

    /// Removes every edge: afterwards each vertex is alone in its tree.
    pub fn clear(&mut self)
        requires
            old(self).wf(),
        ensures
            final(self).wf(),
            final(self).num_vertices_spec() == old(self).num_vertices_spec(),
            forall|k: int| !#[trigger] final(self).in_use(k),
            forall|x: int, y: int|
                0 <= x < final(self).num_vertices_spec() && 0 <= y < final(self).num_vertices_spec() ==> (
                #[trigger] final(self).connected(x, y) <==> x == y),
    {
        let ghost s0 = *self;
        self.free_trees.clear();
        let n = self.trees.len();
        let mut t: usize = 0;
        while t < n
            invariant
                t <= n,
                n == self.trees@.len(),
                self.free_trees@.len() == t,
                forall|k: int| 0 <= k < t ==> #[trigger] self.free_trees@[k] == k,
                forall|k: int| 0 <= k < t ==> (#[trigger] self.trees@[k])@ == Seq::<usize>::empty(),
                self.edges@ == s0.edges@,
                self.ends@ == s0.ends@,
                self.active@ == s0.active@,
                self.free_edges@ == s0.free_edges@,
            decreases n - t,
        {
            self.trees[t].clear();
            self.free_trees.push(t);
            t += 1;
        }
        let ghost s1 = *self;
        let m = self.active.len();
        let mut w: usize = 0;
        while w < m
            invariant
                w <= m,
                m == self.active@.len(),
                m == s0.active@.len(),
                forall|k: int| 0 <= k < w ==> #[trigger] self.active@[k] is None,
                self.trees@ == s1.trees@,
                self.free_trees@ == s1.free_trees@,
                self.edges@ == s0.edges@,
                self.ends@ == s0.ends@,
            decreases m - w,
        {
            self.active.set(w, None);
            w += 1;
        }
        self.free_edges.clear();
        let ghost s2 = *self;
        let k = self.ends.len();
        let mut i: usize = 0;
        while i < k
            invariant
                i <= k,
                k == self.ends@.len(),
                self.trees@ == s1.trees@,
                self.free_trees@ == s1.free_trees@,
                self.edges@ == s0.edges@,
                self.ends@ == s0.ends@,
                self.active@ == s2.active@,
                self.free_edges@.len() == i,
                forall|j: int| 0 <= j < i ==> #[trigger] self.free_edges@[j] == j,
            decreases k - i,
        {
            self.free_edges.push(i);
            i += 1;
        }
        proof {
            reveal(EulerTourTree::wf_tours);
            reveal(EulerTourTree::wf_owner);
            reveal(EulerTourTree::wf_active);
            reveal(EulerTourTree::wf_free_trees);
            reveal(EulerTourTree::wf_free_edges);
            assert forall|t: int| 0 <= t < self.trees@.len() implies #[trigger] self.tour_at(t).len() == 0 by {
                assert(self.trees@[t]@ == Seq::<usize>::empty());
            }
            assert forall|x: int| !self.placed(x) by {
                if 0 <= x < self.edges@.len() && (self.edges@[x].spec_tree() as int) < self.trees@.len() {
                    assert(self.tour_at(self.edges@[x].spec_tree() as int).len() == 0);
                }
            }
            assert forall|t: int| 0 <= t < self.trees@.len() implies (self.tour_at(t).len() == 0
                <==> #[trigger] self.free_trees@.contains(t as usize)) by {
                assert(self.free_trees@[t] == t);
            }
            assert forall|j: int| 0 <= j < self.ends@.len() implies (#[trigger] self.free_edges@.contains(j as usize)
                <==> !self.placed(2 * j)) by {
                assert(self.free_edges@[j] == j);
            }
            assert(self.nonempty_slots() =~= Set::<int>::empty());
            vstd::set_lib::lemma_int_range(0, self.active@.len() as int);
            assert(self.isolated() =~= vstd::set_lib::set_int_range(0, self.active@.len() as int));
            assert(self.wf_ids());
        }
    }
}

impl EulerTourTree {
    /// An edge of the forest joins `a` and `b`.
    pub open spec fn joins(&self, a: int, b: int) -> bool {
        exists|k: int|
            #![trigger self.ends_spec(k)]
            self.in_use(k) && ((self.ends_spec(k).0 as int == a && self.ends_spec(k).1 as int == b) || (
            self.ends_spec(k).0 as int == b && self.ends_spec(k).1 as int == a))
    }

    /// `p` is a path of the forest: each vertex is joined to the next one by an edge.
    pub open spec fn forest_path(&self, p: Seq<int>) -> bool {
        &&& p.len() > 0
        &&& forall|i: int| 0 <= i < p.len() - 1 ==> #[trigger] self.joins(p[i], p[i + 1])
    }

    /// Some path of the forest goes from `u` to `v`.
    pub open spec fn forest_reach(&self, u: int, v: int) -> bool {
        exists|p: Seq<int>| #[trigger] self.forest_path(p) && p[0] == u && p.last() == v
    }

    proof fn lemma_reach_refl(&self, u: int)
        ensures
            self.forest_reach(u, u),
    {
        let p = seq![u];
        assert(self.forest_path(p));
    }

    proof fn lemma_reach_push(&self, u: int, a: int, b: int)
        requires
            self.forest_reach(u, a),
            self.joins(a, b),
        ensures
            self.forest_reach(u, b),
    {
        let p = choose|p: Seq<int>| #[trigger] self.forest_path(p) && p[0] == u && p.last() == a;
        let q = p.push(b);
        assert forall|i: int| 0 <= i < q.len() - 1 implies #[trigger] self.joins(q[i], q[i + 1]) by {
            if i < p.len() - 1 {
                assert(q[i] == p[i] && q[i + 1] == p[i + 1]);
            }
        }
        assert(self.forest_path(q) && q[0] == u && q.last() == b);
    }

    proof fn lemma_reach_sym(&self, u: int, v: int)
        requires
            self.forest_reach(u, v),
        ensures
            self.forest_reach(v, u),
    {
        let p = choose|p: Seq<int>| #[trigger] self.forest_path(p) && p[0] == u && p.last() == v;
        let q = p.reverse();
        assert forall|i: int| 0 <= i < q.len() - 1 implies #[trigger] self.joins(q[i], q[i + 1]) by {
            let j = p.len() - 2 - i;
            assert(q[i] == p[j + 1] && q[i + 1] == p[j]);
            assert(self.joins(p[j], p[j + 1]));
            let k = choose|k: int|
                #![trigger self.ends_spec(k)]
                self.in_use(k) && ((self.ends_spec(k).0 as int == p[j] && self.ends_spec(k).1 as int == p[j + 1])
                    || (self.ends_spec(k).0 as int == p[j + 1] && self.ends_spec(k).1 as int == p[j]));
            assert(self.in_use(k));
        }
        assert(self.forest_path(q) && q[0] == v && q.last() == u);
    }

    proof fn lemma_reach_trans(&self, u: int, v: int, w: int)
        requires
            self.forest_reach(u, v),
            self.forest_reach(v, w),
        ensures
            self.forest_reach(u, w),
    {
        let p = choose|p: Seq<int>| #[trigger] self.forest_path(p) && p[0] == u && p.last() == v;
        let q = choose|q: Seq<int>| #[trigger] self.forest_path(q) && q[0] == v && q.last() == w;
        let r = p + q.drop_first();
        assert forall|i: int| 0 <= i < r.len() - 1 implies #[trigger] self.joins(r[i], r[i + 1]) by {
            if i < p.len() - 1 {
                assert(r[i] == p[i] && r[i + 1] == p[i + 1]);
            } else if i == p.len() - 1 {
                assert(r[i] == p.last());
                assert(r[i + 1] == q[1]);
                assert(self.joins(q[0], q[1]));
            } else {
                let j = i - p.len() + 1;
                assert(r[i] == q[j] && r[i + 1] == q[j + 1]);
            }
        }
        if q.len() == 1 {
            assert(r =~= p);
        } else {
            assert(r.last() == q.last());
        }
        assert(self.forest_path(r) && r[0] == u && r.last() == w);
    }

    /// The direction at position `k` of the tour in slot `t` belongs to an edge of the
    /// forest, which joins the vertex it leaves and the vertex it enters.
    proof fn lemma_dir_joins(&self, t: int, k: int)
        requires
            self.wf(),
            0 <= t < self.trees@.len(),
            0 <= k < self.tour_at(t).len(),
        ensures
            self.joins(self.sv(self.tour_at(t)[k] as int), tgt(self.ends@, self.tour_at(t)[k] as int)),
    {
        reveal(EulerTourTree::wf_tours);
        let tt = self.tour_at(t);
        let x = tt[k] as int;
        assert(self.trees@.len() == self.trees.len());
        assert((t as usize) as int == t);
        assert(placed_all(self.edges@, tt, t as usize) && tour(self.ends@, tt));
        assert(tt[k] < self.edges@.len() && self.edges@[x].spec_tree() == t as usize && self.edges@[x].spec_rank() == k);
        assert(self.placed(x));
        let i = x / 2;
        if x % 2 == 0 {
            assert(2 * i == x);
        } else {
            assert(has_pair(tt, k));
            reveal(has_pair);
            let j = choose|j: int| 0 <= j < tt.len() && tt[j] as int == pair_of(tt[k] as int);
            assert(tt[j] == x - 1);
            assert(tt[j] < self.edges@.len() && self.edges@[x - 1].spec_tree() == t as usize && self.edges@[x - 1].spec_rank() == j);
            assert(self.placed(x - 1));
            assert(2 * i == x - 1);
        }
        assert(self.in_use(i));
        assert(self.ends_spec(i) == self.ends@[i]);
    }

    /// Along the tour in slot `t`, the vertex left by the first direction reaches the vertex
    /// left by the direction at position `k`.
    proof fn lemma_tour_reach(&self, t: int, k: int)
        requires
            self.wf(),
            0 <= t < self.trees@.len(),
            0 <= k < self.tour_at(t).len(),
        ensures
            self.forest_reach(self.sv(self.tour_at(t)[0] as int), self.sv(self.tour_at(t)[k] as int)),
        decreases k,
    {
        let tt = self.tour_at(t);
        if k == 0 {
            self.lemma_reach_refl(self.sv(tt[0] as int));
        } else {
            self.lemma_tour_reach(t, k - 1);
            self.lemma_dir_joins(t, k - 1);
            reveal(EulerTourTree::wf_tours);
            assert(tour(self.ends@, tt));
            assert(tgt(self.ends@, tt[k - 1] as int) == src(self.ends@, tt[nxt(k - 1, tt.len() as int)] as int));
            assert(nxt(k - 1, tt.len() as int) == k);
            self.lemma_reach_push(self.sv(tt[0] as int), self.sv(tt[k - 1] as int), self.sv(tt[k] as int));
        }
    }

    /// An edge of the forest joins two connected vertices.
    proof fn lemma_joins_connected(&self, a: int, b: int)
        requires
            self.wf(),
            self.joins(a, b),
        ensures
            self.connected(a, b),
            0 <= a < self.num_vertices_spec(),
            0 <= b < self.num_vertices_spec(),
    {
        reveal(EulerTourTree::wf_tours);
        reveal(EulerTourTree::wf_owner);
        let k = choose|k: int|
            #![trigger self.ends_spec(k)]
            self.in_use(k) && ((self.ends_spec(k).0 as int == a && self.ends_spec(k).1 as int == b) || (
            self.ends_spec(k).0 as int == b && self.ends_spec(k).1 as int == a));
        let x = 2 * k;
        assert(self.placed(x));
        let t = self.edges@[x].spec_tree() as int;
        let r = self.edges@[x].spec_rank() as int;
        let tt = self.tour_at(t);
        assert(tt[r] == x);
        assert(tour(self.ends@, tt));
        assert(has_pair(tt, r));
        reveal(has_pair);
        let j = choose|j: int| 0 <= j < tt.len() && tt[j] as int == pair_of(tt[r] as int);
        assert(tt[j] == x + 1);
        assert(self.sv(x) == self.ends@[k].0);
        assert(self.sv(x + 1) == self.ends@[k].1);
    }

    /// Two vertices are connected exactly when a path of the forest's edges joins them: the
    /// forest that the tours keep is the forest of the linked edges.
    pub proof fn lemma_connected_iff_path(&self, u: int, v: int)
        requires
            self.wf(),
            0 <= u < self.num_vertices_spec(),
            0 <= v < self.num_vertices_spec(),
        ensures
            self.connected(u, v) <==> self.forest_reach(u, v),
    {
        if self.connected(u, v) {
            if u == v {
                self.lemma_reach_refl(u);
            } else {
                reveal(EulerTourTree::wf_active);
                reveal(EulerTourTree::wf_tours);
                let xu = self.active@[u]->0 as int;
                let xv = self.active@[v]->0 as int;
                assert(self.placed(xu) && self.sv(xu) == u);
                assert(self.placed(xv) && self.sv(xv) == v);
                let t = self.slot_of(xu);
                let ru = self.edges@[xu].spec_rank() as int;
                let rv = self.edges@[xv].spec_rank() as int;
                self.lemma_tour_reach(t, ru);
                self.lemma_tour_reach(t, rv);
                let s0 = self.sv(self.tour_at(t)[0] as int);
                self.lemma_reach_sym(s0, u);
                self.lemma_reach_trans(u, s0, v);
            }
        } else {
            if self.forest_reach(u, v) {
                let p = choose|p: Seq<int>| #[trigger] self.forest_path(p) && p[0] == u && p.last() == v;
                self.lemma_path_connected(p, p.len() - 1);
            }
        }
    }

    /// The first vertex of a path of the forest is connected to each of its vertices.
    proof fn lemma_path_connected(&self, p: Seq<int>, j: int)
        requires
            self.wf(),
            self.forest_path(p),
            0 <= p[0] < self.num_vertices_spec(),
            0 <= j < p.len(),
        ensures
            self.connected(p[0], p[j]),
        decreases j,
    {
        if j > 0 {
            self.lemma_path_connected(p, j - 1);
            let i = j - 1;
            assert(self.joins(p[i], p[i + 1]));
            self.lemma_joins_connected(p[j - 1], p[j]);
        }
    }
    /// Two forests on the same vertices with the same edges connect the same vertices.
    pub proof fn lemma_same_edges_same_trees(a: &Self, b: &Self)
        requires
            a.wf(),
            b.wf(),
            a.num_vertices_spec() == b.num_vertices_spec(),
            forall|k: int| #[trigger] a.in_use(k) <==> b.in_use(k),
            forall|k: int| a.in_use(k) ==> #[trigger] a.ends_spec(k) == b.ends_spec(k),
        ensures
            forall|x: int, y: int|
                0 <= x < a.num_vertices_spec() && 0 <= y < a.num_vertices_spec() ==> (#[trigger] a.connected(x, y)
                    <==> b.connected(x, y)),
    {
        assert forall|x: int, y: int| #[trigger] a.joins(x, y) <==> b.joins(x, y) by {
            if a.joins(x, y) {
                let k = choose|k: int|
                    #![trigger a.ends_spec(k)]
                    a.in_use(k) && ((a.ends_spec(k).0 as int == x && a.ends_spec(k).1 as int == y) || (
                    a.ends_spec(k).0 as int == y && a.ends_spec(k).1 as int == x));
                assert(b.in_use(k) && b.ends_spec(k) == a.ends_spec(k));
            }
            if b.joins(x, y) {
                let k = choose|k: int|
                    #![trigger b.ends_spec(k)]
                    b.in_use(k) && ((b.ends_spec(k).0 as int == x && b.ends_spec(k).1 as int == y) || (
                    b.ends_spec(k).0 as int == y && b.ends_spec(k).1 as int == x));
                assert(a.in_use(k) && b.ends_spec(k) == a.ends_spec(k));
            }
        }
        assert forall|p: Seq<int>| #[trigger] a.forest_path(p) <==> b.forest_path(p) by {
            if a.forest_path(p) {
                assert forall|i: int| 0 <= i < p.len() - 1 implies #[trigger] b.joins(p[i], p[i + 1]) by {
                    assert(a.joins(p[i], p[i + 1]));
                }
            }
            if b.forest_path(p) {
                assert forall|i: int| 0 <= i < p.len() - 1 implies #[trigger] a.joins(p[i], p[i + 1]) by {
                    assert(b.joins(p[i], p[i + 1]));
                }
            }
        }
        assert forall|x: int, y: int|
            0 <= x < a.num_vertices_spec() && 0 <= y < a.num_vertices_spec() implies (#[trigger] a.connected(x, y)
                <==> b.connected(x, y)) by {
            a.lemma_connected_iff_path(x, y);
            b.lemma_connected_iff_path(x, y);
            if a.forest_reach(x, y) {
                let p = choose|p: Seq<int>| #[trigger] a.forest_path(p) && p[0] == x && p.last() == y;
                assert(b.forest_path(p));
            }
            if b.forest_reach(x, y) {
                let p = choose|p: Seq<int>| #[trigger] b.forest_path(p) && p[0] == x && p.last() == y;
                assert(a.forest_path(p));
            }
        }
    }

    /// Cutting the edge that a link added gives back the trees from before the link.
    pub proof fn lemma_cut_undoes_link(t0: &Self, t1: &Self, t2: &Self, u: int, v: int, i: int)
        requires
            t0.wf(),
            t1.wf(),
            t2.wf(),
            Self::linked(t0, t1, u, v, i),
            Self::cut_apart(t1, t2, i),
        ensures
            forall|x: int, y: int|
                0 <= x < t0.num_vertices_spec() && 0 <= y < t0.num_vertices_spec() ==> (#[trigger] t2.connected(x, y)
                    <==> t0.connected(x, y)),
    {
        assert forall|k: int| #[trigger] t2.in_use(k) <==> t0.in_use(k) by {
            if k != i {
                assert(t2.in_use(k) == t1.in_use(k));
            }
        }
        assert forall|k: int| t2.in_use(k) implies #[trigger] t2.ends_spec(k) == t0.ends_spec(k) by {
            assert(t2.ends_spec(k) == t1.ends_spec(k));
            assert(t0.in_use(k));
        }
        Self::lemma_same_edges_same_trees(t2, t0);
    }
}

} // verus!
