//! Kruskal's algorithm: the edges, by increasing weight, that join two trees of the forest
//! built so far.
use vstd::prelude::*;
use crate::graph::{Static, index_of};
use crate::unionfind::UnionFind;
use crate::dfs::is_cycle;

verus! {

/// Whether an edge offered to the forest is taken.
#[derive(PartialEq, Eq, Structural, Clone, Copy, Debug)]
pub enum Accept {
    Yes,
    No,
}

/// Decides on the edges that would join two trees.
pub trait Visitor {
    /// The visitor takes every edge.
    open spec fn accepts_all(&self) -> bool {
        false
    }

    fn visit(&mut self, e: usize) -> (r: Accept)
        ensures
            old(self).accepts_all() ==> r == Accept::Yes && final(self).accepts_all(),
    ;
}

/// Takes every edge.
#[derive(PartialEq, Eq, Structural, Clone, Copy, Debug)]
pub struct AcceptAll;

impl Visitor for AcceptAll {
    open spec fn accepts_all(&self) -> bool {
        true
    }

    fn visit(&mut self, e: usize) -> (r: Accept) {
        Accept::Yes
    }
}

/// Makes the union-find structure of a run: one set for each vertex.
pub struct NewUnionFind;

impl NewUnionFind {
    /// One set for each vertex of `g`.
    pub fn build(&self, g: &Static) -> (ds: UnionFind)
        ensures
            ds.wf(),
            ds.len() == g.spec_num_vertices(),
            ds.count() == g.spec_num_vertices(),
            forall|i: int| 0 <= i < g.spec_num_vertices() ==> #[trigger] ds.rep(i) == i,
    {
        UnionFind::with_keys_in_range(g.num_vertices())
    }
}

/// The weight of the handle `e`: that of its edge.
pub open spec fn weight_of(g: &Static, w: Seq<u64>, e: int) -> u64 {
    w[index_of(g.spec_directed(), e)]
}

/// The handle `h` names one of the edges of `taken`.
pub open spec fn edge_in(g: &Static, taken: Seq<usize>, h: int) -> bool {
    exists|t: int| 0 <= t < taken.len() && index_of(g.spec_directed(), #[trigger] taken[t] as int) == index_of(g.spec_directed(), h)
}

/// `es` is a cycle of `g` along edges of `taken` only.
pub open spec fn cycle_in(g: &Static, es: Seq<usize>, taken: Seq<usize>) -> bool {
    is_cycle(g, es) && forall|i: int| 0 <= i < es.len() ==> edge_in(g, taken, #[trigger] es[i] as int)
}

/// The edges of `taken` form a forest: no cycle of `g` runs along them alone.
pub open spec fn forest_of(g: &Static, taken: Seq<usize>) -> bool {
    forall|es: Seq<usize>| !#[trigger] cycle_in(g, es, taken)
}

/// The position `j` steps after `p` around a cycle of `n` edges.
pub open spec fn around(p: int, j: int, n: int) -> int {
    if p + j < n {
        p + j
    } else {
        p + j - n
    }
}

/// Going around a cycle from the edge at `p`, when every other edge joins two vertices of
/// one set, the vertices met are in the set of the target of that edge.
proof fn lemma_around(g: &Static, ds: UnionFind, es: Seq<usize>, p: int, j: int)
    requires
        is_cycle(g, es),
        0 <= p < es.len(),
        0 <= j < es.len(),
        forall|i: int|
            0 <= i < es.len() && i != p ==> ds.same(g.spec_source(#[trigger] es[i] as int) as int, g.spec_target(es[i] as int) as int),
    ensures
        ds.same(g.spec_target(es[p] as int) as int, g.spec_target(es[around(p, j, es.len() as int)] as int) as int),
    decreases j,
{
    if j > 0 {
        let n = es.len() as int;
        lemma_around(g, ds, es, p, j - 1);
        let q = around(p, j - 1, n);
        let q2 = around(p, j, n);
        if q + 1 < n {
            assert(q2 == q + 1);
            assert(es[q] == es[q] && es[q + 1] == es[q + 1]);
        } else {
            assert(q2 == 0);
        }
        assert(g.spec_source(es[q2] as int) == g.spec_target(es[q] as int));
        assert(q2 != p);
        assert(ds.same(g.spec_source(es[q2] as int) as int, g.spec_target(es[q2] as int) as int));
    }
}

/// Adding an edge that joins two sets of a partition in which every edge of a forest stays
/// within one set keeps a forest: a cycle through it would lead back within one set.
pub proof fn lemma_forest_add(g: &Static, ds: UnionFind, taken: Seq<usize>, e: usize)
    requires
        g.wf(),
        forall|t: int|
            0 <= t < taken.len() ==> g.has_edge(#[trigger] taken[t] as int) && ds.same(
                g.spec_source(taken[t] as int) as int,
                g.spec_target(taken[t] as int) as int,
            ),
        forest_of(g, taken),
        g.has_edge(e as int),
        !ds.same(g.spec_source(e as int) as int, g.spec_target(e as int) as int),
    ensures
        forest_of(g, taken.push(e)),
{
    let t2 = taken.push(e);
    assert forall|es: Seq<usize>| !#[trigger] cycle_in(g, es, t2) by {
        if cycle_in(g, es, t2) {
            let n = es.len() as int;
            if forall|i: int| 0 <= i < n ==> edge_in(g, taken, #[trigger] es[i] as int) {
                assert(cycle_in(g, es, taken));
            } else {
                let p = choose|p: int| 0 <= p < n && !edge_in(g, taken, #[trigger] es[p] as int);
                let d = g.spec_directed();
                assert(edge_in(g, t2, es[p] as int));
                let tp = choose|t: int| 0 <= t < t2.len() && index_of(d, #[trigger] t2[t] as int) == index_of(d, es[p] as int);
                if tp < taken.len() {
                    assert(taken[tp] == t2[tp]);
                    assert(edge_in(g, taken, es[p] as int));
                }
                assert(t2[tp] == e);
                assert(g.has_edge(es[p] as int));
                g.lemma_same_index(es[p] as int, e as int);
                assert forall|i: int|
                    0 <= i < n && i != p implies ds.same(g.spec_source(#[trigger] es[i] as int) as int, g.spec_target(es[i] as int) as int) by {
                    assert(edge_in(g, t2, es[i] as int));
                    let ti = choose|t: int| 0 <= t < t2.len() && index_of(d, #[trigger] t2[t] as int) == index_of(d, es[i] as int);
                    if ti == taken.len() {
                        if i < p {
                            assert(index_of(d, es[i] as int) != index_of(d, es[p] as int));
                        } else {
                            assert(index_of(d, es[p] as int) != index_of(d, es[i] as int));
                        }
                    }
                    assert(t2[ti] == taken[ti]);
                    assert(g.has_edge(taken[ti] as int));
                    assert(g.has_edge(es[i] as int));
                    g.lemma_same_index(taken[ti] as int, es[i] as int);
                }
                lemma_around(g, ds, es, p, n - 1);
                let q = around(p, n - 1, n);
                if p > 0 {
                    assert(q == p - 1);
                    assert(es[p - 1] == es[p - 1] && es[p] == es[p]);
                } else {
                    assert(q == n - 1);
                }
                assert(g.spec_target(es[q] as int) == g.spec_source(es[p] as int));
            }
        }
    }
}

/// `conn` with the sets of `u` and `v` joined.
pub open spec fn join(conn: spec_fn(int, int) -> bool, u: int, v: int) -> spec_fn(int, int) -> bool {
    |a: int, b: int| conn(a, b) || (conn(a, u) && conn(b, v)) || (conn(a, v) && conn(b, u))
}

/// The edges that Kruskal's rule takes from `es[i..]`, when `conn` tells which vertices are
/// already joined and `c` trees are left: in turn, each edge whose ends are not joined yet is
/// taken and joins them, until one tree is left.
pub open spec fn greedy(g: &Static, es: Seq<usize>, i: int, c: int, conn: spec_fn(int, int) -> bool) -> Seq<usize>
    decreases es.len() - i,
{
    if i < 0 || i >= es.len() || c <= 1 {
        Seq::empty()
    } else {
        let u = g.spec_source(es[i] as int) as int;
        let v = g.spec_target(es[i] as int) as int;
        if conn(u, v) {
            greedy(g, es, i + 1, c, conn)
        } else {
            seq![es[i]] + greedy(g, es, i + 1, c - 1, join(conn, u, v))
        }
    }
}

/// The rule looks at `conn` only on the ends of the edges.
pub proof fn lemma_greedy_congruent(
    g: &Static,
    es: Seq<usize>,
    i: int,
    c: int,
    c1: spec_fn(int, int) -> bool,
    c2: spec_fn(int, int) -> bool,
    n: int,
)
    requires
        forall|k: int|
            0 <= k < es.len() ==> g.spec_source(#[trigger] es[k] as int) < n && g.spec_target(es[k] as int) < n,
        forall|a: int, b: int| 0 <= a < n && 0 <= b < n ==> #[trigger] c1(a, b) == c2(a, b),
    ensures
        greedy(g, es, i, c, c1) == greedy(g, es, i, c, c2),
    decreases es.len() - i,
{
    if !(i < 0 || i >= es.len() || c <= 1) {
        let u = g.spec_source(es[i] as int) as int;
        let v = g.spec_target(es[i] as int) as int;
        lemma_greedy_congruent(g, es, i + 1, c, c1, c2, n);
        lemma_greedy_congruent(g, es, i + 1, c - 1, join(c1, u, v), join(c2, u, v), n);
    }
}

/// Edges whose ends are joined already are passed over.
pub proof fn lemma_greedy_skip(g: &Static, es: Seq<usize>, i: int, j: int, c: int, conn: spec_fn(int, int) -> bool)
    requires
        0 <= i <= j <= es.len(),
        forall|k: int|
            i <= k < j ==> #[trigger] conn(g.spec_source(es[k] as int) as int, g.spec_target(es[k] as int) as int),
    ensures
        greedy(g, es, i, c, conn) == greedy(g, es, j, c, conn),
    decreases j - i,
{
    if i < j {
        assert(conn(g.spec_source(es[i] as int) as int, g.spec_target(es[i] as int) as int));
        lemma_greedy_skip(g, es, i + 1, j, c, conn);
    }
}

/// The edges of a run of Kruskal's algorithm, given one by one.
pub struct Iter<'a, V: Visitor> {
    g: &'a Static,
    edges: Vec<usize>,
    pos: usize,
    visitor: V,
    ds: UnionFind,
    num_sets: usize,
    taken: Ghost<Seq<usize>>,
}

impl<'a, V: Visitor> Iter<'a, V> {
    /// The edges to offer, in order.
    pub closed spec fn spec_edges(&self) -> Seq<usize> {
        self.edges@
    }

    /// How many edges were offered.
    pub closed spec fn spec_pos(&self) -> int {
        self.pos as int
    }

    /// The forest so far, as sets of vertices.
    pub closed spec fn spec_ds(&self) -> UnionFind {
        self.ds
    }

    /// The graph.
    pub closed spec fn spec_graph(&self) -> &'a Static {
        self.g
    }

    /// The visitor.
    pub closed spec fn spec_visitor(&self) -> V {
        self.visitor
    }

    /// The edges taken so far.
    pub closed spec fn spec_taken(&self) -> Seq<usize> {
        self.taken@
    }

    /// The edges taken so far form a forest.
    pub proof fn law_taken_forest(&self)
        requires
            self.wf(),
        ensures
            forest_of(self.spec_graph(), self.spec_taken()),
    {
    }

    /// The run is consistent.
    pub closed spec fn wf(&self) -> bool {
        &&& self.g.wf()
        &&& self.ds.wf()
        &&& self.ds.len() == self.g.spec_num_vertices()
        &&& self.num_sets == self.ds.count()
        &&& self.pos <= self.edges@.len()
        &&& forall|k: int| 0 <= k < self.edges@.len() ==> self.g.has_edge(#[trigger] self.edges@[k] as int)
        &&& forall|t: int|
            0 <= t < self.taken@.len() ==> self.g.has_edge(#[trigger] self.taken@[t] as int) && self.ds.same(
                self.g.spec_source(self.taken@[t] as int) as int,
                self.g.spec_target(self.taken@[t] as int) as int,
            )
        &&& forest_of(self.g, self.taken@)
    }

    /// The next edge of the forest: the first edge not offered yet whose ends are in
    /// different trees and that the visitor takes; its trees are joined. None once the forest
    /// has a single tree or the edges run out.
    pub fn next(&mut self) -> (r: Option<usize>)
        requires
            old(self).wf(),
        ensures
            final(self).wf(),
            final(self).spec_edges() == old(self).spec_edges(),
            final(self).spec_graph() == old(self).spec_graph(),
            old(self).spec_pos() <= final(self).spec_pos(),
            r matches Some(e) ==> final(self).spec_taken() == old(self).spec_taken().push(e),
            r is None ==> final(self).spec_taken() == old(self).spec_taken(),
            r matches Some(e) ==> {
                let g = old(self).spec_graph();
                let (u, v) = (g.spec_source(e as int) as int, g.spec_target(e as int) as int);
                &&& final(self).spec_pos() > old(self).spec_pos()
                &&& e == old(self).spec_edges()[final(self).spec_pos() - 1]
                &&& !old(self).spec_ds().same(u, v)
                &&& final(self).spec_ds().same(u, v)
                &&& forall|z: int, y: int|
                    0 <= z < g.spec_num_vertices() && 0 <= y < g.spec_num_vertices() ==> (#[trigger] final(self).spec_ds().same(z, y) <==> (old(self).spec_ds().same(z, y) || (old(self).spec_ds().same(z, u)
                        && old(self).spec_ds().same(y, v)) || (old(self).spec_ds().same(z, v)
                        && old(self).spec_ds().same(y, u))))
            },
            r is Some ==> final(self).spec_ds().count() + 1 == old(self).spec_ds().count(),
            r is Some ==> old(self).spec_ds().count() > 1,
            old(self).spec_visitor().accepts_all() ==> forall|k: int|
                old(self).spec_pos() <= k < final(self).spec_pos() - (if r is Some { 1int } else { 0int }) ==> {
                    let g = old(self).spec_graph();
                    let e = #[trigger] old(self).spec_edges()[k];
                    old(self).spec_ds().same(g.spec_source(e as int) as int, g.spec_target(e as int) as int)
                },
            r is None ==> forall|z: int, y: int|
                0 <= z < old(self).spec_graph().spec_num_vertices() && 0 <= y < old(self).spec_graph().spec_num_vertices() ==> (#[trigger] final(self).spec_ds().same(z, y)
                    <==> old(self).spec_ds().same(z, y)),
            r is None ==> final(self).spec_ds().count() == old(self).spec_ds().count() && (final(self).spec_pos()
                == final(self).spec_edges().len() || old(self).spec_ds().count() <= 1),
            old(self).spec_visitor().accepts_all() ==> final(self).spec_visitor().accepts_all() && forall|k: int|
                old(self).spec_pos() <= k < final(self).spec_pos() - (if r is Some { 1int } else { 0int }) ==> {
                    let g = old(self).spec_graph();
                    let e = #[trigger] old(self).spec_edges()[k];
                    final(self).spec_ds().same(g.spec_source(e as int) as int, g.spec_target(e as int) as int)
                },
    {
        let ghost s0 = *self;
        if self.num_sets > 1 {
            while self.pos < self.edges.len()
                invariant
                    s0 == *old(self),
                    s0.wf(),
                    s0.ds.count() > 1,
                    self.wf(),
                    self.edges@ == s0.edges@,
                    self.g == s0.g,
                    self.taken@ == s0.taken@,
                    s0.pos <= self.pos,
                    self.ds.count() == s0.ds.count(),
                    forall|z: int| 0 <= z < s0.ds.len() ==> #[trigger] self.ds.rep(z) == s0.ds.rep(z),
                    s0.visitor.accepts_all() ==> self.visitor.accepts_all() && forall|k: int|
                        s0.pos <= k < self.pos ==> {
                            let e = #[trigger] s0.edges@[k];
                            self.ds.same(self.g.spec_source(e as int) as int, self.g.spec_target(e as int) as int)
                        },
                    s0.visitor.accepts_all() ==> forall|k: int|
                        s0.pos <= k < self.pos ==> {
                            let e = #[trigger] s0.edges@[k];
                            s0.ds.same(self.g.spec_source(e as int) as int, self.g.spec_target(e as int) as int)
                        },
                decreases self.edges@.len() - self.pos,
            {
                let e = self.edges[self.pos];
                self.pos += 1;
                let (u, v) = self.g.ends(e);
                let ghost d0 = self.ds;
                assert forall|z: int| 0 <= z < s0.ds.len() implies #[trigger] d0.rep(z) == s0.ds.rep(z) by {
                }
                let same = self.ds.in_same_set(u, v);
                let ghost d1 = self.ds;
                proof {
                    assert forall|t: int| 0 <= t < self.taken@.len() implies self.g.has_edge(#[trigger] self.taken@[t] as int)
                        && d1.same(self.g.spec_source(self.taken@[t] as int) as int, self.g.spec_target(self.taken@[t] as int) as int) by {
                        let et = self.taken@[t];
                        self.g.lemma_target_range(et as int);
                        assert(d0.same(self.g.spec_source(et as int) as int, self.g.spec_target(et as int) as int));
                    }
                    if s0.visitor.accepts_all() {
                        assert forall|k: int| s0.pos <= k < self.pos - 1 implies ({
                            let e = #[trigger] s0.edges@[k];
                            d1.same(self.g.spec_source(e as int) as int, self.g.spec_target(e as int) as int)
                        }) by {
                            let ek = s0.edges@[k];
                            self.g.lemma_target_range(ek as int);
                            let a = self.g.spec_source(ek as int) as int;
                            let b = self.g.spec_target(ek as int) as int;
                            assert(d0.same(a, b));
                            assert(d1.rep(a) == d0.rep(a));
                            assert(d1.rep(b) == d0.rep(b));
                        }
                    }
                }
                if !same && self.visitor.visit(e) == Accept::Yes {
                    proof {
                        lemma_forest_add(self.g, d1, self.taken@, e);
                    }
                    self.ds.union(u, v);
                    self.num_sets -= 1;
                    let ghost t0 = self.taken@;
                    self.taken = Ghost(self.taken@.push(e));
                    proof {
                        assert forall|t: int| 0 <= t < self.taken@.len() implies self.g.has_edge(#[trigger] self.taken@[t] as int)
                            && self.ds.same(self.g.spec_source(self.taken@[t] as int) as int, self.g.spec_target(self.taken@[t] as int) as int) by {
                            let et = self.taken@[t];
                            if t < t0.len() {
                                assert(et == t0[t]);
                                self.g.lemma_target_range(et as int);
                                assert(d1.same(self.g.spec_source(et as int) as int, self.g.spec_target(et as int) as int));
                            }
                        }
                        assert forall|z: int, y: int|
                            0 <= z < self.g.spec_num_vertices() && 0 <= y < self.g.spec_num_vertices() implies (
                            #[trigger] self.ds.same(z, y) <==> (s0.ds.same(z, y) || (s0.ds.same(z, u as int)
                                && s0.ds.same(y, v as int)) || (s0.ds.same(z, v as int) && s0.ds.same(y, u as int)))) by {
                            assert(d0.rep(z) == s0.ds.rep(z));
                            assert(d0.rep(y) == s0.ds.rep(y));
                            assert(d0.rep(u as int) == s0.ds.rep(u as int));
                            assert(d0.rep(v as int) == s0.ds.rep(v as int));
                        }
                        if s0.visitor.accepts_all() {
                            assert forall|k: int| s0.pos <= k < self.pos - 1 implies ({
                                let e = #[trigger] s0.edges@[k];
                                self.ds.same(self.g.spec_source(e as int) as int, self.g.spec_target(e as int) as int)
                            }) by {
                                let ek = s0.edges@[k];
                                self.g.lemma_target_range(ek as int);
                                let a = self.g.spec_source(ek as int) as int;
                                let b = self.g.spec_target(ek as int) as int;
                                assert(d1.same(a, b));
                            }
                        }
                    }
                    return Some(e);
                }
                proof {
                    if s0.visitor.accepts_all() {
                        assert(same);
                        assert forall|k: int| s0.pos <= k < self.pos implies ({
                            let e = #[trigger] s0.edges@[k];
                            self.ds.same(self.g.spec_source(e as int) as int, self.g.spec_target(e as int) as int)
                        }) by {
                            if k == self.pos - 1 {
                                assert(s0.edges@[k] == e);
                            }
                        }
                    }
                }
            }
        }
        proof {
            assert forall|z: int, y: int|
                0 <= z < self.g.spec_num_vertices() && 0 <= y < self.g.spec_num_vertices() implies (
                #[trigger] self.ds.same(z, y) <==> s0.ds.same(z, y)) by {
                assert(self.ds.rep(z) == s0.ds.rep(z));
                assert(self.ds.rep(y) == s0.ds.rep(y));
            }
        }
        None
    }

    /// Takes the rest of the edges of the forest, in order: each joins two trees, so the
    /// number of trees goes down by the number of edges taken. When every edge is accepted,
    /// the ends of each edge not offered before end up in the same tree.
    pub fn into_vec(&mut self) -> (r: Vec<usize>)
        requires
            old(self).wf(),
        ensures
            final(self).wf(),
            final(self).spec_edges() == old(self).spec_edges(),
            final(self).spec_graph() == old(self).spec_graph(),
            final(self).spec_ds().count() + r@.len() == old(self).spec_ds().count(),
            final(self).spec_taken() == old(self).spec_taken() + r@,
            forall|i: int|
                0 <= i < r@.len() ==> old(self).spec_edges().subrange(old(self).spec_pos(), final(self).spec_pos()).contains(
                    #[trigger] r@[i],
                ),
            old(self).spec_visitor().accepts_all() ==> forall|k: int|
                old(self).spec_pos() <= k < old(self).spec_edges().len() ==> {
                    let g = old(self).spec_graph();
                    let e = #[trigger] old(self).spec_edges()[k];
                    final(self).spec_ds().same(g.spec_source(e as int) as int, g.spec_target(e as int) as int)
                },
            old(self).spec_visitor().accepts_all() ==> r@ == greedy(
                old(self).spec_graph(),
                old(self).spec_edges(),
                old(self).spec_pos(),
                old(self).spec_ds().count() as int,
                |a: int, b: int| old(self).spec_ds().same(a, b),
            ),
    {
        let ghost s0 = *self;
        let mut r: Vec<usize> = Vec::new();
        let ghost n = self.edges@.len();
        while self.pos < self.edges.len() && self.num_sets > 1
            invariant
                self.wf(),
                s0.wf(),
                n == s0.edges@.len(),
                self.edges@ == s0.edges@,
                self.g == s0.g,
                s0.pos <= self.pos,
                self.ds.count() + r@.len() == s0.ds.count(),
                self.taken@ == s0.taken@ + r@,
                forall|i: int| 0 <= i < r@.len() ==> s0.edges@.subrange(s0.pos as int, self.pos as int).contains(#[trigger] r@[i]),
                s0.visitor.accepts_all() ==> self.visitor.accepts_all() && forall|k: int|
                    s0.pos <= k < self.pos ==> {
                        let e = #[trigger] s0.edges@[k];
                        self.ds.same(s0.g.spec_source(e as int) as int, s0.g.spec_target(e as int) as int)
                    },
                s0.visitor.accepts_all() ==> r@ + greedy(
                    s0.g,
                    s0.edges@,
                    self.pos as int,
                    self.ds.count() as int,
                    |a: int, b: int| self.ds.same(a, b),
                ) == greedy(s0.g, s0.edges@, s0.pos as int, s0.ds.count() as int, |a: int, b: int| s0.ds.same(a, b)),
            ensures
                self.pos == self.edges@.len() || self.ds.count() <= 1,
            decreases n - self.pos,
        {
            let ghost s1 = *self;
            match self.next() {
                Some(e) => {
                    proof {
                        let p1 = self.pos as int;
                        assert forall|i: int| 0 <= i < r@.len() implies s0.edges@.subrange(s0.pos as int, p1).contains(
                            #[trigger] r@[i],
                        ) by {
                            let j = choose|j: int| 0 <= j < s1.pos - s0.pos && s0.edges@.subrange(s0.pos as int, s1.pos as int)[j] == r@[i];
                            assert(s0.edges@.subrange(s0.pos as int, p1)[j] == r@[i]);
                        }
                        assert(s0.edges@.subrange(s0.pos as int, p1)[p1 - 1 - s0.pos] == e);
                        if s0.visitor.accepts_all() {
                            assert forall|k: int| s0.pos <= k < self.pos implies {
                                let e = #[trigger] s0.edges@[k];
                                self.ds.same(s0.g.spec_source(e as int) as int, s0.g.spec_target(e as int) as int)
                            } by {
                                let ek = s0.edges@[k];
                                s0.g.lemma_target_range(ek as int);
                                if k < s1.pos {
                                    assert(s1.ds.same(s0.g.spec_source(ek as int) as int, s0.g.spec_target(ek as int) as int));
                                }
                            }
                        }
                    }
                    proof {
                        if s0.visitor.accepts_all() {
                            let g = s0.g;
                            let es = s0.edges@;
                            let nv = g.spec_num_vertices() as int;
                            let c1 = s1.ds.count() as int;
                            let conn1 = |a: int, b: int| s1.ds.same(a, b);
                            let conn2 = |a: int, b: int| self.ds.same(a, b);
                            let q = self.pos - 1;
                            let u = g.spec_source(e as int) as int;
                            let v = g.spec_target(e as int) as int;
                            assert forall|k: int|
                                0 <= k < es.len() implies g.spec_source(#[trigger] es[k] as int) < nv && g.spec_target(
                                es[k] as int,
                            ) < nv by {
                                g.lemma_target_range(es[k] as int);
                            }
                            assert forall|k: int| s1.pos <= k < q implies #[trigger] conn1(
                                g.spec_source(es[k] as int) as int,
                                g.spec_target(es[k] as int) as int,
                            ) by {
                                assert(s1.ds.same(g.spec_source(es[k] as int) as int, g.spec_target(es[k] as int) as int));
                            }
                            lemma_greedy_skip(g, es, s1.pos as int, q, c1, conn1);
                            assert(es[q] == e);
                            assert(!conn1(u, v));
                            assert(greedy(g, es, q, c1, conn1) == seq![e] + greedy(g, es, q + 1, c1 - 1, join(conn1, u, v)));
                            assert forall|a: int, b: int| 0 <= a < nv && 0 <= b < nv implies #[trigger] join(conn1, u, v)(a, b) == conn2(
                                a,
                                b,
                            ) by {
                                assert(self.ds.same(a, b) <==> (s1.ds.same(a, b) || (s1.ds.same(a, u) && s1.ds.same(b, v))
                                    || (s1.ds.same(a, v) && s1.ds.same(b, u))));
                            }
                            lemma_greedy_congruent(g, es, q + 1, c1 - 1, join(conn1, u, v), conn2, nv);
                        }
                    }
                    let ghost r1 = r@;
                    r.push(e);
                    proof {
                        if s0.visitor.accepts_all() {
                            let g = s0.g;
                            let es = s0.edges@;
                            let rest = greedy(g, es, self.pos as int, self.ds.count() as int, |a: int, b: int| self.ds.same(a, b));
                            assert(r@ + rest =~= r1 + (seq![e] + rest));
                        }
                        assert(self.taken@ =~= s0.taken@ + r@);
                        assert forall|i: int| 0 <= i < r@.len() implies s0.edges@.subrange(s0.pos as int, self.pos as int).contains(
                            #[trigger] r@[i],
                        ) by {
                            if i < r@.len() - 1 {
                                assert(r@[i] == r@.drop_last()[i]);
                            }
                        }
                    }
                },
                None => {
                    proof {
                        if s0.visitor.accepts_all() {
                            let g = s0.g;
                            let es = s0.edges@;
                            let c1 = s1.ds.count() as int;
                            let conn1 = |a: int, b: int| s1.ds.same(a, b);
                            if self.pos == es.len() && c1 > 1 {
                                assert forall|k: int| s1.pos <= k < es.len() implies #[trigger] conn1(
                                    g.spec_source(es[k] as int) as int,
                                    g.spec_target(es[k] as int) as int,
                                ) by {
                                    assert(s1.ds.same(g.spec_source(es[k] as int) as int, g.spec_target(es[k] as int) as int));
                                }
                                lemma_greedy_skip(g, es, s1.pos as int, es.len() as int, c1, conn1);
                            }
                            assert(greedy(g, es, s1.pos as int, c1, conn1) =~= Seq::<usize>::empty());
                            assert(greedy(g, es, self.pos as int, self.ds.count() as int, |a: int, b: int| self.ds.same(a, b))
                                =~= Seq::<usize>::empty());
                            assert(r@ + Seq::<usize>::empty() =~= r@);
                            assert forall|k: int| s0.pos <= k < self.pos implies {
                                let e = #[trigger] s0.edges@[k];
                                self.ds.same(s0.g.spec_source(e as int) as int, s0.g.spec_target(e as int) as int)
                            } by {
                                let ek = s0.edges@[k];
                                s0.g.lemma_target_range(ek as int);
                                if k < s1.pos {
                                    assert(s1.ds.same(s0.g.spec_source(ek as int) as int, s0.g.spec_target(ek as int) as int));
                                }
                            }
                        }
                        assert forall|i: int| 0 <= i < r@.len() implies s0.edges@.subrange(s0.pos as int, self.pos as int).contains(
                            #[trigger] r@[i],
                        ) by {
                            let j = choose|j: int| 0 <= j < s1.pos - s0.pos && s0.edges@.subrange(s0.pos as int, s1.pos as int)[j] == r@[i];
                            assert(s0.edges@.subrange(s0.pos as int, self.pos as int)[j] == r@[i]);
                        }
                    }
                    break;
                },
            }
        }
        proof {
            if s0.visitor.accepts_all() && self.pos < self.edges@.len() {
                assert(self.ds.count() <= 1);
                assert forall|k: int| self.pos <= k < s0.edges@.len() implies {
                    let e = #[trigger] s0.edges@[k];
                    self.ds.same(s0.g.spec_source(e as int) as int, s0.g.spec_target(e as int) as int)
                } by {
                    let ek = s0.edges@[k];
                    s0.g.lemma_target_range(ek as int);
                    self.ds.law_at_most_one_set(s0.g.spec_source(ek as int) as int, s0.g.spec_target(ek as int) as int);
                }
            }
        }
        r
    }
}

/// `a` comes before `b` by weight, then by the index of its edge.
pub open spec fn weight_before(g: &Static, w: Seq<u64>, a: int, b: int) -> bool {
    weight_of(g, w, a) < weight_of(g, w, b) || (weight_of(g, w, a) == weight_of(g, w, b) && index_of(
        g.spec_directed(),
        a,
    ) < index_of(g.spec_directed(), b))
}

/// Sorts the edges by weight, keeping the order of edges of equal weight: given the edges by
/// increasing index, edges of equal weight stay by increasing index.
fn sort_by_weight(g: &Static, weight: &Vec<u64>, edges: &mut Vec<usize>)
    requires
        g.wf(),
        forall|k: int| 0 <= k < old(edges)@.len() ==> g.has_edge(#[trigger] old(edges)@[k] as int),
        forall|a: int, b: int|
            0 <= a < b < old(edges)@.len() ==> index_of(g.spec_directed(), #[trigger] old(edges)@[a] as int) < index_of(
                g.spec_directed(),
                #[trigger] old(edges)@[b] as int,
            ),
        weight@.len() == g.spec_num_edges(),
    ensures
        final(edges)@.to_multiset() == old(edges)@.to_multiset(),
        final(edges)@.len() == old(edges)@.len(),
        forall|k: int| 0 <= k < final(edges)@.len() ==> g.has_edge(#[trigger] final(edges)@[k] as int),
        forall|i: int, j: int|
            0 <= i < j < final(edges)@.len() ==> weight_before(g, weight@, #[trigger] final(edges)@[i] as int, #[trigger] final(edges)@[j] as int),
{
    let n = edges.len();
    if n == 0 {
        return;
    }
    proof {
        g.lemma_edge_index_range();
    }
    let ghost e0 = edges@;
    let mut i: usize = 1;
    while i < n
        invariant
            g.wf(),
            weight@.len() == g.spec_num_edges(),
            forall|h: int| #[trigger] g.has_edge(h) ==> 0 <= index_of(g.spec_directed(), h) < g.spec_num_edges(),
            1 <= i <= n,
            n == edges@.len(),
            e0 == old(edges)@,
            forall|a: int, b: int|
                0 <= a < b < n ==> index_of(g.spec_directed(), #[trigger] e0[a] as int) < index_of(g.spec_directed(), #[trigger] e0[b] as int),
            edges@.to_multiset() == e0.to_multiset(),
            forall|k: int| 0 <= k < edges@.len() ==> g.has_edge(#[trigger] edges@[k] as int),
            forall|k: int| i <= k < n ==> #[trigger] edges@[k] == e0[k],
            forall|a: int, k: int|
                0 <= a < i <= k < n ==> index_of(g.spec_directed(), #[trigger] edges@[a] as int) < index_of(
                    g.spec_directed(),
                    #[trigger] e0[k] as int,
                ),
            forall|a: int, b: int| 0 <= a < b < i ==> weight_before(g, weight@, #[trigger] edges@[a] as int, #[trigger] edges@[b] as int),
        decreases n - i,
    {
        let ghost x = edges@[i as int];
        let ghost s_start = edges@;
        let mut j: usize = i;
        while j > 0 && weight[g.edge_index(edges[j])] < weight[g.edge_index(edges[j - 1])]
            invariant
                g.wf(),
                weight@.len() == g.spec_num_edges(),
                forall|h: int| #[trigger] g.has_edge(h) ==> 0 <= index_of(g.spec_directed(), h) < g.spec_num_edges(),
                0 <= j <= i < n,
                n == edges@.len(),
                edges@.to_multiset() == e0.to_multiset(),
                forall|k: int| 0 <= k < edges@.len() ==> g.has_edge(#[trigger] edges@[k] as int),
                x == e0[i as int],
                edges@[j as int] == x,
                forall|k: int| i < k < n ==> #[trigger] edges@[k] == e0[k],
                forall|a: int|
                    0 <= a <= i && a != j ==> index_of(g.spec_directed(), #[trigger] edges@[a] as int) < index_of(
                        g.spec_directed(),
                        x as int,
                    ),
                forall|a: int, k: int|
                    0 <= a <= i < k < n ==> index_of(g.spec_directed(), #[trigger] edges@[a] as int) < index_of(
                        g.spec_directed(),
                        #[trigger] e0[k] as int,
                    ),
                forall|a: int, b: int|
                    0 <= a < b <= i && a != j && b != j ==> weight_before(g, weight@, #[trigger] edges@[a] as int, #[trigger] edges@[b] as int),
                forall|k: int| j < k <= i ==> weight_of(g, weight@, x as int) < weight_of(g, weight@, #[trigger] edges@[k] as int),
            decreases j,
        {
            let xe = edges[j];
            let y = edges[j - 1];
            let ghost s0 = edges@;
            edges.set(j, y);
            edges.set(j - 1, xe);
            proof {
                let s1 = s0.update(j as int, y);
                vstd::seq_lib::to_multiset_update(s0, j as int, y);
                vstd::seq_lib::to_multiset_update(s1, j - 1, x);
                assert(edges@ == s1.update(j - 1, x));
                assert(s1[j - 1] == y);
                assert(s0[j as int] == x);
                assert(edges@.to_multiset() =~= s0.to_multiset()) by {
                    broadcast use vstd::multiset::group_multiset_axioms;
                    broadcast use vstd::multiset::group_multiset_properties;
                    broadcast use vstd::seq_lib::to_multiset_contains;
                    assert(s0.contains(x));
                    assert(s1.contains(y));
                    assert(s1.to_multiset() == s0.to_multiset().insert(y).remove(x));
                    assert(edges@.to_multiset() == s1.to_multiset().insert(x).remove(y));
                    assert forall|v: usize| edges@.to_multiset().count(v) == s0.to_multiset().count(v) by {
                    }
                }
                assert forall|k: int| 0 <= k < edges@.len() implies g.has_edge(#[trigger] edges@[k] as int) by {
                    if k == j {
                        assert(g.has_edge(s0[j - 1] as int));
                    } else if k == j - 1 {
                        assert(g.has_edge(s0[j as int] as int));
                    } else {
                        assert(edges@[k] == s0[k]);
                    }
                }
                assert forall|a: int| 0 <= a <= i && a != j - 1 implies index_of(g.spec_directed(), #[trigger] edges@[a] as int)
                    < index_of(g.spec_directed(), x as int) by {
                    if a == j {
                        assert(edges@[a] == s0[j - 1]);
                    } else {
                        assert(edges@[a] == s0[a]);
                    }
                }
                assert forall|a: int, k: int| 0 <= a <= i < k < n implies index_of(g.spec_directed(), #[trigger] edges@[a] as int)
                    < index_of(g.spec_directed(), #[trigger] e0[k] as int) by {
                    if a == j {
                        assert(edges@[a] == s0[j - 1]);
                        assert(index_of(g.spec_directed(), s0[j - 1] as int) < index_of(g.spec_directed(), e0[k] as int));
                    } else if a == j - 1 {
                        assert(edges@[a] == s0[j as int]);
                        assert(index_of(g.spec_directed(), s0[j as int] as int) < index_of(g.spec_directed(), e0[k] as int));
                    } else {
                        assert(edges@[a] == s0[a]);
                    }
                }
                assert forall|k: int| j - 1 < k <= i implies weight_of(g, weight@, x as int) < weight_of(
                    g,
                    weight@,
                    #[trigger] edges@[k] as int,
                ) by {
                    if k > j {
                        assert(edges@[k] == s0[k]);
                    }
                }
                assert forall|a: int, b: int|
                    0 <= a < b <= i && a != j - 1 && b != j - 1 implies weight_before(g, weight@, #[trigger] edges@[a] as int, #[trigger] edges@[b] as int) by {
                    if a == j {
                        assert(edges@[a] == s0[j - 1]);
                        assert(edges@[b] == s0[b]);
                    } else if b == j {
                        assert(edges@[b] == s0[j - 1]);
                        assert(edges@[a] == s0[a]);
                    } else {
                        assert(edges@[a] == s0[a]);
                        assert(edges@[b] == s0[b]);
                    }
                }
                assert forall|k: int| i < k < n implies #[trigger] edges@[k] == e0[k] by {
                    assert(edges@[k] == s0[k]);
                }
            }
            j -= 1;
        }
        proof {
            assert forall|a: int, b: int| 0 <= a < b < i + 1 implies weight_before(g, weight@, #[trigger] edges@[a] as int, #[trigger] edges@[b] as int) by {
                if b == j && a < j {
                    assert(weight_of(g, weight@, edges@[j - 1] as int) <= weight_of(g, weight@, x as int));
                    assert(index_of(g.spec_directed(), edges@[j - 1] as int) < index_of(g.spec_directed(), x as int));
                    assert(index_of(g.spec_directed(), edges@[a] as int) < index_of(g.spec_directed(), x as int));
                    if a < j - 1 {
                        assert(weight_before(g, weight@, edges@[a] as int, edges@[j - 1] as int));
                    }
                } else if a == j && b > j {
                    assert(weight_of(g, weight@, x as int) < weight_of(g, weight@, edges@[b] as int));
                }
            }
            assert forall|k: int| i + 1 <= k < n implies #[trigger] edges@[k] == e0[k] by {
            }
            assert forall|a: int, k: int| 0 <= a < i + 1 <= k < n implies index_of(g.spec_directed(), #[trigger] edges@[a] as int)
                < index_of(g.spec_directed(), #[trigger] e0[k] as int) by {
            }
        }
        i += 1;
    }
}

/// The edges of a minimum spanning forest of `g`, by Kruskal's algorithm: the edges of `g`,
/// sorted by weight (equal weights in the order of `g`), offered in turn.
pub fn kruskal_mst<'a>(g: &'a Static, weight: &Vec<u64>) -> (it: Iter<'a, AcceptAll>)
    requires
        g.wf(),
        weight@.len() == g.spec_num_edges(),
    ensures
        it.wf(),
        it.spec_graph() == g,
        it.spec_pos() == 0,
        it.spec_edges().to_multiset() == g.spec_edge_list().to_multiset(),
        forall|i: int, j: int|
            0 <= i < j < it.spec_edges().len() ==> weight_before(g, weight@, #[trigger] it.spec_edges()[i] as int, #[trigger] it.spec_edges()[j] as int),
        forall|z: int| 0 <= z < g.spec_num_vertices() ==> #[trigger] it.spec_ds().rep(z) == z,
        it.spec_visitor().accepts_all(),
        it.spec_taken() == Seq::<usize>::empty(),
{
    let mut edges = g.edges();
    proof {
        g.lemma_edge_list();
        assert forall|k: int| 0 <= k < edges@.len() implies g.has_edge(#[trigger] edges@[k] as int) by {
        }
    }
    sort_by_weight(g, weight, &mut edges);
    let ds = NewUnionFind.build(g);
    let num_sets = g.num_vertices();
    Iter { g, edges, pos: 0, visitor: AcceptAll, ds, num_sets, taken: Ghost(Seq::empty()) }
}

} // verus!
