//! A graph kept as a hash map from each vertex to the hash set of its out-neighbors; edges
//! and vertices can be added at any time.
use vstd::prelude::*;
use std::collections::{HashMap, HashSet};
use std::marker::PhantomData;
use vstd::std_specs::iter::IteratorSpec;

verus! {

broadcast use vstd::std_specs::hash::group_hash_axioms;

/// An edge of an adjacency-set graph, made from its two ends.
pub trait AdjSetEdge: Sized {
    /// The vertex the edge leaves.
    spec fn spec_source(&self) -> u32;

    /// The vertex the edge enters.
    spec fn spec_target(&self) -> u32;

    /// The edge from `u` to `v`.
    fn new(u: u32, v: u32) -> (e: Self)
        ensures
            e.spec_source() == u,
            e.spec_target() == v,
    ;

    fn source(&self) -> (r: u32)
        ensures
            r == self.spec_source(),
    ;

    fn target(&self) -> (r: u32)
        ensures
            r == self.spec_target(),
    ;
}

/// Whether the edges of a graph have a direction, and what they are made of.
pub trait AdjSetEdgeKind {
    type Edge: AdjSetEdge;

    /// An edge leaves and enters both of its ends.
    spec fn spec_is_undirected() -> bool;

    fn is_undirected() -> (r: bool)
        ensures
            r == Self::spec_is_undirected(),
    ;
}

/// An edge without direction: the same edge as the one with its ends swapped.
#[derive(Copy, Clone, Debug, Eq, PartialOrd, Ord)]
pub struct UndirectedEdge(pub u32, pub u32);

impl PartialEq for UndirectedEdge {
    fn eq(&self, other: &Self) -> (r: bool) {
        self.0 == other.0 && self.1 == other.1 || self.1 == other.0 && self.0 == other.1
    }
}

impl vstd::std_specs::cmp::PartialEqSpecImpl for UndirectedEdge {
    open spec fn obeys_eq_spec() -> bool {
        true
    }

    open spec fn eq_spec(&self, other: &Self) -> bool {
        self.0 == other.0 && self.1 == other.1 || self.1 == other.0 && self.0 == other.1
    }
}

impl AdjSetEdge for UndirectedEdge {
    open spec fn spec_source(&self) -> u32 {
        self.0
    }

    open spec fn spec_target(&self) -> u32 {
        self.1
    }

    fn new(u: u32, v: u32) -> (e: Self) {
        UndirectedEdge(u, v)
    }

    fn source(&self) -> (r: u32) {
        self.0
    }

    fn target(&self) -> (r: u32) {
        self.1
    }
}

/// A directed edge: its source and its target.
pub type DirectedEdge = (u32, u32);

impl AdjSetEdge for (u32, u32) {
    open spec fn spec_source(&self) -> u32 {
        self.0
    }

    open spec fn spec_target(&self) -> u32 {
        self.1
    }

    fn new(u: u32, v: u32) -> (e: Self) {
        (u, v)
    }

    fn source(&self) -> (r: u32) {
        self.0
    }

    fn target(&self) -> (r: u32) {
        self.1
    }
}

/// The kind of the graphs whose edges have no direction.
pub struct Undirected;

/// The kind of the graphs whose edges have a direction.
pub struct Directed;

impl AdjSetEdgeKind for Undirected {
    type Edge = UndirectedEdge;

    open spec fn spec_is_undirected() -> bool {
        true
    }

    fn is_undirected() -> (r: bool) {
        true
    }
}

impl AdjSetEdgeKind for Directed {
    type Edge = DirectedEdge;

    open spec fn spec_is_undirected() -> bool {
        false
    }

    fn is_undirected() -> (r: bool) {
        false
    }
}

/// The out-neighbors of `x` in `m`: none where `x` is not a vertex.
pub open spec fn nbrs(m: Map<u32, Set<u32>>, x: u32) -> Set<u32> {
    if m.contains_key(x) {
        m[x]
    } else {
        Set::empty()
    }
}

/// The edges of an adjacency map, each as its pair of ends; an undirected edge is counted
/// once, with its smaller end first.
pub open spec fn edge_pairs(m: Map<u32, Set<u32>>, undirected: bool) -> Set<(u32, u32)> {
    Set::new(|p: (u32, u32)| m.contains_key(p.0) && m[p.0].contains(p.1) && (!undirected || p.0 <= p.1))
}

/// The pair by which an edge from `u` to `v` is counted.
pub open spec fn pair_of(u: u32, v: u32, undirected: bool) -> (u32, u32) {
    if undirected && v < u {
        (v, u)
    } else {
        (u, v)
    }
}

/// The ends of each edge of `s`.
pub open spec fn ends_seq<E: AdjSetEdge>(s: Seq<E>) -> Seq<(u32, u32)> {
    s.map_values(|e: E| (e.spec_source(), e.spec_target()))
}

/// A graph kept as the set of out-neighbors of each vertex.
pub struct AdjSet<K: AdjSetEdgeKind> {
    adj: HashMap<u32, HashSet<u32>>,
    num_edges: usize,
    _marker: PhantomData<K>,
}

/// An adjacency-set graph whose edges have no direction.
pub type AdjSetGraph = AdjSet<Undirected>;

/// An adjacency-set graph whose edges have a direction.
pub type AdjSetDiGraph = AdjSet<Directed>;

impl<K: AdjSetEdgeKind> AdjSet<K> {
    /// The out-neighbors of each vertex.
    pub closed spec fn spec_adj(&self) -> Map<u32, Set<u32>> {
        self.adj@.map_values(|s: HashSet<u32>| s@)
    }

    /// The edges, each as its pair of ends.
    pub open spec fn spec_edges(&self) -> Set<(u32, u32)> {
        edge_pairs(self.spec_adj(), K::spec_is_undirected())
    }

    /// The number of edges.
    pub closed spec fn spec_num_edges(&self) -> nat {
        self.num_edges as nat
    }

    /// Every out-neighbor is a vertex, an undirected edge is seen from both ends, and the
    /// number of edges is kept.
    pub open spec fn wf(&self) -> bool {
        let m = self.spec_adj();
        &&& forall|u: u32, v: u32| m.contains_key(u) && #[trigger] m[u].contains(v) ==> m.contains_key(v)
        &&& K::spec_is_undirected() ==> forall|u: u32, v: u32|
            m.contains_key(u) && #[trigger] m[u].contains(v) ==> m[v].contains(u)
        &&& self.spec_edges().finite()
        &&& self.spec_edges().len() == self.spec_num_edges()
    }

    /// A graph without vertices.
    pub fn new() -> (g: Self)
        ensures
            g.wf(),
            g.spec_adj() == Map::<u32, Set<u32>>::empty(),
    {
        let g = AdjSet { adj: HashMap::new(), num_edges: 0, _marker: PhantomData };
        proof {
            assert(g.spec_adj() =~= Map::<u32, Set<u32>>::empty());
            assert(g.spec_edges() =~= Set::<(u32, u32)>::empty());
        }
        g
    }

    /// Adds `v` without neighbors, unless it is a vertex already.
    pub fn add_vertex(&mut self, v: u32)
        requires
            old(self).wf(),
        ensures
            final(self).wf(),
            final(self).spec_adj() == (if old(self).spec_adj().contains_key(v) {
                old(self).spec_adj()
            } else {
                old(self).spec_adj().insert(v, Set::empty())
            }),
            final(self).spec_num_edges() == old(self).spec_num_edges(),
    {
        if !self.adj.contains_key(&v) {
            self.adj.insert(v, HashSet::new());
            proof {
                assert(self.spec_adj() =~= old(self).spec_adj().insert(v, Set::empty()));
                assert(self.spec_edges() =~= old(self).spec_edges());
            }
        }
    }

    /// Whether an edge goes from `u` to `v`, and then that edge.
    pub fn edge_by_ends(&self, u: u32, v: u32) -> (r: Option<K::Edge>)
        ensures
            r is Some <==> self.spec_adj().contains_key(u) && self.spec_adj()[u].contains(v),
            r is Some ==> r->0.spec_source() == u && r->0.spec_target() == v,
    {
        match self.adj.get(&u) {
            Some(s) => {
                if s.contains(&v) {
                    Some(K::Edge::new(u, v))
                } else {
                    None
                }
            },
            None => None,
        }
    }

    /// Adds an edge from `u` to `v`, and the ends that are not vertices yet.
    pub fn add_edge(&mut self, u: u32, v: u32) -> (e: K::Edge)
        requires
            old(self).wf(),
            !(old(self).spec_adj().contains_key(u) && old(self).spec_adj()[u].contains(v)),
            old(self).spec_num_edges() < usize::MAX,
        ensures
            final(self).wf(),
            final(self).spec_adj().dom() == old(self).spec_adj().dom().insert(u).insert(v),
            forall|x: u32| #[trigger]
                final(self).spec_adj().contains_key(x) ==> final(self).spec_adj()[x] == nbrs(old(self).spec_adj(), x).union(
                    if x == u {
                        set![v]
                    } else {
                        Set::empty()
                    },
                ).union(
                    if K::spec_is_undirected() && x == v {
                        set![u]
                    } else {
                        Set::empty()
                    },
                ),
            final(self).spec_edges() == old(self).spec_edges().insert(pair_of(u, v, K::spec_is_undirected())),
            final(self).spec_num_edges() == old(self).spec_num_edges() + 1,
            final(self).spec_adj()[u].contains(v),
            K::spec_is_undirected() ==> final(self).spec_adj()[v].contains(u),
            e.spec_source() == u,
            e.spec_target() == v,
    {
        let ghost m0 = self.spec_adj();
        let ghost und = K::spec_is_undirected();
        let mut su = match self.adj.remove(&u) {
            Some(s) => s,
            None => HashSet::new(),
        };
        su.insert(v);
        self.adj.insert(u, su);
        if !self.adj.contains_key(&v) {
            self.adj.insert(v, HashSet::new());
        }
        if K::is_undirected() {
            let mut sv = match self.adj.remove(&v) {
                Some(s) => s,
                None => HashSet::new(),
            };
            sv.insert(u);
            self.adj.insert(v, sv);
        }
        self.num_edges = self.num_edges + 1;
        proof {
            let m = self.spec_adj();
            assert(m.dom() =~= m0.dom().insert(u).insert(v));
            assert forall|x: u32| #[trigger] m.contains_key(x) implies m[x] == nbrs(m0, x).union(
                if x == u {
                    set![v]
                } else {
                    Set::empty()
                },
            ).union(
                if und && x == v {
                    set![u]
                } else {
                    Set::empty()
                },
            ) by {
                assert(m[x] =~= nbrs(m0, x).union(
                    if x == u {
                        set![v]
                    } else {
                        Set::empty()
                    },
                ).union(
                    if und && x == v {
                        set![u]
                    } else {
                        Set::empty()
                    },
                ));
            }
            assert(self.spec_edges() =~= old(self).spec_edges().insert(pair_of(u, v, und)));
            assert(!old(self).spec_edges().contains(pair_of(u, v, und)));
        }
        K::Edge::new(u, v)
    }

    /// The number of vertices.
    pub fn num_vertices(&self) -> (r: usize)
        ensures
            r == self.spec_adj().dom().len(),
    {
        proof {
            assert(self.spec_adj().dom() =~= self.adj@.dom());
        }
        self.adj.len()
    }

    /// The number of edges.
    pub fn num_edges(&self) -> (r: usize)
        requires
            self.wf(),
        ensures
            r == self.spec_edges().len(),
    {
        self.num_edges
    }

    /// The number of out-neighbors of `v`.
    pub fn out_degree(&self, v: u32) -> (r: usize)
        requires
            self.spec_adj().contains_key(v),
        ensures
            r == self.spec_adj()[v].len(),
    {
        match self.adj.get(&v) {
            Some(s) => s.len(),
            None => 0,
        }
    }

    /// The vertices, each once, in no particular order.
    pub fn vertices(&self) -> (r: Vec<u32>)
        ensures
            r@.to_set() == self.spec_adj().dom(),
            r@.no_duplicates(),
    {
        let mut r: Vec<u32> = Vec::new();
        let ghost all = self.adj.keys().remaining();
        for x in it: self.adj.keys()
            invariant
                it.seq() == all,
                r@ == it.seq().unref().take(it.index()),
        {
            r.push(*x);
            proof {
                assert(r@ =~= it.seq().unref().take(it.index() + 1));
            }
        }
        proof {
            assert(r@ =~= all.unref());
            assert(self.spec_adj().dom() =~= self.adj@.dom());
        }
        r
    }

    /// The out-neighbors of `v`, each once, in no particular order.
    pub fn out_neighbors(&self, v: u32) -> (r: Vec<u32>)
        requires
            self.spec_adj().contains_key(v),
        ensures
            r@.to_set() == self.spec_adj()[v],
            r@.no_duplicates(),
    {
        let mut r: Vec<u32> = Vec::new();
        match self.adj.get(&v) {
            Some(s) => {
                let ghost all = s.iter().remaining();
                for x in it: s.iter()
                    invariant
                        it.seq() == all,
                        r@ == it.seq().unref().take(it.index()),
                {
                    r.push(*x);
                    proof {
                        assert(r@ =~= it.seq().unref().take(it.index() + 1));
                    }
                }
                proof {
                    assert(r@ =~= all.unref());
                }
            },
            None => {},
        }
        r
    }

    /// The edges that leave `v`, one for each out-neighbor, in no particular order.
    pub fn out_edges(&self, v: u32) -> (r: Vec<K::Edge>)
        requires
            self.spec_adj().contains_key(v),
        ensures
            forall|i: int| 0 <= i < r@.len() ==> (#[trigger] r@[i]).spec_source() == v,
            ends_seq(r@).no_duplicates(),
            ends_seq(r@).to_set() == self.spec_adj()[v].map(|t: u32| (v, t)),
    {
        let ns = self.out_neighbors(v);
        let mut r: Vec<K::Edge> = Vec::new();
        let mut i: usize = 0;
        while i < ns.len()
            invariant
                i <= ns@.len(),
                r@.len() == i,
                forall|k: int| 0 <= k < i ==> (#[trigger] r@[k]).spec_source() == v && r@[k].spec_target() == ns@[k],
            decreases ns@.len() - i,
        {
            r.push(K::Edge::new(v, ns[i]));
            i += 1;
        }
        proof {
            let e = ends_seq(r@);
            assert(e =~= ns@.map_values(|t: u32| (v, t)));
            assert forall|a: int, b: int| 0 <= a < e.len() && 0 <= b < e.len() && a != b implies e[a] != e[b] by {
                assert(ns@[a] != ns@[b]);
            }
            assert(e.to_set() =~= self.spec_adj()[v].map(|t: u32| (v, t))) by {
                assert forall|p: (u32, u32)| e.to_set().contains(p) implies self.spec_adj()[v].map(
                    |t: u32| (v, t),
                ).contains(p) by {
                    let a = choose|a: int| 0 <= a < e.len() && e[a] == p;
                    assert(ns@.to_set().contains(ns@[a]));
                }
                assert forall|p: (u32, u32)| self.spec_adj()[v].map(|t: u32| (v, t)).contains(p) implies e.to_set().contains(p) by {
                    let t = choose|t: u32| self.spec_adj()[v].contains(t) && (v, t) == p;
                    assert(ns@.to_set().contains(t));
                    let a = choose|a: int| 0 <= a < ns@.len() && ns@[a] == t;
                    assert(e[a] == p);
                }
            }
        }
        r
    }

    /// The source of `e`.
    pub fn source(&self, e: &K::Edge) -> (r: u32)
        ensures
            r == e.spec_source(),
    {
        e.source()
    }

    /// The target of `e`.
    pub fn target(&self, e: &K::Edge) -> (r: u32)
        ensures
            r == e.spec_target(),
    {
        e.target()
    }

    /// The edge with the ends of `e` swapped.
    pub fn get_reverse(&self, e: &K::Edge) -> (r: Option<K::Edge>)
        ensures
            r is Some,
            r->0.spec_source() == e.spec_target(),
            r->0.spec_target() == e.spec_source(),
    {
        Some(K::Edge::new(e.target(), e.source()))
    }

    /// The edges, each once, in no particular order; an undirected edge is given from its
    /// smaller end.
    pub fn edges(&self) -> (r: Vec<K::Edge>)
        ensures
            ends_seq(r@).no_duplicates(),
            ends_seq(r@).to_set() == self.spec_edges(),
    {
        let und = K::is_undirected();
        let mut r: Vec<K::Edge> = Vec::new();
        let ghost all = self.adj.iter().remaining();
        let ghost m = self.spec_adj();
        for kv in it: self.adj.iter()
            invariant
                it.seq() == all,
                all == self.adj.iter().remaining(),
                all.no_duplicates(),
                und == K::spec_is_undirected(),
                m == self.spec_adj(),
                ends_seq(r@).no_duplicates(),
                forall|p: (u32, u32)|
                    #![trigger ends_seq(r@).contains(p)]
                    ends_seq(r@).contains(p) <==> (self.spec_edges().contains(p) && exists|j: int|
                        0 <= j < it.index() && *all[j].0 == p.0),
        {
            let (k, s) = kv;
            let ghost i = it.index();
            let ghost inner = s.iter().remaining();
            proof {
                assert(all[i] == (k, s));
                assert(m.contains_key(*k) && m[*k] == s@);
                assert forall|j: int| 0 <= j < all.len() && j != i implies *all[j].0 != *k by {
                    if *all[j].0 == *k {
                        assert(all[j] == all[i]);
                    }
                }
            }
            for t in it2: s.iter()
                invariant
                    it2.seq() == inner,
                    inner == s.iter().remaining(),
                    inner.no_duplicates(),
                    und == K::spec_is_undirected(),
                    m == self.spec_adj(),
                    m.contains_key(*k),
                    m[*k] == s@,
                    *all[i].0 == *k,
                    0 <= i < all.len(),
                    forall|j: int| 0 <= j < all.len() && j != i ==> *all[j].0 != *k,
                    ends_seq(r@).no_duplicates(),
                    forall|p: (u32, u32)|
                        #![trigger ends_seq(r@).contains(p)]
                        ends_seq(r@).contains(p) <==> (self.spec_edges().contains(p) && ((exists|j: int|
                            0 <= j < i && *all[j].0 == p.0) || (p.0 == *k && exists|l: int|
                            0 <= l < it2.index() && *inner[l] == p.1))),
            {
                let ghost r0 = ends_seq(r@);
                let ghost l0 = it2.index();
                proof {
                    assert(*inner[l0] == *t);
                    assert(inner.unref().to_set().contains(*t)) by {
                        assert(inner.unref()[l0] == *t);
                    }
                }
                if !(und && *k > *t) {
                    r.push(K::Edge::new(*k, *t));
                    proof {
                        assert(ends_seq(r@) =~= r0.push((*k, *t)));
                        assert forall|a: int| 0 <= a < r0.len() implies r0[a] != (*k, *t) by {
                            let q = r0[a];
                            assert(r0.contains(q));
                            if q.0 == *k {
                                assert(!(exists|j: int| 0 <= j < i && *all[j].0 == q.0));
                                let l = choose|l: int| 0 <= l < l0 && *inner[l] == q.1;
                                assert(inner[l] != inner[l0]);
                            }
                        }
                        assert forall|p: (u32, u32)| #[trigger] ends_seq(r@).contains(p) <==> (self.spec_edges().contains(p) && ((exists|j: int|
                            0 <= j < i && *all[j].0 == p.0) || (p.0 == *k && exists|l: int|
                            0 <= l < l0 + 1 && *inner[l] == p.1))) by {
                            if p == (*k, *t) {
                                assert(ends_seq(r@)[r0.len() as int] == p);
                            } else {
                                if ends_seq(r@).contains(p) {
                                    let a = choose|a: int| 0 <= a < ends_seq(r@).len() && ends_seq(r@)[a] == p;
                                    assert(r0[a] == p);
                                    assert(r0.contains(p));
                                }
                                if r0.contains(p) {
                                    let a = choose|a: int| 0 <= a < r0.len() && r0[a] == p;
                                    assert(ends_seq(r@)[a] == p);
                                }
                            }
                        }
                    }
                } else {
                    proof {
                        assert(!self.spec_edges().contains((*k, *t)));
                    }
                }
            }
            proof {
                assert forall|p: (u32, u32)| #[trigger] ends_seq(r@).contains(p) <==> (self.spec_edges().contains(p) && exists|j: int|
                    0 <= j < i + 1 && *all[j].0 == p.0) by {
                    if self.spec_edges().contains(p) && p.0 == *k {
                        assert(s@.contains(p.1));
                        assert(inner.unref().to_set().contains(p.1));
                        let l = choose|l: int| 0 <= l < inner.len() && inner.unref()[l] == p.1;
                        assert(*inner[l] == p.1);
                    }
                }
            }
        }
        proof {
            let e = ends_seq(r@);
            assert forall|p: (u32, u32)| e.to_set().contains(p) <==> self.spec_edges().contains(p) by {
                if self.spec_edges().contains(p) {
                    assert(m.contains_key(p.0));
                    assert(self.adj@.contains_key(p.0));
                    assert(all.contains((&p.0, &self.adj@[p.0])));
                    let j = choose|j: int| 0 <= j < all.len() && all[j] == (&p.0, &self.adj@[p.0]);
                    assert(*all[j].0 == p.0);
                }
            }
            assert(e.to_set() =~= self.spec_edges());
        }
        r
    }
}

} // verus!
