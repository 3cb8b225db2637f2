//! The complete graph on the vertices `0..n`, kept as the number `n` alone.
use vstd::prelude::*;
use vstd::std_specs::cmp::PartialEqSpecImpl;

verus! {

/// The complete graph on `n` vertices.
#[derive(Clone, Copy, Debug)]
pub struct CompleteGraph(pub u32);

/// The edge between `u` and `v`, seen from `u`.
#[derive(Clone, Copy, Debug)]
pub struct CompleteEdge {
    pub u: u32,
    pub v: u32,
}

/// Builds the edge that stands for no edge.
#[derive(Clone, Copy, Debug)]
pub struct CompleteEdgeNone;

/// The index of each edge of a complete graph: its position in the order of `edges`.
#[derive(Clone, Copy, Debug)]
pub struct CompleteEdgeIndex(pub u32);

/// The number of edges of the complete graph on `n` vertices.
pub open spec fn num_pairs(n: int) -> int {
    (n * n - n) / 2
}

/// The position of the pair `u < v` in the order by `u`, then `v`, of all pairs of `0..n`.
pub open spec fn pair_index(n: int, u: int, v: int) -> int {
    u * (n - 1) - (u * u - u) / 2 + v - u - 1
}

impl PartialEq for CompleteEdge {
    fn eq(&self, other: &Self) -> (r: bool) {
        (self.u == other.u && self.v == other.v) || (self.u == other.v && self.v == other.u)
    }
}

impl PartialEqSpecImpl for CompleteEdge {
    open spec fn obeys_eq_spec() -> bool {
        true
    }

    open spec fn eq_spec(&self, other: &Self) -> bool {
        (self.u == other.u && self.v == other.v) || (self.u == other.v && self.v == other.u)
    }
}

impl CompleteEdge {
    /// The edge from `u` to `v`.
    pub fn new(u: u32, v: u32) -> (e: Self)
        requires
            u != v,
        ensures
            e.u == u,
            e.v == v,
    {
        CompleteEdge { u, v }
    }
}

impl CompleteEdgeNone {
    /// The edge that stands for no edge.
    pub fn none() -> (e: CompleteEdge)
        ensures
            e.u == u32::MAX,
            e.v == u32::MAX,
    {
        CompleteEdge { u: u32::MAX, v: u32::MAX }
    }
}

proof fn lemma_pair_index_next_row(n: int, u: int)
    requires
        0 <= u,
        u + 2 <= n,
    ensures
        pair_index(n, u + 1, u + 2) == pair_index(n, u, n - 1) + 1,
{
    assert((u + 1) * (n - 1) == u * (n - 1) + (n - 1)) by (nonlinear_arith);
    assert((u + 1) * (u + 1) - (u + 1) == (u * u - u) + 2 * u) by (nonlinear_arith);
    assert(((u * u - u) + 2 * u) / 2 == (u * u - u) / 2 + u) by {
        assert((u * u - u) % 2 == 0) by {
            lemma_even_product(u);
        }
    }
}

proof fn lemma_even_product(u: int)
    requires
        0 <= u,
    ensures
        (u * u - u) % 2 == 0,
    decreases u,
{
    if u > 0 {
        lemma_even_product(u - 1);
        assert(u * u - u == ((u - 1) * (u - 1) - (u - 1)) + 2 * (u - 1)) by (nonlinear_arith);
    }
}

proof fn lemma_num_pairs(n: int)
    requires
        n >= 2,
    ensures
        pair_index(n, n - 2, n - 1) + 1 == num_pairs(n),
        pair_index(n, 0, 1) == 0,
{
    let u = n - 2;
    assert(u * (n - 1) - (u * u - u) / 2 + 1 == (n * n - n) / 2) by {
        lemma_even_product(u);
        lemma_even_product(n);
        assert(u * (n - 1) == n * n - 3 * n + 2) by (nonlinear_arith)
            requires
                u == n - 2,
        ;
        assert(u * u - u == n * n - 5 * n + 6) by (nonlinear_arith)
            requires
                u == n - 2,
        ;
    }
}

/// A pair that comes before another, by first end then second end, has a smaller index.
proof fn lemma_pair_index_before(n: int, u: int, v: int, u2: int, v2: int)
    requires
        0 <= u < v < n,
        0 <= u2 < v2 < n,
        u < u2 || (u == u2 && v < v2),
    ensures
        pair_index(n, u, v) < pair_index(n, u2, v2),
    decreases u2 - u,
{
    if u < u2 {
        lemma_pair_index_next_row(n, u);
        if u + 1 < u2 || u + 2 < v2 {
            lemma_pair_index_before(n, u + 1, u + 2, u2, v2);
        }
    }
}

/// The pairs `u < v` of `0..n`, ordered by first end then second end, have the indices
/// `0..num_pairs(n)` in turn: the index of a pair is its position in that order.
pub proof fn law_pair_index_order(n: int, u: int, v: int, u2: int, v2: int)
    requires
        0 <= u < v < n,
        0 <= u2 < v2 < n,
    ensures
        0 <= pair_index(n, u, v) < num_pairs(n),
        (u < u2 || (u == u2 && v < v2)) ==> pair_index(n, u, v) < pair_index(n, u2, v2),
        pair_index(n, u, v) == pair_index(n, u2, v2) ==> u == u2 && v == v2,
{
    lemma_num_pairs(n);
    if u > 0 || v > 1 {
        lemma_pair_index_before(n, 0, 1, u, v);
    }
    if u < n - 2 || v < n - 1 {
        lemma_pair_index_before(n, u, v, n - 2, n - 1);
    }
    if u < u2 || (u == u2 && v < v2) {
        lemma_pair_index_before(n, u, v, u2, v2);
    }
    if u2 < u || (u == u2 && v2 < v) {
        lemma_pair_index_before(n, u2, v2, u, v);
    }
}

/// Every index `0 <= k < num_pairs(n)` is that of a pair `u < v` of `0..n`: with the order
/// law, the index is a bijection from the pairs, in their order, onto `0..num_pairs(n)`.
pub proof fn law_pair_index_onto(n: int, k: int) -> (p: (int, int))
    requires
        0 <= n,
        0 <= k < num_pairs(n),
    ensures
        0 <= p.0 < p.1 < n,
        pair_index(n, p.0, p.1) == k,
    decreases k,
{
    assert(n >= 2) by {
        if n < 2 {
            assert(n * n - n == 0) by (nonlinear_arith)
                requires
                    0 <= n < 2,
            ;
        }
    }
    lemma_num_pairs(n);
    if k == 0 {
        (0, 1)
    } else {
        let q = law_pair_index_onto(n, k - 1);
        let (u, v) = q;
        if v + 1 < n {
            (u, v + 1)
        } else {
            if u == n - 2 {
                assert(pair_index(n, u, v) == pair_index(n, n - 2, n - 1));
            }
            lemma_pair_index_next_row(n, u);
            (u + 1, u + 2)
        }
    }
}

impl CompleteEdgeIndex {
    /// The index of `e`, the same for both of its directions.
    pub fn get(&self, e: CompleteEdge) -> (r: usize)
        requires
            e.u != e.v,
            e.u < self.0,
            e.v < self.0,
            (self.0 as int) * (self.0 as int) <= usize::MAX,
        ensures
            e.u < e.v ==> r == pair_index(self.0 as int, e.u as int, e.v as int),
            e.v < e.u ==> r == pair_index(self.0 as int, e.v as int, e.u as int),
    {
        let n = self.0 as usize;
        let (u, v) = (e.u as usize, e.v as usize);
        proof {
            assert(u * (n - 1) <= n * n) by (nonlinear_arith)
                requires
                    u < n,
            ;
            assert(v * (n - 1) <= n * n) by (nonlinear_arith)
                requires
                    v < n,
            ;
            assert(u * u <= n * n) by (nonlinear_arith)
                requires
                    u < n,
            ;
            assert(v * v <= n * n) by (nonlinear_arith)
                requires
                    v < n,
            ;
            assert(u * u >= u) by (nonlinear_arith);
            assert(v * v >= v) by (nonlinear_arith);
            assert((u * u - u) / 2 <= u * (n - 1)) by (nonlinear_arith)
                requires
                    u < n,
            ;
            assert((v * v - v) / 2 <= v * (n - 1)) by (nonlinear_arith)
                requires
                    v < n,
            ;
            assert(u * (n - 1) + v <= n * n) by (nonlinear_arith)
                requires
                    u < n,
                    v < n,
            ;
            assert(v * (n - 1) + u <= n * n) by (nonlinear_arith)
                requires
                    u < n,
                    v < n,
            ;
        }
        if u < v {
            u * (n - 1) - (u * u - u) / 2 + v - u - 1
        } else {
            v * (n - 1) - (v * v - v) / 2 + u - v - 1
        }
    }
}

/// The edges of a complete graph, in order: by first end, then second end.
pub struct EdgesIter {
    n: u32,
    rem: usize,
    u: u32,
    v: u32,
}

impl EdgesIter {
    /// The number of edges left.
    pub closed spec fn spec_rem(&self) -> nat {
        self.rem as nat
    }

    /// The number of edges left.
    pub fn len(&self) -> (r: usize)
        ensures
            r == self.spec_rem(),
    {
        self.rem
    }

    /// The number of vertices of the graph.
    pub closed spec fn spec_n(&self) -> int {
        self.n as int
    }

    /// The iterator is consistent: the next pair is the one after those already given.
    pub closed spec fn wf(&self) -> bool {
        &&& (self.n as int) * (self.n as int) <= usize::MAX
        &&& self.rem <= num_pairs(self.n as int)
        &&& self.rem > 0 ==> self.u < self.v < self.n && pair_index(self.n as int, self.u as int, self.v as int)
            == num_pairs(self.n as int) - self.rem
    }

    /// The next edge, if any: the `k`-th edge is the pair of index `k`.
    pub fn next(&mut self) -> (r: Option<CompleteEdge>)
        requires
            old(self).wf(),
        ensures
            final(self).wf(),
            final(self).spec_n() == old(self).spec_n(),
            old(self).spec_rem() == 0 ==> r is None && final(self).spec_rem() == 0,
            old(self).spec_rem() > 0 ==> (r matches Some(e) && e.u < e.v < old(self).spec_n() && pair_index(
                old(self).spec_n(),
                e.u as int,
                e.v as int,
            ) == num_pairs(old(self).spec_n()) - old(self).spec_rem() && final(self).spec_rem() == old(self).spec_rem()
                - 1),
    {
        if self.rem == 0 {
            None
        } else {
            let e = CompleteEdge::new(self.u, self.v);
            let ghost (n, u, v) = (self.n as int, self.u as int, self.v as int);
            if self.v + 1 >= self.n {
                proof {
                    if self.rem > 1 {
                        assert(u + 3 <= n) by {
                            if u + 3 > n {
                                lemma_num_pairs(n);
                                assert(v == n - 1);
                                assert(u == n - 2);
                            }
                        }
                        lemma_pair_index_next_row(n, u);
                    }
                }
                self.u += 1;
                self.v = self.u + 1;
            } else {
                self.v += 1;
            }
            self.rem -= 1;
            Some(e)
        }
    }
}

/// The edges of a complete graph that leave `u`, in the order of their other end.
pub struct IncCompleteEdgeIter {
    rem: usize,
    u: u32,
    v: u32,
}

impl IncCompleteEdgeIter {
    /// The number of edges left.
    pub closed spec fn spec_rem(&self) -> nat {
        self.rem as nat
    }

    /// The vertex the edges leave.
    pub closed spec fn spec_u(&self) -> u32 {
        self.u
    }

    /// The least vertex not given yet.
    pub closed spec fn spec_v(&self) -> u32 {
        self.v
    }

    /// The number of vertices of the graph: the vertices given, those left, and `u`.
    pub closed spec fn spec_n(&self) -> int {
        self.v + self.rem + (if self.v <= self.u { 1int } else { 0int })
    }

    /// The iterator is consistent.
    pub closed spec fn wf(&self) -> bool {
        &&& self.u < self.spec_n()
        &&& self.spec_n() <= u32::MAX
    }

    /// The next edge, if any: from `u` to the least vertex other than `u` not given yet.
    pub fn next(&mut self) -> (r: Option<CompleteEdge>)
        requires
            old(self).wf(),
        ensures
            final(self).wf(),
            final(self).spec_n() == old(self).spec_n(),
            final(self).spec_u() == old(self).spec_u(),
            old(self).spec_rem() == 0 ==> r is None && final(self).spec_rem() == 0,
            old(self).spec_rem() > 0 ==> (r matches Some(e) && e.u == old(self).spec_u() && e.v == (if old(
                self,
            ).spec_v() == old(self).spec_u() {
                old(self).spec_v() + 1
            } else {
                old(self).spec_v() as int
            }) && final(self).spec_v() == e.v + 1 && final(self).spec_rem() == old(self).spec_rem() - 1),
    {
        if self.rem == 0 {
            None
        } else {
            if self.u == self.v {
                self.v += 1;
            }
            let e = CompleteEdge::new(self.u, self.v);
            self.v += 1;
            self.rem -= 1;
            Some(e)
        }
    }
}

impl CompleteGraph {
    /// The complete graph on `n` vertices.
    pub fn new(n: u32) -> (g: Self)
        ensures
            g.0 == n,
    {
        CompleteGraph(n)
    }

    /// The number of vertices.
    pub fn num_vertices(&self) -> (r: usize)
        ensures
            r == self.0,
    {
        self.0 as usize
    }

    /// The vertices, `0..n` in order.
    pub fn vertices(&self) -> (r: Vec<u32>)
        ensures
            r@ == Seq::new(self.0 as nat, |i: int| i as u32),
    {
        let n = self.0;
        let mut r: Vec<u32> = Vec::new();
        let mut i: u32 = 0;
        while i < n
            invariant
                i <= n,
                n == self.0,
                r@ == Seq::new(i as nat, |k: int| k as u32),
            decreases n - i,
        {
            r.push(i);
            i = i + 1;
        }
        r
    }

    /// The number of edges.
    pub fn num_edges(&self) -> (r: usize)
        requires
            (self.0 as int) * (self.0 as int) <= usize::MAX,
        ensures
            r == num_pairs(self.0 as int),
    {
        let n = self.0 as usize;
        proof {
            assert(n * n >= n) by (nonlinear_arith);
        }
        (n * n - n) / 2
    }

    /// The edges, by first end, then second end.
    pub fn edges(&self) -> (it: EdgesIter)
        requires
            (self.0 as int) * (self.0 as int) <= usize::MAX,
        ensures
            it.wf(),
            it.spec_n() == self.0,
            it.spec_rem() == num_pairs(self.0 as int),
    {
        let rem = self.num_edges();
        proof {
            if rem > 0 {
                assert(self.0 >= 2) by {
                    if self.0 < 2 {
                        assert(self.0 * self.0 - self.0 == 0) by (nonlinear_arith)
                            requires
                                self.0 < 2,
                        ;
                    }
                }
                lemma_num_pairs(self.0 as int);
            }
        }
        EdgesIter { n: self.0, rem, u: 0, v: 1 }
    }

    /// The source of `e`.
    pub fn source(&self, e: CompleteEdge) -> (r: u32)
        ensures
            r == e.u,
    {
        e.u
    }

    /// The target of `e`.
    pub fn target(&self, e: CompleteEdge) -> (r: u32)
        ensures
            r == e.v,
    {
        e.v
    }

    /// `e` the other way.
    pub fn reverse(&self, e: CompleteEdge) -> (r: CompleteEdge)
        requires
            e.u != e.v,
        ensures
            r.u == e.v,
            r.v == e.u,
    {
        CompleteEdge::new(e.v, e.u)
    }

    /// The number of neighbors of each vertex.
    pub fn degree(&self, v: u32) -> (r: usize)
        requires
            self.0 >= 1,
        ensures
            r == self.0 - 1,
    {
        self.num_vertices() - 1
    }

    /// The edges that leave `v`.
    pub fn inc_edges(&self, v: u32) -> (it: IncCompleteEdgeIter)
        requires
            v < self.0,
        ensures
            it.wf(),
            it.spec_n() == self.0,
            it.spec_u() == v,
            it.spec_v() == 0,
            it.spec_rem() == self.0 - 1,
    {
        IncCompleteEdgeIter { rem: self.degree(v), u: v, v: 0 }
    }

    /// The index of each edge.
    pub fn edge_index(&self) -> (r: CompleteEdgeIndex)
        ensures
            r.0 == self.0,
    {
        CompleteEdgeIndex(self.0)
    }

    /// The index of each vertex: the vertex itself.
    pub fn vertex_index(&self, v: u32) -> (r: usize)
        ensures
            r == v,
    {
        v as usize
    }
}

} // verus!
