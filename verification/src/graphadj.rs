//! A graph kept as the list of its edges and, for each vertex, the list of its neighbors,
//! with a depth-first search over the neighbors.
use vstd::prelude::*;

verus! {

/// The neighbor lists of a graph on `n` vertices with the first `m` edges of `sources` and
/// `targets`: each edge adds each end to the list of the other.
pub open spec fn adj_of(n: nat, sources: Seq<usize>, targets: Seq<usize>, m: int) -> Seq<Seq<usize>>
    decreases m,
{
    if m <= 0 {
        Seq::new(n, |i: int| Seq::<usize>::empty())
    } else {
        let a = adj_of(n, sources, targets, m - 1);
        let u = sources[m - 1] as int;
        let v = targets[m - 1] as int;
        let b = a.update(u, a[u].push(v as usize));
        b.update(v, b[v].push(u as usize))
    }
}

/// `s` is a walk of the neighbor lists: each vertex has the next one as a neighbor.
pub open spec fn is_adj_walk(adj: Seq<Seq<usize>>, s: Seq<usize>) -> bool {
    &&& s.len() > 0
    &&& forall|i: int| 0 <= i < s.len() - 1 ==> #[trigger] adj[s[i] as int].contains(s[i + 1])
}

/// Some walk of the neighbor lists goes from `u` to `v`.
pub open spec fn adj_reach(adj: Seq<Seq<usize>>, u: int, v: int) -> bool {
    exists|s: Seq<usize>| #[trigger] is_adj_walk(adj, s) && s[0] == u && s.last() == v
}

/// A graph with the vertices `0..n` and a list of edges.
pub struct StaticGraph {
    num_vertices: usize,
    sources: Vec<usize>,
    targets: Vec<usize>,
    adj: Vec<Vec<usize>>,
}

impl StaticGraph {
    pub closed spec fn spec_num_vertices(&self) -> nat {
        self.num_vertices as nat
    }

    pub closed spec fn spec_sources(&self) -> Seq<usize> {
        self.sources@
    }

    pub closed spec fn spec_targets(&self) -> Seq<usize> {
        self.targets@
    }

    /// The neighbors of each vertex.
    pub closed spec fn spec_adj(&self) -> Seq<Seq<usize>> {
        self.adj@.map_values(|l: Vec<usize>| l@)
    }

    /// The graph is well formed: as many sources as targets, all of them vertices, and the
    /// neighbor lists are those the edges give.
    pub open spec fn wf(&self) -> bool {
        &&& self.spec_sources().len() == self.spec_targets().len()
        &&& forall|i: int| 0 <= i < self.spec_sources().len() ==> #[trigger] self.spec_sources()[i] < self.spec_num_vertices()
        &&& forall|i: int| 0 <= i < self.spec_targets().len() ==> #[trigger] self.spec_targets()[i] < self.spec_num_vertices()
        &&& self.spec_adj() == adj_of(
            self.spec_num_vertices(),
            self.spec_sources(),
            self.spec_targets(),
            self.spec_sources().len() as int,
        )
    }

    /// The graph on `num_vertices` vertices whose edge `i` goes from `sources[i]` to
    /// `targets[i]`.
    pub fn new(num_vertices: usize, sources: Vec<usize>, targets: Vec<usize>) -> (g: Self)
        requires
            sources@.len() == targets@.len(),
            forall|i: int| 0 <= i < sources@.len() ==> #[trigger] sources@[i] < num_vertices,
            forall|i: int| 0 <= i < targets@.len() ==> #[trigger] targets@[i] < num_vertices,
        ensures
            g.wf(),
            g.spec_num_vertices() == num_vertices,
            g.spec_sources() == sources@,
            g.spec_targets() == targets@,
    {
        let mut adj: Vec<Vec<usize>> = Vec::new();
        let mut i: usize = 0;
        while i < num_vertices
            invariant
                i <= num_vertices,
                adj@.len() == i,
                forall|k: int| 0 <= k < i ==> (#[trigger] adj@[k])@ == Seq::<usize>::empty(),
            decreases num_vertices - i,
        {
            adj.push(Vec::new());
            i += 1;
        }
        proof {
            assert(adj@.map_values(|l: Vec<usize>| l@) =~= adj_of(num_vertices as nat, sources@, targets@, 0));
        }
        let m = sources.len();
        let mut j: usize = 0;
        while j < m
            invariant
                m == sources@.len(),
                sources@.len() == targets@.len(),
                forall|i: int| 0 <= i < sources@.len() ==> #[trigger] sources@[i] < num_vertices,
                forall|i: int| 0 <= i < targets@.len() ==> #[trigger] targets@[i] < num_vertices,
                j <= m,
                adj@.len() == num_vertices,
                adj@.map_values(|l: Vec<usize>| l@) == adj_of(num_vertices as nat, sources@, targets@, j as int),
            decreases m - j,
        {
            let u = sources[j];
            let v = targets[j];
            let ghost a0 = adj@.map_values(|l: Vec<usize>| l@);
            adj[u].push(v);
            let ghost a1 = adj@.map_values(|l: Vec<usize>| l@);
            proof {
                assert(a1 =~= a0.update(u as int, a0[u as int].push(v)));
            }
            adj[v].push(u);
            proof {
                let a2 = adj@.map_values(|l: Vec<usize>| l@);
                assert(a2 =~= a1.update(v as int, a1[v as int].push(u)));
                assert(a2 =~= adj_of(num_vertices as nat, sources@, targets@, j + 1));
            }
            j += 1;
        }
        StaticGraph { num_vertices, sources, targets, adj }
    }

    /// The graph on `num_vertices` vertices with the edges `edges`.
    pub fn new_edges(num_vertices: usize, edges: &[(usize, usize)]) -> (g: Self)
        requires
            forall|i: int| 0 <= i < edges@.len() ==> #[trigger] edges@[i].0 < num_vertices && edges@[i].1 < num_vertices,
        ensures
            g.wf(),
            g.spec_num_vertices() == num_vertices,
            g.spec_sources() == edges@.map_values(|e: (usize, usize)| e.0),
            g.spec_targets() == edges@.map_values(|e: (usize, usize)| e.1),
    {
        let mut sources: Vec<usize> = Vec::new();
        let mut targets: Vec<usize> = Vec::new();
        let mut i: usize = 0;
        while i < edges.len()
            invariant
                i <= edges@.len(),
                sources@ == edges@.take(i as int).map_values(|e: (usize, usize)| e.0),
                targets@ == edges@.take(i as int).map_values(|e: (usize, usize)| e.1),
            decreases edges@.len() - i,
        {
            sources.push(edges[i].0);
            targets.push(edges[i].1);
            i += 1;
            proof {
                assert(sources@ =~= edges@.take(i as int).map_values(|e: (usize, usize)| e.0));
                assert(targets@ =~= edges@.take(i as int).map_values(|e: (usize, usize)| e.1));
            }
        }
        proof {
            assert(edges@.take(edges@.len() as int) =~= edges@);
            assert(sources@.len() == edges@.len());
            assert(targets@.len() == edges@.len());
            assert forall|i: int| 0 <= i < sources@.len() implies #[trigger] sources@[i] < num_vertices by {
                assert(sources@[i] == edges@[i].0);
            }
            assert forall|i: int| 0 <= i < targets@.len() implies #[trigger] targets@[i] < num_vertices by {
                assert(edges@[i].0 < num_vertices && targets@[i] == edges@[i].1);
            }
        }
        StaticGraph::new(num_vertices, sources, targets)
    }

    pub fn num_vertices(&self) -> (r: usize)
        ensures
            r == self.spec_num_vertices(),
    {
        self.num_vertices
    }

    /// The vertices `0..n`.
    pub fn vertices(&self) -> (r: Vec<usize>)
        ensures
            r@ == Seq::new(self.spec_num_vertices(), |i: int| i as usize),
    {
        let n = self.num_vertices;
        let mut r: Vec<usize> = Vec::new();
        let mut i: usize = 0;
        while i < n
            invariant
                n == self.spec_num_vertices(),
                i <= n,
                r@ == Seq::new(i as nat, |k: int| k as usize),
            decreases n - i,
        {
            r.push(i);
            i += 1;
            proof {
                assert(r@ =~= Seq::new(i as nat, |k: int| k as usize));
            }
        }
        r
    }

    /// The source of the edge `e`.
    pub fn source(&self, e: usize) -> (r: usize)
        requires
            e < self.spec_sources().len(),
        ensures
            r == self.spec_sources()[e as int],
    {
        self.sources[e]
    }

    /// The target of the edge `e`.
    pub fn target(&self, e: usize) -> (r: usize)
        requires
            e < self.spec_targets().len(),
        ensures
            r == self.spec_targets()[e as int],
    {
        self.targets[e]
    }

    pub fn num_edges(&self) -> (r: usize)
        ensures
            r == self.spec_sources().len(),
    {
        self.sources.len()
    }

    /// The edges `0..m`.
    pub fn edges(&self) -> (r: Vec<usize>)
        ensures
            r@ == Seq::new(self.spec_sources().len(), |i: int| i as usize),
    {
        let m = self.sources.len();
        let mut r: Vec<usize> = Vec::new();
        let mut i: usize = 0;
        while i < m
            invariant
                m == self.spec_sources().len(),
                i <= m,
                r@ == Seq::new(i as nat, |k: int| k as usize),
            decreases m - i,
        {
            r.push(i);
            i += 1;
            proof {
                assert(r@ =~= Seq::new(i as nat, |k: int| k as usize));
            }
        }
        r
    }

    /// The number of neighbors of `v`, counted with multiplicity.
    pub fn degree(&self, v: usize) -> (r: usize)
        requires
            self.wf(),
            v < self.spec_num_vertices(),
        ensures
            r == self.spec_adj()[v as int].len(),
    {
        proof {
            self.lemma_adj_len();
            assert(self.adj@.len() == self.spec_adj().len());
        }
        self.adj[v].len()
    }

    /// The neighbors of `v`, one for each edge at `v`, in the order of the edges.
    pub fn neighbors(&self, v: usize) -> (r: Vec<usize>)
        requires
            self.wf(),
            v < self.spec_num_vertices(),
        ensures
            r@ == self.spec_adj()[v as int],
    {
        proof {
            self.lemma_adj_len();
            assert(self.adj@.len() == self.spec_adj().len());
        }
        let l = &self.adj[v];
        let mut r: Vec<usize> = Vec::new();
        let mut i: usize = 0;
        while i < l.len()
            invariant
                i <= l@.len(),
                r@ == l@.take(i as int),
            decreases l@.len() - i,
        {
            r.push(l[i]);
            i += 1;
            proof {
                assert(r@ =~= l@.take(i as int));
            }
        }
        proof {
            assert(r@ =~= l@);
        }
        r
    }

    /// A value for each vertex, all equal to `value`.
    pub fn vertex_prop<T: Copy>(&self, value: T) -> (r: Vec<T>)
        ensures
            r@.len() == self.spec_num_vertices(),
            forall|i: int| 0 <= i < r@.len() ==> #[trigger] r@[i] == value,
    {
        crate::dfs::vec_of(value, self.num_vertices)
    }

    /// A value for each edge, all equal to `value`.
    pub fn edge_prop<T: Copy>(&self, value: T) -> (r: Vec<T>)
        ensures
            r@.len() == self.spec_sources().len(),
            forall|i: int| 0 <= i < r@.len() ==> #[trigger] r@[i] == value,
    {
        crate::dfs::vec_of(value, self.sources.len())
    }

    /// There is a neighbor list for each vertex, and every neighbor is a vertex.
    pub proof fn lemma_adj_len(&self)
        requires
            self.wf(),
        ensures
            self.spec_adj().len() == self.spec_num_vertices(),
            forall|x: int, j: int|
                0 <= x < self.spec_num_vertices() && 0 <= j < self.spec_adj()[x].len() ==> #[trigger] self.spec_adj()[x][j]
                    < self.spec_num_vertices(),
    {
        lemma_adj_of(self.spec_num_vertices(), self.spec_sources(), self.spec_targets(), self.spec_sources().len() as int);
    }
}

/// The neighbor lists have one list per vertex, and every neighbor is a vertex.
proof fn lemma_adj_of(n: nat, sources: Seq<usize>, targets: Seq<usize>, m: int)
    requires
        0 <= m <= sources.len(),
        sources.len() == targets.len(),
        forall|i: int| 0 <= i < sources.len() ==> #[trigger] sources[i] < n,
        forall|i: int| 0 <= i < targets.len() ==> #[trigger] targets[i] < n,
    ensures
        adj_of(n, sources, targets, m).len() == n,
        forall|x: int, j: int|
            0 <= x < n && 0 <= j < adj_of(n, sources, targets, m)[x].len() ==> #[trigger] adj_of(n, sources, targets, m)[x][j] < n,
    decreases m,
{
    if m > 0 {
        lemma_adj_of(n, sources, targets, m - 1);
        let a = adj_of(n, sources, targets, m - 1);
        let u = sources[m - 1] as int;
        let v = targets[m - 1] as int;
        let b = a.update(u, a[u].push(v as usize));
        let c = b.update(v, b[v].push(u as usize));
        assert forall|x: int, j: int| 0 <= x < n && 0 <= j < c[x].len() implies #[trigger] c[x][j] < n by {
            if x == v {
                if j < b[x].len() as int {
                    assert(c[x][j] == b[x][j]);
                    if x == u {
                        if j < a[x].len() {
                            assert(b[x][j] == a[x][j]);
                        }
                    } else {
                        assert(b[x][j] == a[x][j]);
                    }
                }
            } else if x == u {
                assert(c[x] == b[x]);
                if j < a[x].len() {
                    assert(b[x][j] == a[x][j]);
                }
            } else {
                assert(c[x] == a[x]);
            }
        }
    }
}

/// The number of entries that are `false`.
pub open spec fn num_false(d: Seq<bool>) -> nat
    decreases d.len(),
{
    if d.len() == 0 {
        0
    } else {
        num_false(d.drop_last()) + if d.last() {
            0nat
        } else {
            1nat
        }
    }
}

proof fn lemma_num_false_set(d: Seq<bool>, i: int)
    requires
        0 <= i < d.len(),
        !d[i],
    ensures
        num_false(d.update(i, true)) + 1 == num_false(d),
    decreases d.len(),
{
    let e = d.update(i, true);
    if i == d.len() - 1 {
        assert(e.drop_last() =~= d.drop_last());
    } else {
        assert(e.drop_last() =~= d.drop_last().update(i, true));
        lemma_num_false_set(d.drop_last(), i);
    }
}

proof fn lemma_adj_reach_self(adj: Seq<Seq<usize>>, v: int)
    requires
        0 <= v <= usize::MAX,
    ensures
        adj_reach(adj, v, v),
{
    let s = seq![v as usize];
    assert(is_adj_walk(adj, s));
}

proof fn lemma_adj_reach_extend(adj: Seq<Seq<usize>>, v: int, u: int, w: usize)
    requires
        adj_reach(adj, v, u),
        0 <= u < adj.len(),
        adj[u].contains(w),
    ensures
        adj_reach(adj, v, w as int),
{
    let s = choose|s: Seq<usize>| #[trigger] is_adj_walk(adj, s) && s[0] == v && s.last() == u;
    let t = s.push(w);
    assert forall|i: int| 0 <= i < t.len() - 1 implies #[trigger] adj[t[i] as int].contains(t[i + 1]) by {
        if i < s.len() - 1 {
            assert(t[i] == s[i] && t[i + 1] == s[i + 1]);
        }
    }
    assert(is_adj_walk(adj, t) && t[0] == v && t.last() == w);
}

/// Along a walk that starts at a discovered vertex, where each discovered vertex has only
/// discovered neighbors, every vertex is discovered.
proof fn lemma_adj_closed_walk(adj: Seq<Seq<usize>>, d: Seq<bool>, s: Seq<usize>, i: int)
    requires
        is_adj_walk(adj, s),
        d.len() == adj.len(),
        s[0] < d.len(),
        d[s[0] as int],
        forall|x: int, j: int| 0 <= x < d.len() && d[x] && 0 <= j < adj[x].len() ==> #[trigger] adj[x][j] < d.len()
            && d[adj[x][j] as int],
        0 <= i < s.len(),
    ensures
        s[i] < d.len(),
        d[s[i] as int],
    decreases i,
{
    if i > 0 {
        lemma_adj_closed_walk(adj, d, s, i - 1);
        let k = i - 1;
        assert(adj[s[k] as int].contains(s[k + 1]));
        let j = choose|j: int| 0 <= j < adj[s[k] as int].len() && adj[s[k] as int][j] == s[k + 1];
        assert(adj[s[k] as int][j] < d.len() && d[adj[s[k] as int][j] as int]);
    }
}

/// `x` has an entry on the stack.
pub open spec fn on_stack(s: Seq<(usize, usize)>, x: int) -> bool {
    exists|i: int| 0 <= i < s.len() && s[i].0 == x
}

/// Told of each vertex that a search discovers; answering `false` stops the search.
pub trait DfsVisitor {
    /// The visitor answers `true` every time.
    open spec fn never_stops(&self) -> bool {
        false
    }

    /// The calls of `discover`, each with its answer, in order. A visitor of this library
    /// keeps it in a ghost field; one that keeps the empty default cannot meet the contract
    /// of `discover`.
    open spec fn calls(&self) -> Seq<(usize, usize, bool)> {
        Seq::empty()
    }

    /// `v` is discovered from its neighbor `u`.
    fn discover(&mut self, u: usize, v: usize) -> (r: bool)
        ensures
            final(self).calls() == old(self).calls().push((u, v, r)),
            old(self).never_stops() ==> r && final(self).never_stops(),
    ;
}

/// One step of a depth-first search over the neighbor lists `a`, from the marks `d` of the
/// discovered vertices and the stack `s` of vertices, each with the index of its next
/// neighbor: the neighbor at that index is passed over when discovered already, and
/// otherwise discovered from the vertex on top, which stays below it; a vertex with no
/// neighbor left leaves the stack. The new marks and stack, and the discovery told, if any.
pub open spec fn adj_step(a: Seq<Seq<usize>>, d: Seq<bool>, s: Seq<(usize, usize)>) -> (
    Seq<bool>,
    Seq<(usize, usize)>,
    Seq<(usize, usize)>,
) {
    if s.len() == 0 {
        (d, s, Seq::empty())
    } else {
        let (u, k) = s.last();
        let rest = s.drop_last();
        if k < a[u as int].len() {
            let w = a[u as int][k as int];
            if d[w as int] {
                (d, rest.push((u, (k + 1) as usize)), Seq::empty())
            } else {
                (d.update(w as int, true), rest.push((u, (k + 1) as usize)).push((w, 0usize)), seq![(u, w)])
            }
        } else {
            (d, rest, Seq::empty())
        }
    }
}

/// `n` steps of the search, with all the discoveries told on the way.
pub open spec fn adj_steps(a: Seq<Seq<usize>>, d: Seq<bool>, s: Seq<(usize, usize)>, n: nat) -> (
    Seq<bool>,
    Seq<(usize, usize)>,
    Seq<(usize, usize)>,
)
    decreases n,
{
    if n == 0 {
        (d, s, Seq::empty())
    } else {
        let p = adj_steps(a, d, s, (n - 1) as nat);
        let q = adj_step(a, p.0, p.1);
        (q.0, q.1, p.2 + q.2)
    }
}

/// The start of a search from `v` on `n` vertices: only `v` discovered, and on the stack.
pub open spec fn adj_start(n: nat, v: usize) -> (Seq<bool>, Seq<(usize, usize)>) {
    (Seq::new(n, |i: int| i == v), seq![(v, 0usize)])
}

/// The discoveries told between the calls `l0` and `l1` of a visitor.
#[verifier::opaque]
pub open spec fn told_pairs(l0: Seq<(usize, usize, bool)>, l1: Seq<(usize, usize, bool)>) -> Seq<(usize, usize)> {
    l1.skip(l0.len() as int).map_values(|c: (usize, usize, bool)| (c.0, c.1))
}

/// From the calls `l0` on, the calls grew to `l1`, every one answered `true` but the last,
/// which may have answered `false`.
#[verifier::opaque]
pub open spec fn answered(l0: Seq<(usize, usize, bool)>, l1: Seq<(usize, usize, bool)>) -> bool {
    &&& l0.len() <= l1.len()
    &&& l1.subrange(0, l0.len() as int) == l0
    &&& forall|i: int| l0.len() <= i < l1.len() - 1 ==> (#[trigger] l1[i]).2
}

/// Every call from `l0` on answered `true`.
#[verifier::opaque]
pub open spec fn all_yes(l0: Seq<(usize, usize, bool)>, l1: Seq<(usize, usize, bool)>) -> bool {
    forall|i: int| l0.len() <= i < l1.len() ==> (#[trigger] l1[i]).2
}

/// The search from `v` told the visitor, between its calls `l0` and `l1`, the discoveries of
/// some number of steps; when no call answered `false`, the search ran until its stack was
/// empty, ending with the marks `d`.
pub open spec fn adj_told(
    a: Seq<Seq<usize>>,
    n: nat,
    v: usize,
    l0: Seq<(usize, usize, bool)>,
    l1: Seq<(usize, usize, bool)>,
    d: Seq<bool>,
) -> bool {
    &&& answered(l0, l1)
    &&& exists|k: nat|
        #![trigger adj_steps(a, adj_start(n, v).0, adj_start(n, v).1, k)]
        {
            let p = adj_steps(a, adj_start(n, v).0, adj_start(n, v).1, k);
            &&& told_pairs(l0, l1) == p.2
            &&& all_yes(l0, l1) ==> p.1.len() == 0 && d == p.0
        }
}

/// After `m` steps from the marks `d0` and the stack `s0`, the marks are `d`, the stack is `s`
/// and the discoveries told are `t`.
#[verifier::opaque]
pub open spec fn at_step(
    a: Seq<Seq<usize>>,
    d0: Seq<bool>,
    s0: Seq<(usize, usize)>,
    m: nat,
    d: Seq<bool>,
    s: Seq<(usize, usize)>,
    t: Seq<(usize, usize)>,
) -> bool {
    adj_steps(a, d0, s0, m) == (d, s, t)
}

proof fn lemma_adj_begin(a: Seq<Seq<usize>>, d0: Seq<bool>, s0: Seq<(usize, usize)>)
    ensures
        at_step(a, d0, s0, 0, d0, s0, Seq::empty()),
{
    reveal(at_step);
}

proof fn lemma_adj_done(
    a: Seq<Seq<usize>>,
    n: nat,
    v: usize,
    l0: Seq<(usize, usize, bool)>,
    l1: Seq<(usize, usize, bool)>,
    d: Seq<bool>,
    m: nat,
    dm: Seq<bool>,
    s: Seq<(usize, usize)>,
)
    requires
        at_step(a, adj_start(n, v).0, adj_start(n, v).1, m, dm, s, told_pairs(l0, l1)),
        answered(l0, l1),
        all_yes(l0, l1) ==> s.len() == 0 && d == dm,
    ensures
        adj_told(a, n, v, l0, l1, d),
{
    reveal(at_step);
    let p = adj_steps(a, adj_start(n, v).0, adj_start(n, v).1, m);
    assert(told_pairs(l0, l1) == p.2);
}

proof fn lemma_adj_skip(
    a: Seq<Seq<usize>>,
    d0: Seq<bool>,
    s0: Seq<(usize, usize)>,
    m: nat,
    d: Seq<bool>,
    rest: Seq<(usize, usize)>,
    u: usize,
    j: usize,
    t: Seq<(usize, usize)>,
)
    requires
        at_step(a, d0, s0, m, d, rest.push((u, j)), t),
        j < a[u as int].len(),
        d[a[u as int][j as int] as int],
    ensures
        at_step(a, d0, s0, m + 1, d, rest.push((u, (j + 1) as usize)), t),
{
    reveal(at_step);
    assert(rest.push((u, j)).drop_last() =~= rest);
    assert(t + Seq::<(usize, usize)>::empty() =~= t);
}

proof fn lemma_adj_find(
    a: Seq<Seq<usize>>,
    d0: Seq<bool>,
    s0: Seq<(usize, usize)>,
    m: nat,
    d: Seq<bool>,
    rest: Seq<(usize, usize)>,
    u: usize,
    j: usize,
    t: Seq<(usize, usize)>,
)
    requires
        at_step(a, d0, s0, m, d, rest.push((u, j)), t),
        j < a[u as int].len(),
        !d[a[u as int][j as int] as int],
    ensures
        at_step(
            a,
            d0,
            s0,
            m + 1,
            d.update(a[u as int][j as int] as int, true),
            rest.push((u, (j + 1) as usize)).push((a[u as int][j as int], 0usize)),
            t.push((u, a[u as int][j as int])),
        ),
{
    reveal(at_step);
    assert(rest.push((u, j)).drop_last() =~= rest);
    assert(t + seq![(u, a[u as int][j as int])] =~= t.push((u, a[u as int][j as int])));
}

proof fn lemma_adj_pop(
    a: Seq<Seq<usize>>,
    d0: Seq<bool>,
    s0: Seq<(usize, usize)>,
    m: nat,
    d: Seq<bool>,
    rest: Seq<(usize, usize)>,
    u: usize,
    j: usize,
    t: Seq<(usize, usize)>,
)
    requires
        at_step(a, d0, s0, m, d, rest.push((u, j)), t),
        j >= a[u as int].len(),
    ensures
        at_step(a, d0, s0, m + 1, d, rest, t),
{
    reveal(at_step);
    assert(rest.push((u, j)).drop_last() =~= rest);
    assert(t + Seq::<(usize, usize)>::empty() =~= t);
}

proof fn lemma_told_start(l0: Seq<(usize, usize, bool)>)
    ensures
        told_pairs(l0, l0) == Seq::<(usize, usize)>::empty(),
        answered(l0, l0),
        all_yes(l0, l0),
{
    reveal(told_pairs);
    reveal(answered);
    reveal(all_yes);
    assert(l0.subrange(0, l0.len() as int) =~= l0);
    assert(told_pairs(l0, l0) =~= Seq::<(usize, usize)>::empty());
}

proof fn lemma_told_pairs_push(l0: Seq<(usize, usize, bool)>, l1: Seq<(usize, usize, bool)>, c: (usize, usize, bool))
    requires
        answered(l0, l1),
        all_yes(l0, l1),
    ensures
        told_pairs(l0, l1.push(c)) == told_pairs(l0, l1).push((c.0, c.1)),
        answered(l0, l1.push(c)),
        c.2 ==> all_yes(l0, l1.push(c)),
        !c.2 ==> !all_yes(l0, l1.push(c)),
{
    reveal(told_pairs);
    reveal(answered);
    reveal(all_yes);
    assert(l1.push(c).skip(l0.len() as int) =~= l1.skip(l0.len() as int).push(c));
    assert(told_pairs(l0, l1.push(c)) =~= told_pairs(l0, l1).push((c.0, c.1)));
    assert(l1.push(c).subrange(0, l0.len() as int) =~= l1.subrange(0, l0.len() as int));
    assert forall|i: int| l0.len() <= i < l1.push(c).len() - 1 implies (#[trigger] l1.push(c)[i]).2 by {
        assert(l1.push(c)[i] == l1[i]);
    }
    if c.2 {
        assert forall|i: int| l0.len() <= i < l1.push(c).len() implies (#[trigger] l1.push(c)[i]).2 by {
            if i < l1.len() {
                assert(l1.push(c)[i] == l1[i]);
            }
        }
    } else {
        assert(l1.push(c)[l1.len() as int] == c);
    }
}

impl StaticGraph {
    /// Searches depth-first from `v` over the neighbor lists, telling the visitor of each
    /// vertex discovered and of the vertex it was discovered from, and returns which vertices
    /// were discovered: only vertices reachable from `v`, and all of them when the visitor
    /// never stops the search.
    #[verifier::rlimit(100)]
    #[verifier::spinoff_prover]
    pub fn dfs_discovered<V: DfsVisitor>(&self, v: usize, visitor: &mut V) -> (d: Vec<bool>)
        requires
            self.wf(),
            v < self.spec_num_vertices(),
        ensures
            d@.len() == self.spec_num_vertices(),
            d@[v as int],
            forall|x: int| 0 <= x < d@.len() && #[trigger] d@[x] ==> adj_reach(self.spec_adj(), v as int, x),
            old(visitor).never_stops() ==> forall|x: int|
                0 <= x < d@.len() && adj_reach(self.spec_adj(), v as int, x) ==> #[trigger] d@[x],
            old(visitor).never_stops() ==> final(visitor).never_stops(),
            adj_told(self.spec_adj(), self.spec_num_vertices(), v, old(visitor).calls(), final(visitor).calls(), d@),
    {
        let ghost a = self.spec_adj();
        let ghost n = self.spec_num_vertices();
        let ghost nb = visitor.never_stops();
        let ghost l0 = visitor.calls();
        let ghost dst = adj_start(n, v).0;
        let ghost sst = adj_start(n, v).1;
        let ghost mut st: nat = 0;
        proof {
            self.lemma_adj_len();
            assert(self.adj@.len() == a.len());
            lemma_adj_reach_self(a, v as int);
        }
        let mut discovered = self.vertex_prop(false);
        let mut stack: Vec<(usize, usize)> = Vec::new();
        stack.push((v, 0));
        discovered.set(v, true);
        proof {
            assert(discovered@ =~= dst);
            assert(stack@ =~= sst);
            lemma_told_start(l0);
            lemma_adj_begin(a, dst, sst);
            assert forall|x: int| 0 <= x < n && discovered@[x] && !on_stack(stack@, x) implies forall|j: int|
                0 <= j < a[x].len() ==> #[trigger] discovered@[a[x][j] as int] by {
                if x == v {
                    assert(stack@[0].0 == v);
                }
            }
        }
        while stack.len() > 0
            invariant
                self.wf(),
                a == self.spec_adj(),
                n == self.spec_num_vertices(),
                a.len() == n,
                self.adj@.len() == n,
                forall|x: int, j: int| 0 <= x < n && 0 <= j < a[x].len() ==> #[trigger] a[x][j] < n,
                v < n,
                discovered@.len() == n,
                discovered@[v as int],
                nb == old(visitor).never_stops(),
                nb ==> visitor.never_stops(),
                l0 == old(visitor).calls(),
                dst == adj_start(n, v).0,
                sst == adj_start(n, v).1,
                answered(l0, visitor.calls()),
                all_yes(l0, visitor.calls()),
                at_step(a, dst, sst, st, discovered@, stack@, told_pairs(l0, visitor.calls())),
                forall|i: int|
                    0 <= i < stack@.len() ==> {
                        let (u, k) = #[trigger] stack@[i];
                        &&& u < n
                        &&& discovered@[u as int]
                        &&& k <= a[u as int].len()
                        &&& forall|j: int| 0 <= j < k ==> #[trigger] discovered@[a[u as int][j] as int]
                    },
                forall|x: int| 0 <= x < n && #[trigger] discovered@[x] ==> adj_reach(a, v as int, x),
                forall|x: int|
                    0 <= x < n && discovered@[x] && !on_stack(stack@, x) ==> forall|j: int|
                        0 <= j < a[x].len() ==> #[trigger] discovered@[a[x][j] as int],
            decreases num_false(discovered@), stack@.len(),
        {
            let ghost s0 = stack@;
            let ghost d0 = discovered@;
            let (u, k) = stack.pop().unwrap();
            proof {
                assert(s0[s0.len() - 1] == (u, k));
                assert(stack@ =~= s0.drop_last());
                assert(stack@.push((u, k)) =~= s0);
            }
            let deg = self.degree(u);
            let mut j = k;
            let ghost t0 = told_pairs(l0, visitor.calls());
            while j < deg && discovered[self.adj[u][j]]
                invariant
                    at_step(a, dst, sst, (st + (j - k)) as nat, discovered@, stack@.push((u, j)), t0),
                    self.wf(),
                    a == self.spec_adj(),
                    self.adj@.len() == n,
                    a.len() == n,
                    u < n,
                    discovered@ == d0,
                    discovered@.len() == n,
                    forall|x: int, j: int| 0 <= x < n && 0 <= j < a[x].len() ==> #[trigger] a[x][j] < n,
                    deg == a[u as int].len(),
                    k <= j <= deg,
                    forall|i: int| k <= i < j ==> #[trigger] discovered@[a[u as int][i] as int],
                decreases deg - j,
            {
                proof {
                    lemma_adj_skip(a, dst, sst, (st + (j - k)) as nat, discovered@, stack@, u, j, t0);
                    assert((st + (j - k)) as nat + 1 == (st + (j + 1 - k)) as nat);
                }
                j = j + 1;
            }
            let ghost m: nat = (st + (j - k)) as nat;
            if j < deg {
                let w = self.adj[u][j];
                proof {
                    assert(w == a[u as int][j as int]);
                    assert(!discovered@[w as int]);
                    assert(a[u as int].contains(w));
                    lemma_adj_reach_extend(a, v as int, u as int, w);
                }
                let ghost vis0 = *visitor;
                let go = visitor.discover(u, w);
                proof {
                    lemma_adj_find(a, dst, sst, m, discovered@, stack@, u, j, t0);
                    lemma_told_pairs_push(l0, vis0.calls(), (u, w, go));
                }
                if !go {
                    proof {
                        assert(!all_yes(l0, visitor.calls()));
                        lemma_adj_done(
                            a,
                            n,
                            v,
                            l0,
                            visitor.calls(),
                            discovered@,
                            m + 1,
                            d0.update(w as int, true),
                            s0.drop_last().push((u, (j + 1) as usize)).push((w, 0usize)),
                        );
                    }
                    return discovered;
                }
                discovered.set(w, true);
                stack.push((u, j + 1));
                stack.push((w, 0));
                proof {
                    assert(discovered@ =~= d0.update(w as int, true));
                    assert(stack@ =~= s0.drop_last().push((u, (j + 1) as usize)).push((w, 0usize)));
                    st = m + 1;
                    lemma_num_false_set(d0, w as int);
                    let d1 = discovered@;
                    let s1 = stack@;
                    assert forall|i: int| 0 <= i < s1.len() implies {
                        let (x, kx) = #[trigger] s1[i];
                        &&& x < n
                        &&& d1[x as int]
                        &&& kx <= a[x as int].len()
                        &&& forall|jj: int| 0 <= jj < kx ==> #[trigger] d1[a[x as int][jj] as int]
                    } by {
                        if i < s0.len() - 1 {
                            assert(s1[i] == s0[i]);
                            let (x, kx) = s0[i];
                            assert forall|jj: int| 0 <= jj < kx implies #[trigger] d1[a[x as int][jj] as int] by {
                                assert(d0[a[x as int][jj] as int]);
                            }
                        } else if i == s0.len() - 1 {
                            assert(s1[i] == (u, (j + 1) as usize));
                            assert forall|jj: int| 0 <= jj < j + 1 implies #[trigger] d1[a[u as int][jj] as int] by {
                                if jj < k {
                                    assert(d0[a[u as int][jj] as int]);
                                } else if jj < j {
                                    assert(d0[a[u as int][jj] as int]);
                                }
                            }
                        } else {
                            assert(s1[i] == (w, 0usize));
                        }
                    }
                    assert forall|x: int| 0 <= x < n && #[trigger] d1[x] implies adj_reach(a, v as int, x) by {
                        if x != w {
                            assert(d0[x]);
                        }
                    }
                    assert forall|x: int| 0 <= x < n && d1[x] && !on_stack(s1, x) implies forall|jj: int|
                        0 <= jj < a[x].len() ==> #[trigger] d1[a[x][jj] as int] by {
                        assert(x != w) by {
                            if x == w {
                                assert(s1[s1.len() - 1].0 == w);
                            }
                        }
                        assert(x != u) by {
                            if x == u {
                                assert(s1[s1.len() - 2].0 == u);
                            }
                        }
                        assert(d0[x]);
                        assert(!on_stack(s0, x)) by {
                            if on_stack(s0, x) {
                                let i = choose|i: int| 0 <= i < s0.len() && s0[i].0 == x;
                                assert(i != s0.len() - 1);
                                assert(s1[i] == s0[i]);
                            }
                        }
                        assert forall|jj: int| 0 <= jj < a[x].len() implies #[trigger] d1[a[x][jj] as int] by {
                            assert(d0[a[x][jj] as int]);
                        }
                    }
                }
            } else {
                proof {
                    lemma_adj_pop(a, dst, sst, m, discovered@, stack@, u, j, t0);
                    st = m + 1;
                    let s1 = stack@;
                    assert forall|i: int| 0 <= i < s1.len() implies {
                        let (x, kx) = #[trigger] s1[i];
                        &&& x < n
                        &&& discovered@[x as int]
                        &&& kx <= a[x as int].len()
                        &&& forall|jj: int| 0 <= jj < kx ==> #[trigger] discovered@[a[x as int][jj] as int]
                    } by {
                        assert(s1[i] == s0[i]);
                    }
                    assert forall|x: int| 0 <= x < n && discovered@[x] && !on_stack(s1, x) implies forall|jj: int|
                        0 <= jj < a[x].len() ==> #[trigger] discovered@[a[x][jj] as int] by {
                        if x == u {
                            assert forall|jj: int| 0 <= jj < a[x].len() implies #[trigger] discovered@[a[x][jj] as int] by {
                                if jj < k {
                                    assert(discovered@[a[u as int][jj] as int]);
                                }
                            }
                        } else {
                            assert(!on_stack(s0, x)) by {
                                if on_stack(s0, x) {
                                    let i = choose|i: int| 0 <= i < s0.len() && s0[i].0 == x;
                                    assert(i != s0.len() - 1);
                                    assert(s1[i] == s0[i]);
                                }
                            }
                        }
                    }
                }
            }
        }
        proof {
            if nb {
                assert forall|x: int| 0 <= x < n && adj_reach(a, v as int, x) implies #[trigger] discovered@[x] by {
                    let s = choose|s: Seq<usize>| #[trigger] is_adj_walk(a, s) && s[0] == v && s.last() == x;
                    assert forall|y: int, jj: int|
                        0 <= y < discovered@.len() && discovered@[y] && 0 <= jj < a[y].len() implies #[trigger] a[y][jj]
                            < discovered@.len() && discovered@[a[y][jj] as int] by {
                        assert(!on_stack(stack@, y));
                    }
                    lemma_adj_closed_walk(a, discovered@, s, s.len() - 1);
                }
            }
            lemma_adj_done(a, n, v, l0, visitor.calls(), discovered@, st, discovered@, stack@);
        }
        discovered
    }

    /// Searches depth-first from `v` over the neighbor lists, telling the visitor of each
    /// vertex discovered and of the vertex it was discovered from.
    pub fn dfs<V: DfsVisitor>(&self, v: usize, visitor: &mut V)
        requires
            self.wf(),
            v < self.spec_num_vertices(),
        ensures
            old(visitor).never_stops() ==> final(visitor).never_stops(),
            exists|d: Seq<bool>| #[trigger]
                adj_told(self.spec_adj(), self.spec_num_vertices(), v, old(visitor).calls(), final(visitor).calls(), d),
    {
        let d = self.dfs_discovered(v, visitor);
        proof {
            assert(adj_told(self.spec_adj(), self.spec_num_vertices(), v, old(visitor).calls(), visitor.calls(), d@));
        }
    }
}

} // verus!
