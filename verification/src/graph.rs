//! A static graph kept in compressed form: the out-edges of each vertex are a contiguous,
//! sorted slice of one array.
//!
//! An edge is named by a handle. In a directed graph the handle of the `i`-th added edge is
//! `i`, with ends at positions `2i` and `2i + 1` of `ends`. In an undirected graph the `i`-th
//! added edge has two handles, `2i + 1` (from the first end to the second) and `2i` (back),
//! and a handle `h` goes from position `h ^ 1` to position `h`.
use vstd::prelude::*;

verus! {

/// The position in `ends` of the source of the handle `h`.
pub open spec fn src_pos(directed: bool, h: int) -> int {
    if directed {
        2 * h
    } else if h % 2 == 0 {
        h + 1
    } else {
        h - 1
    }
}

/// The position in `ends` of the target of the handle `h`.
pub open spec fn tgt_pos(directed: bool, h: int) -> int {
    if directed {
        2 * h + 1
    } else {
        h
    }
}

/// The index of the edge that the handle `h` names.
pub open spec fn index_of(directed: bool, h: int) -> int {
    if directed {
        h
    } else {
        h / 2
    }
}

/// The position at which a builder lists the handle `h`.
pub open spec fn added_at(directed: bool, h: int) -> int {
    if directed {
        h
    } else if h % 2 == 0 {
        h + 1
    } else {
        h - 1
    }
}

/// The number of handles of `m` edges.
pub open spec fn num_handles(directed: bool, m: int) -> int {
    if directed {
        m
    } else {
        2 * m
    }
}

/// The handles of `m` edges in the order in which a builder lists them.
pub open spec fn added(directed: bool, m: int) -> Seq<usize> {
    Seq::new(num_handles(directed, m) as nat, |k: int| added_at(directed, k) as usize)
}

/// The source of the handle `h`.
pub open spec fn src_of(ends: Seq<usize>, directed: bool, h: int) -> usize {
    ends[src_pos(directed, h)]
}

/// The target of the handle `h`.
pub open spec fn tgt_of(ends: Seq<usize>, directed: bool, h: int) -> usize {
    ends[tgt_pos(directed, h)]
}

/// The handle `a` comes before `b`: by source, then target, then the order of addition.
pub open spec fn before(ends: Seq<usize>, directed: bool, a: int, b: int) -> bool {
    let (sa, ta, pa) = (src_of(ends, directed, a), tgt_of(ends, directed, a), added_at(directed, a));
    let (sb, tb, pb) = (src_of(ends, directed, b), tgt_of(ends, directed, b), added_at(directed, b));
    sa < sb || (sa == sb && (ta < tb || (ta == tb && pa < pb)))
}

/// Each handle comes before every later one.
pub open spec fn sorted_by_ends(ends: Seq<usize>, directed: bool, s: Seq<usize>) -> bool {
    forall|i: int, j: int| 0 <= i < j < s.len() ==> before(ends, directed, #[trigger] s[i] as int, #[trigger] s[j] as int)
}

/// A handle of one of the edges in `ends`.
pub open spec fn valid_handle(ends: Seq<usize>, directed: bool, h: int) -> bool {
    0 <= h < num_handles(directed, (ends.len() / 2) as int)
}

proof fn lemma_added(directed: bool, m: int, h: int)
    requires
        m >= 0,
        num_handles(directed, m) <= usize::MAX,
    ensures
        0 <= h < num_handles(directed, m) ==> added(directed, m).contains(h as usize),
        0 <= h < num_handles(directed, m) ==> added(directed, m)[added_at(directed, h)] == h,
        0 <= h < num_handles(directed, m) ==> 0 <= added_at(directed, h) < num_handles(directed, m),
        added_at(directed, added_at(directed, h)) == h,
{
    if !directed {
        if h % 2 == 0 {
            assert((h + 1) % 2 == 1);
        } else {
            assert((h - 1) % 2 == 0);
        }
    }
    if 0 <= h < num_handles(directed, m) {
        assert(added(directed, m)[added_at(directed, h)] == added_at(directed, added_at(directed, h)) as usize);
    }
}

/// A builder that collects the edges of a static graph.
pub struct StaticBuilder {
    num_vertices: usize,
    directed: bool,
    ends: Vec<usize>,
    edges: Vec<usize>,
}

/// A graph whose edges do not change once it is built.
pub struct Static {
    num_vertices: usize,
    directed: bool,
    ends: Vec<usize>,
    edges: Vec<usize>,
    edges_start: Vec<usize>,
}

impl StaticBuilder {
    /// The number of vertices of the graph being built.
    pub closed spec fn spec_num_vertices(&self) -> nat {
        self.num_vertices as nat
    }

    /// The graph being built is directed.
    pub closed spec fn spec_directed(&self) -> bool {
        self.directed
    }

    /// The ends of the edges added so far, two by two.
    pub closed spec fn spec_ends(&self) -> Seq<usize> {
        self.ends@
    }

    /// The builder is well formed.
    pub closed spec fn wf(&self) -> bool {
        &&& self.num_vertices < usize::MAX
        &&& self.ends@.len() % 2 == 0
        &&& self.ends@.len() < usize::MAX
        &&& forall|k: int| 0 <= k < self.ends@.len() ==> #[trigger] self.ends@[k] < self.num_vertices
        &&& self.edges@ == added(self.directed, (self.ends@.len() / 2) as int)
    }

    /// A builder for a graph with the vertices `0..num_vertices`; `num_edges` is a hint of
    /// how many edges will be added.
    pub fn new(num_vertices: usize, num_edges: usize, directed: bool) -> (b: Self)
        requires
            num_vertices < usize::MAX,
        ensures
            b.wf(),
            b.spec_num_vertices() == num_vertices,
            b.spec_directed() == directed,
            b.spec_ends() == Seq::<usize>::empty(),
    {
        let cap = if num_edges <= usize::MAX / 2 {
            2 * num_edges
        } else {
            0
        };
        let b = StaticBuilder {
            num_vertices,
            directed,
            ends: Vec::with_capacity(cap),
            edges: Vec::new(),
        };
        proof {
            assert(b.edges@ =~= added(directed, 0));
        }
        b
    }

    /// Adds an edge from `u` to `v`.
    pub fn add_edge(&mut self, u: usize, v: usize)
        requires
            old(self).wf(),
            u < old(self).spec_num_vertices(),
            v < old(self).spec_num_vertices(),
            old(self).spec_ends().len() + 4 < usize::MAX,
        ensures
            final(self).wf(),
            final(self).spec_num_vertices() == old(self).spec_num_vertices(),
            final(self).spec_directed() == old(self).spec_directed(),
            final(self).spec_ends() == old(self).spec_ends().push(u).push(v),
    {
        let ghost m = (self.ends@.len() / 2) as int;
        self.ends.push(u);
        self.ends.push(v);
        let e = (self.ends.len() - 2) / 2;
        if self.directed {
            self.edges.push(e);
        } else {
            self.edges.push(2 * e + 1);
            self.edges.push(2 * e);
        }
        proof {
            assert(e == m);
            assert(self.edges@ =~= added(self.directed, (self.ends@.len() / 2) as int));
            assert forall|k: int| 0 <= k < self.ends@.len() implies #[trigger] self.ends@[k] < self.num_vertices by {
                if k < old(self).ends@.len() {
                    assert(self.ends@[k] == old(self).ends@[k]);
                }
            }
        }
    }

    /// The graph with the added edges.
    pub fn finalize(self) -> (g: Static)
        requires
            self.wf(),
        ensures
            g.wf(),
            g.spec_num_vertices() == self.spec_num_vertices(),
            g.spec_directed() == self.spec_directed(),
            g.spec_ends() == self.spec_ends(),
    {
        let StaticBuilder { num_vertices, directed, ends, edges } = self;
        let mut edges = edges;
        let ghost m = (ends@.len() / 2) as int;
        proof {
            assert forall|i: int, j: int| 0 <= i < j < edges@.len() implies edges@[i] != edges@[j] by {
                lemma_added(directed, m, edges@[i] as int);
                lemma_added(directed, m, i);
                lemma_added(directed, m, j);
            }
            assert forall|k: int| 0 <= k < edges@.len() implies valid_handle(ends@, directed, #[trigger] edges@[k] as int) by {
                lemma_added(directed, m, k);
            }
        }
        sort_edges(&ends, directed, &mut edges);
        let starts = edge_starts(&ends, directed, &edges, num_vertices);
        let g = Static { num_vertices, directed, ends, edges, edges_start: starts };
        g
    }
}

/// Whether the handle `a` comes before `b`.
fn is_before(ends: &Vec<usize>, directed: bool, a: usize, b: usize) -> (r: bool)
    requires
        valid_handle(ends@, directed, a as int),
        valid_handle(ends@, directed, b as int),
        ends@.len() < usize::MAX,
    ensures
        r == before(ends@, directed, a as int, b as int),
{
    assert(num_handles(directed, (ends@.len() / 2) as int) <= ends@.len());
    let (sa, ta) = handle_ends(ends, directed, a);
    let (sb, tb) = handle_ends(ends, directed, b);
    let pa = if directed { a } else if a % 2 == 0 { a + 1 } else { a - 1 };
    let pb = if directed { b } else if b % 2 == 0 { b + 1 } else { b - 1 };
    sa < sb || (sa == sb && (ta < tb || (ta == tb && pa < pb)))
}

/// The source and target of the handle `h`.
fn handle_ends(ends: &Vec<usize>, directed: bool, h: usize) -> (r: (usize, usize))
    requires
        valid_handle(ends@, directed, h as int),
        ends@.len() < usize::MAX,
    ensures
        r.0 == src_of(ends@, directed, h as int),
        r.1 == tgt_of(ends@, directed, h as int),
{
    if directed {
        (ends[2 * h], ends[2 * h + 1])
    } else if h % 2 == 0 {
        (ends[h + 1], ends[h])
    } else {
        (ends[h - 1], ends[h])
    }
}

proof fn lemma_before_total(ends: Seq<usize>, directed: bool, a: int, b: int)
    requires
        a != b,
        a >= 0,
        b >= 0,
    ensures
        before(ends, directed, a, b) || before(ends, directed, b, a),
        !(before(ends, directed, a, b) && before(ends, directed, b, a)),
{
}

/// Sorts the handles by source, then target, then order of addition.
fn sort_edges(ends: &Vec<usize>, directed: bool, edges: &mut Vec<usize>)
    requires
        ends@.len() < usize::MAX,
        forall|k: int| 0 <= k < old(edges)@.len() ==> valid_handle(ends@, directed, #[trigger] old(edges)@[k] as int),
        forall|i: int, j: int| 0 <= i < j < old(edges)@.len() ==> old(edges)@[i] != old(edges)@[j],
    ensures
        final(edges)@.to_multiset() == old(edges)@.to_multiset(),
        final(edges)@.len() == old(edges)@.len(),
        sorted_by_ends(ends@, directed, final(edges)@),
        forall|k: int| 0 <= k < final(edges)@.len() ==> valid_handle(ends@, directed, #[trigger] final(edges)@[k] as int),
{
    let n = edges.len();
    let mut i: usize = 1;
    if n == 0 {
        return;
    }
    while i < n
        invariant
            1 <= i <= n,
            n == edges@.len(),
            ends@.len() < usize::MAX,
            edges@.to_multiset() == old(edges)@.to_multiset(),
            forall|k: int| 0 <= k < edges@.len() ==> valid_handle(ends@, directed, #[trigger] edges@[k] as int),
            forall|a: int, b: int| 0 <= a < b < edges@.len() ==> edges@[a] != edges@[b],
            forall|a: int, b: int| 0 <= a < b < i ==> before(ends@, directed, #[trigger] edges@[a] as int, #[trigger] edges@[b] as int),
        decreases n - i,
    {
        let mut j: usize = i;
        while j > 0 && is_before(ends, directed, edges[j], edges[j - 1])
            invariant
                0 <= j <= i < n,
                n == edges@.len(),
                ends@.len() < usize::MAX,
                edges@.to_multiset() == old(edges)@.to_multiset(),
                forall|k: int| 0 <= k < edges@.len() ==> valid_handle(ends@, directed, #[trigger] edges@[k] as int),
                forall|a: int, b: int| 0 <= a < b < edges@.len() ==> edges@[a] != edges@[b],
                forall|a: int, b: int|
                    0 <= a < b <= i && a != j && b != j ==> before(ends@, directed, #[trigger] edges@[a] as int, #[trigger] edges@[b] as int),
                forall|k: int| j < k <= i ==> before(ends@, directed, edges@[j as int] as int, #[trigger] edges@[k] as int),
            decreases j,
        {
            let x = edges[j];
            let y = edges[j - 1];
            let ghost s0 = edges@;
            edges.set(j, y);
            edges.set(j - 1, x);
            proof {
                let s1 = s0.update(j as int, y);
                vstd::seq_lib::to_multiset_update(s0, j as int, y);
                vstd::seq_lib::to_multiset_update(s1, j - 1, x);
                assert(edges@ == s1.update(j - 1, x));
                assert(s1[j - 1] == y);
                assert(s0[j as int] == x);
                assert(edges@.to_multiset() =~= s0.to_multiset()) by {
                    broadcast use vstd::multiset::group_multiset_axioms;
                    broadcast use vstd::multiset::group_multiset_properties;
                    broadcast use vstd::seq_lib::to_multiset_contains;
                    assert(s0.contains(x));
                    assert(s1.contains(y));
                    assert(s1.to_multiset() == s0.to_multiset().insert(y).remove(x));
                    assert(edges@.to_multiset() == s1.to_multiset().insert(x).remove(y));
                    assert forall|v: usize| edges@.to_multiset().count(v) == s0.to_multiset().count(v) by {
                    }
                }
                assert forall|a: int, b: int| 0 <= a < b < edges@.len() implies edges@[a] != edges@[b] by {
                    let pa = if a == j { j - 1 } else if a == j - 1 { j as int } else { a };
                    let pb = if b == j { j - 1 } else if b == j - 1 { j as int } else { b };
                    assert(edges@[a] == s0[pa]);
                    assert(edges@[b] == s0[pb]);
                }
                assert forall|k: int| j - 1 < k <= i implies before(ends@, directed, edges@[j - 1] as int, #[trigger] edges@[k] as int) by {
                    if k > j {
                        assert(edges@[k] == s0[k]);
                    }
                }
                assert forall|a: int, b: int|
                    0 <= a < b <= i && a != j - 1 && b != j - 1 implies before(ends@, directed, #[trigger] edges@[a] as int, #[trigger] edges@[b] as int) by {
                    if a == j {
                        assert(edges@[a] == s0[j - 1]);
                        assert(edges@[b] == s0[b]);
                        assert(before(ends@, directed, s0[j - 1] as int, s0[j as int] as int) || s0[j - 1] == s0[j as int] || before(ends@, directed, s0[j as int] as int, s0[j - 1] as int));
                        if b > j {
                            // s0[j-1] < s0[b]
                        }
                    } else if b == j {
                        assert(edges@[b] == s0[j - 1]);
                        assert(edges@[a] == s0[a]);
                    } else {
                        assert(edges@[a] == s0[a]);
                        assert(edges@[b] == s0[b]);
                    }
                }
            }
            j -= 1;
        }
        proof {
            if j > 0 {
                lemma_before_total(ends@, directed, edges@[j as int] as int, edges@[j - 1] as int);
            }
            assert forall|a: int, b: int| 0 <= a < b < i + 1 implies before(ends@, directed, #[trigger] edges@[a] as int, #[trigger] edges@[b] as int) by {
                if b == j && a < j - 1 {
                    assert(before(ends@, directed, edges@[a] as int, edges@[j - 1] as int));
                }
            }
        }
        i += 1;
    }
}

/// For each vertex `v <= n`, the position of the first handle whose source is not below `v`.
fn edge_starts(ends: &Vec<usize>, directed: bool, edges: &Vec<usize>, n: usize) -> (starts: Vec<usize>)
    requires
        n < usize::MAX,
        ends@.len() < usize::MAX,
        forall|k: int| 0 <= k < edges@.len() ==> valid_handle(ends@, directed, #[trigger] edges@[k] as int),
        forall|k: int| 0 <= k < ends@.len() ==> #[trigger] ends@[k] < n,
        sorted_by_ends(ends@, directed, edges@),
    ensures
        starts@.len() == n + 1,
        forall|w: int|
            0 <= w <= n ==> {
                &&& #[trigger] starts@[w] <= edges@.len()
                &&& forall|k: int| 0 <= k < starts@[w] ==> src_of(ends@, directed, edges@[k] as int) < w
                &&& forall|k: int| starts@[w] <= k < edges@.len() ==> src_of(ends@, directed, edges@[k] as int) >= w
            },
{
    let mut starts: Vec<usize> = Vec::with_capacity(n + 1);
    let mut last = n;
    let m = edges.len();
    let mut i: usize = 0;
    while i < m
        invariant
            i <= m,
            m == edges@.len(),
            n < usize::MAX,
            ends@.len() < usize::MAX,
            forall|k: int| 0 <= k < edges@.len() ==> valid_handle(ends@, directed, #[trigger] edges@[k] as int),
            forall|k: int| 0 <= k < ends@.len() ==> #[trigger] ends@[k] < n,
            sorted_by_ends(ends@, directed, edges@),
            i == 0 ==> starts@.len() == 0 && last == n,
            i > 0 ==> last == src_of(ends@, directed, edges@[i - 1] as int) && starts@.len() == last + 1,
            forall|w: int|
                0 <= w < starts@.len() ==> {
                    &&& #[trigger] starts@[w] <= i
                    &&& forall|k: int| 0 <= k < starts@[w] ==> src_of(ends@, directed, edges@[k] as int) < w
                    &&& forall|k: int| starts@[w] <= k < i ==> src_of(ends@, directed, edges@[k] as int) >= w
                },
        decreases m - i,
    {
        let (s, _) = handle_ends(ends, directed, edges[i]);
        proof {
            if i > 0 {
                assert(before(ends@, directed, edges@[i - 1] as int, edges@[i as int] as int));
            }
            assert(s < n);
        }
        if s != last {
            while starts.len() != s
                invariant
                    i < m,
                    m == edges@.len(),
                    s < n,
                    s == src_of(ends@, directed, edges@[i as int] as int),
                    starts@.len() <= s,
                    i > 0 ==> src_of(ends@, directed, edges@[i - 1] as int) < starts@.len(),
                    forall|k: int| 0 <= k < i ==> src_of(ends@, directed, #[trigger] edges@[k] as int) <= src_of(ends@, directed, edges@[i - 1] as int),
                    forall|w: int|
                        0 <= w < starts@.len() ==> {
                            &&& #[trigger] starts@[w] <= i
                            &&& forall|k: int| 0 <= k < starts@[w] ==> src_of(ends@, directed, edges@[k] as int) < w
                            &&& forall|k: int| starts@[w] <= k < i ==> src_of(ends@, directed, edges@[k] as int) >= w
                        },
                decreases s - starts@.len(),
            {
                let ghost w0 = starts@.len() as int;
                starts.push(i);
                proof {
                    assert forall|k: int| 0 <= k < i implies src_of(ends@, directed, edges@[k] as int) < w0 by {
                        assert(src_of(ends@, directed, edges@[k] as int) <= src_of(ends@, directed, edges@[i - 1] as int));
                    }
                }
            }
            starts.push(i);
            last = s;
            proof {
                assert forall|k: int| 0 <= k < i implies src_of(ends@, directed, edges@[k] as int) < s by {
                    assert(before(ends@, directed, edges@[k] as int, edges@[i as int] as int));
                }
            }
        }
        proof {
            assert forall|w: int| 0 <= w < starts@.len() implies #[trigger] starts@[w] <= i + 1 && (forall|k: int|
                starts@[w] <= k < i + 1 ==> src_of(ends@, directed, edges@[k] as int) >= w) by {
            }
        }
        i += 1;
    }
    while starts.len() <= n
        invariant
            m == edges@.len(),
            n < usize::MAX,
            starts@.len() <= n + 1,
            forall|k: int| 0 <= k < edges@.len() ==> valid_handle(ends@, directed, #[trigger] edges@[k] as int),
            forall|k: int| 0 <= k < ends@.len() ==> #[trigger] ends@[k] < n,
            m > 0 ==> src_of(ends@, directed, edges@[m - 1] as int) < starts@.len(),
            sorted_by_ends(ends@, directed, edges@),
            forall|w: int|
                0 <= w < starts@.len() ==> {
                    &&& #[trigger] starts@[w] <= m
                    &&& forall|k: int| 0 <= k < starts@[w] ==> src_of(ends@, directed, edges@[k] as int) < w
                    &&& forall|k: int| starts@[w] <= k < m ==> src_of(ends@, directed, edges@[k] as int) >= w
                },
        decreases n + 1 - starts@.len(),
    {
        let ghost w0 = starts@.len() as int;
        starts.push(m);
        proof {
            assert forall|k: int| 0 <= k < m implies src_of(ends@, directed, edges@[k] as int) < w0 by {
                if k < m - 1 {
                    assert(before(ends@, directed, edges@[k] as int, edges@[m - 1] as int));
                }
            }
        }
    }
    starts
}

impl Static {
    /// The number of vertices.
    pub closed spec fn spec_num_vertices(&self) -> nat {
        self.num_vertices as nat
    }

    /// The graph is directed.
    pub closed spec fn spec_directed(&self) -> bool {
        self.directed
    }

    /// The ends of the edges, two by two, in the order in which they were added.
    pub closed spec fn spec_ends(&self) -> Seq<usize> {
        self.ends@
    }

    /// The handles, sorted by source, then target, then order of addition.
    pub closed spec fn spec_edges(&self) -> Seq<usize> {
        self.edges@
    }

    /// Where the out-edges of each vertex start in `spec_edges`.
    pub closed spec fn spec_starts(&self) -> Seq<usize> {
        self.edges_start@
    }

    /// The graph is well formed.
    pub closed spec fn wf(&self) -> bool {
        &&& self.num_vertices < usize::MAX
        &&& self.ends@.len() % 2 == 0
        &&& self.ends@.len() < usize::MAX
        &&& forall|k: int| 0 <= k < self.ends@.len() ==> #[trigger] self.ends@[k] < self.num_vertices
        &&& self.edges@.to_multiset() == added(self.directed, (self.ends@.len() / 2) as int).to_multiset()
        &&& self.edges@.len() == num_handles(self.directed, (self.ends@.len() / 2) as int)
        &&& forall|k: int| 0 <= k < self.edges@.len() ==> valid_handle(self.ends@, self.directed, #[trigger] self.edges@[k] as int)
        &&& sorted_by_ends(self.ends@, self.directed, self.edges@)
        &&& self.edges_start@.len() == self.num_vertices + 1
        &&& forall|w: int|
            0 <= w <= self.num_vertices ==> {
                &&& #[trigger] self.edges_start@[w] <= self.edges@.len()
                &&& forall|k: int| 0 <= k < self.edges_start@[w] ==> src_of(self.ends@, self.directed, self.edges@[k] as int) < w
                &&& forall|k: int|
                    self.edges_start@[w] <= k < self.edges@.len() ==> src_of(self.ends@, self.directed, self.edges@[k] as int) >= w
            }
    }
}

impl Static {
    /// A valid handle of this graph.
    pub open spec fn has_edge(&self, h: int) -> bool {
        valid_handle(self.spec_ends(), self.spec_directed(), h)
    }

    /// The source of the handle `h`.
    pub open spec fn spec_source(&self, h: int) -> usize {
        src_of(self.spec_ends(), self.spec_directed(), h)
    }

    /// The target of the handle `h`.
    pub open spec fn spec_target(&self, h: int) -> usize {
        tgt_of(self.spec_ends(), self.spec_directed(), h)
    }

    /// The number of edges.
    pub open spec fn spec_num_edges(&self) -> nat {
        self.spec_ends().len() / 2
    }

    /// The out-edges of `v`, sorted by target and then by order of addition.
    pub open spec fn spec_out_edges(&self, v: int) -> Seq<usize> {
        self.spec_edges().subrange(self.spec_starts()[v] as int, self.spec_starts()[v + 1] as int)
    }

    /// The handles of the edges, one for each, in the order in which they were added.
    pub open spec fn spec_edge_list(&self) -> Seq<usize> {
        Seq::new(
            self.spec_num_edges(),
            |i: int|
                if self.spec_directed() {
                    i as usize
                } else {
                    (2 * i + 1) as usize
                },
        )
    }

    proof fn lemma_starts(&self, v: int)
        requires
            self.wf(),
            0 <= v < self.spec_num_vertices(),
        ensures
            self.spec_starts()[v] <= self.spec_starts()[v + 1] <= self.spec_edges().len(),
    {
        if self.edges_start@[v] > self.edges_start@[v + 1] {
            let k = self.edges_start@[v + 1] as int;
            assert(src_of(self.ends@, self.directed, self.edges@[k] as int) >= v + 1);
            assert(src_of(self.ends@, self.directed, self.edges@[k] as int) < v);
        }
    }

    /// The out-edges of `v` are exactly the handles that leave `v`.
    pub proof fn lemma_out_edges(&self, v: int, h: int)
        requires
            self.wf(),
            0 <= v < self.spec_num_vertices(),
        ensures
            self.spec_starts()[v] <= self.spec_starts()[v + 1] <= self.spec_edges().len(),
            forall|k: int|
                0 <= k < self.spec_out_edges(v).len() ==> self.has_edge(#[trigger] self.spec_out_edges(v)[k] as int)
                    && self.spec_source(self.spec_out_edges(v)[k] as int) == v,
            self.has_edge(h) && self.spec_source(h) == v ==> self.spec_out_edges(v).contains(h as usize),
    {
        self.lemma_starts(v);
        let m = (self.ends@.len() / 2) as int;
        if self.has_edge(h) && self.spec_source(h) == v {
            lemma_added(self.directed, m, h);
            assert(added(self.directed, m).contains(h as usize));
            vstd::seq_lib::to_multiset_contains(added(self.directed, m), h as usize);
            vstd::seq_lib::to_multiset_contains(self.edges@, h as usize);
            assert(self.edges@.contains(h as usize));
            let k = choose|k: int| 0 <= k < self.edges@.len() && self.edges@[k] == h as usize;
            assert(self.spec_out_edges(v)[k - self.edges_start@[v]] == h);
        }
    }

    /// The out-edges of `v` come sorted by target, then by the order in which their edges
    /// were added; no handle comes twice.
    pub proof fn lemma_out_edges_sorted(&self, v: int)
        requires
            self.wf(),
            0 <= v < self.spec_num_vertices(),
        ensures
            forall|i: int, j: int|
                0 <= i < j < self.spec_out_edges(v).len() ==> {
                    let a = #[trigger] self.spec_out_edges(v)[i] as int;
                    let b = #[trigger] self.spec_out_edges(v)[j] as int;
                    self.spec_target(a) < self.spec_target(b) || (self.spec_target(a) == self.spec_target(b)
                        && added_at(self.spec_directed(), a) < added_at(self.spec_directed(), b))
                },
            forall|i: int, j: int|
                0 <= i < j < self.spec_out_edges(v).len() ==> #[trigger] self.spec_out_edges(v)[i]
                    != #[trigger] self.spec_out_edges(v)[j],
    {
        self.lemma_out_edges(v, 0);
        let st = self.edges_start@[v] as int;
        assert forall|i: int, j: int| 0 <= i < j < self.spec_out_edges(v).len() implies {
            let a = #[trigger] self.spec_out_edges(v)[i] as int;
            let b = #[trigger] self.spec_out_edges(v)[j] as int;
            self.spec_target(a) < self.spec_target(b) || (self.spec_target(a) == self.spec_target(b) && added_at(
                self.spec_directed(),
                a,
            ) < added_at(self.spec_directed(), b))
        } by {
            assert(self.spec_out_edges(v)[i] == self.edges@[st + i]);
            assert(self.spec_out_edges(v)[j] == self.edges@[st + j]);
            assert(before(self.ends@, self.directed, self.edges@[st + i] as int, self.edges@[st + j] as int));
        }
        assert forall|i: int, j: int| 0 <= i < j < self.spec_out_edges(v).len() implies #[trigger] self.spec_out_edges(
            v,
        )[i] != #[trigger] self.spec_out_edges(v)[j] by {
            assert(self.spec_out_edges(v)[i] == self.edges@[st + i]);
            assert(self.spec_out_edges(v)[j] == self.edges@[st + j]);
            assert(before(self.ends@, self.directed, self.edges@[st + i] as int, self.edges@[st + j] as int));
        }
    }

    /// The number of vertices fits below `usize::MAX`.
    pub proof fn lemma_num_vertices(&self)
        requires
            self.wf(),
        ensures
            self.spec_num_vertices() < usize::MAX,
    {
    }

    /// Twice the number of edges fits in a `usize`.
    pub proof fn lemma_num_edges_bound(&self)
        requires
            self.wf(),
        ensures
            2 * self.spec_num_edges() < usize::MAX,
    {
    }

    /// The edge list names each edge once, by a valid handle.
    pub proof fn lemma_edge_list(&self)
        requires
            self.wf(),
        ensures
            forall|i: int|
                0 <= i < self.spec_num_edges() ==> self.has_edge(#[trigger] self.spec_edge_list()[i] as int)
                    && index_of(self.spec_directed(), self.spec_edge_list()[i] as int) == i && (!self.spec_directed()
                    ==> self.spec_edge_list()[i] as int == 2 * i + 1),
    {
        assert forall|i: int| 0 <= i < self.spec_num_edges() implies self.has_edge(#[trigger] self.spec_edge_list()[i] as int)
            && index_of(self.spec_directed(), self.spec_edge_list()[i] as int) == i && (!self.spec_directed()
            ==> self.spec_edge_list()[i] as int == 2 * i + 1) by {
            assert(2 * i + 1 < self.ends@.len());
        }
    }

    /// The index of a handle is the number of an edge.
    pub proof fn lemma_edge_index_range(&self)
        requires
            self.wf(),
        ensures
            forall|h: int| #[trigger] self.has_edge(h) ==> 0 <= index_of(self.spec_directed(), h) < self.spec_num_edges(),
    {
    }

    /// Both ends of an edge are vertices.
    pub proof fn lemma_target_range(&self, h: int)
        requires
            self.wf(),
            self.has_edge(h),
        ensures
            self.spec_source(h) < self.spec_num_vertices(),
            self.spec_target(h) < self.spec_num_vertices(),
            0 <= h < usize::MAX,
    {
        assert(num_handles(self.directed, (self.ends@.len() / 2) as int) <= self.ends@.len());
        assert(0 <= src_pos(self.directed, h) < self.ends@.len());
        assert(0 <= tgt_pos(self.directed, h) < self.ends@.len());
    }

    /// The out-edges of `v` leave `v` and enter vertices.
    pub proof fn lemma_out_targets(&self, v: int)
        requires
            self.wf(),
            0 <= v < self.spec_num_vertices(),
        ensures
            self.spec_starts()[v] <= self.spec_starts()[v + 1] <= self.spec_edges().len(),
            forall|j: int|
                0 <= j < self.spec_out_edges(v).len() ==> self.has_edge(#[trigger] self.spec_out_edges(v)[j] as int)
                    && self.spec_source(self.spec_out_edges(v)[j] as int) == v && self.spec_target(
                    self.spec_out_edges(v)[j] as int,
                ) < self.spec_num_vertices(),
    {
        self.lemma_out_edges(v, 0);
        assert forall|j: int| 0 <= j < self.spec_out_edges(v).len() implies self.spec_target(
            #[trigger] self.spec_out_edges(v)[j] as int,
        ) < self.spec_num_vertices() by {
            self.lemma_target_range(self.spec_out_edges(v)[j] as int);
        }
    }

    /// Two handles of the same edge are equal or, in an undirected graph, each other's
    /// reverse.
    pub proof fn lemma_same_index(&self, e: int, f: int)
        requires
            self.wf(),
            self.has_edge(e),
            self.has_edge(f),
            index_of(self.spec_directed(), e) == index_of(self.spec_directed(), f),
        ensures
            e == f || (self.spec_source(e) == self.spec_target(f) && self.spec_target(e) == self.spec_source(f)),
    {
    }

    /// The number of vertices.
    pub fn num_vertices(&self) -> (r: usize)
        ensures
            r == self.spec_num_vertices(),
    {
        self.num_vertices
    }

    /// The number of edges.
    pub fn num_edges(&self) -> (r: usize)
        ensures
            r == self.spec_num_edges(),
    {
        self.ends.len() / 2
    }

    /// Whether the graph is directed.
    pub fn is_directed(&self) -> (r: bool)
        ensures
            r == self.spec_directed(),
    {
        self.directed
    }

    /// Whether the edge `e` is undirected.
    pub fn is_undirected_edge(&self, e: usize) -> (r: bool)
        ensures
            r == !self.spec_directed(),
    {
        !self.directed
    }

    /// The vertex that `e` leaves.
    pub fn source(&self, e: usize) -> (r: usize)
        requires
            self.wf(),
            self.has_edge(e as int),
        ensures
            r == self.spec_source(e as int),
            r < self.spec_num_vertices(),
    {
        handle_ends(&self.ends, self.directed, e).0
    }

    /// The vertex that `e` enters.
    pub fn target(&self, e: usize) -> (r: usize)
        requires
            self.wf(),
            self.has_edge(e as int),
        ensures
            r == self.spec_target(e as int),
            r < self.spec_num_vertices(),
    {
        handle_ends(&self.ends, self.directed, e).1
    }

    /// The source and the target of `e`.
    pub fn ends(&self, e: usize) -> (r: (usize, usize))
        requires
            self.wf(),
            self.has_edge(e as int),
        ensures
            r == (self.spec_source(e as int), self.spec_target(e as int)),
            r.0 < self.spec_num_vertices(),
            r.1 < self.spec_num_vertices(),
    {
        handle_ends(&self.ends, self.directed, e)
    }

    /// The end of `e` that is not `u`.
    pub fn opposite(&self, u: usize, e: usize) -> (r: usize)
        requires
            self.wf(),
            self.has_edge(e as int),
            u == self.spec_source(e as int) || u == self.spec_target(e as int),
        ensures
            u == self.spec_source(e as int) ==> r == self.spec_target(e as int),
            u != self.spec_source(e as int) ==> r == self.spec_source(e as int),
    {
        let (s, t) = self.ends(e);
        if u == s {
            t
        } else {
            s
        }
    }

    /// The index of the edge that `e` names, in the order of addition.
    pub fn edge_index(&self, e: usize) -> (r: usize)
        ensures
            r == index_of(self.spec_directed(), e as int),
    {
        if self.directed {
            e
        } else {
            e / 2
        }
    }

    /// The other handle of the undirected edge `e`.
    pub fn reverse(&self, e: usize) -> (r: usize)
        requires
            self.wf(),
            !self.spec_directed(),
            self.has_edge(e as int),
        ensures
            r == added_at(false, e as int),
            self.has_edge(r as int),
            self.spec_source(r as int) == self.spec_target(e as int),
            self.spec_target(r as int) == self.spec_source(e as int),
            index_of(false, r as int) == index_of(false, e as int),
    {
        if e % 2 == 0 {
            e + 1
        } else {
            e - 1
        }
    }

    /// The number of out-edges of `v`.
    pub fn out_degree(&self, v: usize) -> (r: usize)
        requires
            self.wf(),
            v < self.spec_num_vertices(),
        ensures
            r == self.spec_out_edges(v as int).len(),
    {
        proof {
            self.lemma_starts(v as int);
        }
        self.edges_start[v + 1] - self.edges_start[v]
    }

    /// The `k`-th out-edge of `v`.
    pub fn out_edge(&self, v: usize, k: usize) -> (r: usize)
        requires
            self.wf(),
            v < self.spec_num_vertices(),
            k < self.spec_out_edges(v as int).len(),
        ensures
            r == self.spec_out_edges(v as int)[k as int],
            self.has_edge(r as int),
            self.spec_source(r as int) == v,
    {
        proof {
            self.lemma_out_edges(v as int, 0);
        }
        self.edges[self.edges_start[v] + k]
    }

    /// The out-edges of `v`.
    pub fn out_edges(&self, v: usize) -> (r: Vec<usize>)
        requires
            self.wf(),
            v < self.spec_num_vertices(),
        ensures
            r@ == self.spec_out_edges(v as int),
            forall|k: int| 0 <= k < r@.len() ==> self.has_edge(#[trigger] r@[k] as int) && self.spec_source(r@[k] as int) == v,
            forall|i: int, j: int|
                0 <= i < j < r@.len() ==> {
                    let a = #[trigger] r@[i] as int;
                    let b = #[trigger] r@[j] as int;
                    self.spec_target(a) < self.spec_target(b) || (self.spec_target(a) == self.spec_target(b)
                        && added_at(self.spec_directed(), a) < added_at(self.spec_directed(), b))
                },
    {
        proof {
            self.lemma_starts(v as int);
            self.lemma_out_edges(v as int, 0);
            self.lemma_out_edges_sorted(v as int);
        }
        let a = self.edges_start[v];
        let b = self.edges_start[v + 1];
        let mut r: Vec<usize> = Vec::new();
        let mut k = a;
        while k < b
            invariant
                a <= k <= b,
                b <= self.edges@.len(),
                r@ == self.edges@.subrange(a as int, k as int),
            decreases b - k,
        {
            r.push(self.edges[k]);
            k += 1;
            proof {
                assert(r@ =~= self.edges@.subrange(a as int, k as int));
            }
        }
        r
    }

    /// The out-neighbors of `v`: the targets of its out-edges, in the same order.
    pub fn out_neighbors(&self, v: usize) -> (r: Vec<usize>)
        requires
            self.wf(),
            v < self.spec_num_vertices(),
        ensures
            r@.len() == self.spec_out_edges(v as int).len(),
            forall|k: int| 0 <= k < r@.len() ==> #[trigger] r@[k] == self.spec_target(self.spec_out_edges(v as int)[k] as int),
    {
        let d = self.out_degree(v);
        let mut r: Vec<usize> = Vec::new();
        let mut k: usize = 0;
        while k < d
            invariant
                self.wf(),
                v < self.spec_num_vertices(),
                d == self.spec_out_edges(v as int).len(),
                k <= d,
                r@.len() == k,
                forall|j: int| 0 <= j < k ==> #[trigger] r@[j] == self.spec_target(self.spec_out_edges(v as int)[j] as int),
            decreases d - k,
        {
            let e = self.out_edge(v, k);
            r.push(self.target(e));
            k += 1;
        }
        r
    }

    /// The reverse of `e`: its other handle when undirected, else the first out-edge of its
    /// target that enters its source, if any.
    pub fn get_reverse(&self, e: usize) -> (r: Option<usize>)
        requires
            self.wf(),
            self.has_edge(e as int),
        ensures
            !self.spec_directed() ==> r == Some(added_at(false, e as int) as usize),
            self.spec_directed() ==> match r {
                Some(f) => {
                    let out = self.spec_out_edges(self.spec_target(e as int) as int);
                    exists|k: int|
                        0 <= k < out.len() && out[k] == f && self.spec_target(f as int) == self.spec_source(e as int)
                            && forall|j: int| 0 <= j < k ==> self.spec_target(#[trigger] out[j] as int) != self.spec_source(e as int)
                },
                None => forall|f: int|
                    self.has_edge(f) && self.spec_source(f) == self.spec_target(e as int) ==> self.spec_target(f)
                        != self.spec_source(e as int),
            },
    {
        if !self.directed {
            return Some(self.reverse(e));
        }
        let (u, v) = self.ends(e);
        let d = self.out_degree(v);
        let mut k: usize = 0;
        while k < d
            invariant
                self.wf(),
                self.spec_directed(),
                v < self.spec_num_vertices(),
                u == self.spec_source(e as int),
                v == self.spec_target(e as int),
                d == self.spec_out_edges(v as int).len(),
                k <= d,
                forall|j: int| 0 <= j < k ==> self.spec_target(#[trigger] self.spec_out_edges(v as int)[j] as int) != u,
            decreases d - k,
        {
            let f = self.out_edge(v, k);
            if self.target(f) == u {
                return Some(f);
            }
            k += 1;
        }
        proof {
            assert forall|f: int| self.has_edge(f) && self.spec_source(f) == v implies self.spec_target(f) != u by {
                self.lemma_out_edges(v as int, f);
                let out = self.spec_out_edges(v as int);
                let j = choose|j: int| 0 <= j < out.len() && out[j] == f as usize;
            }
        }
        None
    }

    /// The edges, one handle for each, in the order in which they were added.
    pub fn edges(&self) -> (r: Vec<usize>)
        requires
            self.wf(),
        ensures
            r@ == self.spec_edge_list(),
    {
        let m = self.num_edges();
        let mut r: Vec<usize> = Vec::new();
        let mut i: usize = 0;
        while i < m
            invariant
                self.wf(),
                m == self.spec_num_edges(),
                i <= m,
                r@ == self.spec_edge_list().take(i as int),
            decreases m - i,
        {
            if self.directed {
                r.push(i);
            } else {
                r.push(2 * i + 1);
            }
            i += 1;
            proof {
                assert(r@ =~= self.spec_edge_list().take(i as int));
            }
        }
        proof {
            assert(r@ =~= self.spec_edge_list());
        }
        r
    }

    /// The vertices `0..n`.
    pub fn vertices(&self) -> (r: Vec<usize>)
        ensures
            r@ == Seq::new(self.spec_num_vertices(), |i: int| i as usize),
    {
        let n = self.num_vertices;
        let mut r: Vec<usize> = Vec::new();
        let mut i: usize = 0;
        while i < n
            invariant
                n == self.spec_num_vertices(),
                i <= n,
                r@ == Seq::new(i as nat, |k: int| k as usize),
            decreases n - i,
        {
            r.push(i);
            i += 1;
            proof {
                assert(r@ =~= Seq::new(i as nat, |k: int| k as usize));
            }
        }
        r
    }
}

} // verus!
