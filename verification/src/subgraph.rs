//! Subgraphs of a static graph: the graph of some of its edges, the graph induced by some of
//! its vertices, and a spanning subgraph whose edges can be added and removed.
use vstd::prelude::*;
use crate::graph::{Static, added_at, index_of};
use crate::dfs::vec_of;

verus! {

/// The elements of `s`, each once, in the order in which they first occur.
pub open spec fn dedup(s: Seq<usize>) -> Seq<usize>
    decreases s.len(),
{
    if s.len() == 0 {
        Seq::empty()
    } else {
        let d = dedup(s.drop_last());
        if d.contains(s.last()) {
            d
        } else {
            d.push(s.last())
        }
    }
}

/// The ends of the edges `es`, in order: source, then target, edge after edge.
pub open spec fn ends_of(g: &Static, es: Seq<usize>) -> Seq<usize> {
    Seq::new(
        2 * es.len(),
        |k: int|
            if k % 2 == 0 {
                g.spec_source(es[k / 2] as int)
            } else {
                g.spec_target(es[k / 2] as int)
            },
    )
}

/// The out-edges of `w` in the subgraph of the edges `es` of an undirected graph: for each
/// edge, itself when it leaves `w` and its reverse when it enters `w`.
pub open spec fn inc_of(g: &Static, es: Seq<usize>, w: int) -> Seq<usize>
    decreases es.len(),
{
    if es.len() == 0 {
        Seq::empty()
    } else {
        let p = inc_of(g, es.drop_last(), w);
        let e = es.last();
        let p1 = if g.spec_source(e as int) == w {
            p.push(e)
        } else {
            p
        };
        if g.spec_target(e as int) == w {
            p1.push(added_at(false, e as int) as usize)
        } else {
            p1
        }
    }
}

/// The incidence lists of edges of an undirected graph hold edges of it.
proof fn lemma_inc_of_edges(g: &Static, es: Seq<usize>, w: int)
    requires
        g.wf(),
        !g.spec_directed() || es.len() == 0,
        forall|k: int| 0 <= k < es.len() ==> g.has_edge(#[trigger] es[k] as int),
    ensures
        forall|k: int| 0 <= k < inc_of(g, es, w).len() ==> g.has_edge(#[trigger] inc_of(g, es, w)[k] as int),
    decreases es.len(),
{
    if es.len() > 0 {
        let e = es.last();
        assert(g.has_edge(es[es.len() - 1] as int));
        assert forall|k: int| 0 <= k < es.drop_last().len() implies g.has_edge(#[trigger] es.drop_last()[k] as int) by {
            assert(es.drop_last()[k] == es[k]);
        }
        lemma_inc_of_edges(g, es.drop_last(), w);
        assert(g.has_edge(added_at(false, e as int)));
        let p = inc_of(g, es.drop_last(), w);
        let p1 = if g.spec_source(e as int) == w {
            p.push(e)
        } else {
            p
        };
        assert forall|k: int| 0 <= k < p1.len() implies g.has_edge(#[trigger] p1[k] as int) by {
            if k < p.len() {
                assert(p1[k] == p[k]);
            }
        }
        let p2 = if g.spec_target(e as int) == w {
            p1.push(added_at(false, e as int) as usize)
        } else {
            p1
        };
        assert(inc_of(g, es, w) == p2);
        assert forall|k: int| 0 <= k < p2.len() implies g.has_edge(#[trigger] p2[k] as int) by {
            if k < p1.len() {
                assert(p2[k] == p1[k]);
            }
        }
    }
}

/// The edges of `es` that enter `vs` are edges of `es`.
proof fn lemma_into_set_edges(g: &Static, es: Seq<usize>, vs: Set<usize>)
    requires
        forall|k: int| 0 <= k < es.len() ==> g.has_edge(#[trigger] es[k] as int),
    ensures
        forall|k: int| 0 <= k < into_set(g, es, vs).len() ==> g.has_edge(#[trigger] into_set(g, es, vs)[k] as int),
    decreases es.len(),
{
    if es.len() > 0 {
        assert forall|k: int| 0 <= k < es.drop_last().len() implies g.has_edge(#[trigger] es.drop_last()[k] as int) by {
            assert(es.drop_last()[k] == es[k]);
        }
        lemma_into_set_edges(g, es.drop_last(), vs);
        assert(g.has_edge(es[es.len() - 1] as int));
        let p = into_set(g, es.drop_last(), vs);
        assert forall|k: int| 0 <= k < into_set(g, es, vs).len() implies g.has_edge(#[trigger] into_set(g, es, vs)[k] as int) by {
            if k < p.len() {
                assert(into_set(g, es, vs)[k] == p[k]);
            }
        }
    }
}

/// The incidence lists of an induced subgraph hold edges of the graph.
proof fn lemma_inc_into_edges(g: &Static, us: Seq<usize>, vs: Set<usize>, w: int)
    requires
        g.wf(),
        0 <= w < g.spec_num_vertices(),
    ensures
        forall|k: int| 0 <= k < inc_into(g, us, vs, w).len() ==> g.has_edge(#[trigger] inc_into(g, us, vs, w)[k] as int),
    decreases us.len(),
{
    if us.len() > 0 {
        lemma_inc_into_edges(g, us.drop_last(), vs, w);
        g.lemma_out_targets(w);
        lemma_into_set_edges(g, g.spec_out_edges(w), vs);
        let a = inc_into(g, us.drop_last(), vs, w);
        let b = if us.last() == w {
            into_set(g, g.spec_out_edges(w), vs)
        } else {
            Seq::empty()
        };
        assert forall|k: int| 0 <= k < (a + b).len() implies g.has_edge(#[trigger] (a + b)[k] as int) by {
            if k < a.len() {
                assert((a + b)[k] == a[k]);
            } else {
                assert((a + b)[k] == b[k - a.len()]);
            }
        }
    }
}

/// The edges of `es` that enter a vertex of `vs`, in order.
pub open spec fn into_set(g: &Static, es: Seq<usize>, vs: Set<usize>) -> Seq<usize>
    decreases es.len(),
{
    if es.len() == 0 {
        Seq::empty()
    } else {
        let p = into_set(g, es.drop_last(), vs);
        if vs.contains(g.spec_target(es.last() as int)) {
            p.push(es.last())
        } else {
            p
        }
    }
}

/// The out-edges of the vertices `us`, one vertex after the other, that enter a vertex of
/// `vs`.
pub open spec fn out_edges_into(g: &Static, us: Seq<usize>, vs: Set<usize>) -> Seq<usize>
    decreases us.len(),
{
    if us.len() == 0 {
        Seq::empty()
    } else {
        out_edges_into(g, us.drop_last(), vs) + into_set(g, g.spec_out_edges(us.last() as int), vs)
    }
}

/// The out-edges of `w` that enter a vertex of `vs`, once for each time `w` occurs in `us`.
pub open spec fn inc_into(g: &Static, us: Seq<usize>, vs: Set<usize>, w: int) -> Seq<usize>
    decreases us.len(),
{
    if us.len() == 0 {
        Seq::empty()
    } else {
        inc_into(g, us.drop_last(), vs, w) + if us.last() == w {
            into_set(g, g.spec_out_edges(w), vs)
        } else {
            Seq::empty()
        }
    }
}

/// Some edge of `es` has the index of `e`: it is `e` or, undirected, its other handle.
pub open spec fn has_index(g: &Static, es: Seq<usize>, e: usize) -> bool {
    exists|i: int| 0 <= i < es.len() && index_of(g.spec_directed(), es[i] as int) == index_of(g.spec_directed(), e as int)
}

/// The edges of `es`, each kept only where no earlier one has its index.
pub open spec fn first_by_index(g: &Static, es: Seq<usize>) -> Seq<usize>
    decreases es.len(),
{
    if es.len() == 0 {
        Seq::empty()
    } else {
        let p = first_by_index(g, es.drop_last());
        if has_index(g, p, es.last()) {
            p
        } else {
            p.push(es.last())
        }
    }
}

/// Whether some edge of `es` has the index of `e`.
fn find_index(g: &Static, es: &Vec<usize>, e: usize) -> (r: bool)
    ensures
        r == has_index(g, es@, e),
{
    let x = g.edge_index(e);
    let mut i: usize = 0;
    while i < es.len()
        invariant
            i <= es@.len(),
            x == index_of(g.spec_directed(), e as int),
            forall|k: int| 0 <= k < i ==> index_of(g.spec_directed(), #[trigger] es@[k] as int) != x,
        decreases es@.len() - i,
    {
        if g.edge_index(es[i]) == x {
            return true;
        }
        i += 1;
    }
    false
}

/// A subgraph of an undirected graph.
pub struct Subgraph<'a> {
    g: &'a Static,
    vertices: Vec<usize>,
    edges: Vec<usize>,
    inc: Vec<Vec<usize>>,
}

impl<'a> Subgraph<'a> {
    /// The graph this is a subgraph of.
    pub closed spec fn spec_graph(&self) -> &'a Static {
        self.g
    }

    /// The vertices.
    pub closed spec fn spec_vertices(&self) -> Seq<usize> {
        self.vertices@
    }

    /// The edges.
    pub closed spec fn spec_edges(&self) -> Seq<usize> {
        self.edges@
    }

    /// The out-edges of `v`.
    pub closed spec fn spec_out_edges(&self, v: int) -> Seq<usize> {
        self.inc@[v]@
    }

    /// The table of out-edges has a row for each vertex of the graph.
    pub closed spec fn wf(&self) -> bool {
        &&& self.inc@.len() == self.g.spec_num_vertices()
        &&& forall|w: int, k: int|
            0 <= w < self.inc@.len() && 0 <= k < self.inc@[w]@.len() ==> self.g.has_edge(
                #[trigger] self.inc@[w]@[k] as int,
            )
    }

    /// Every out-edge of the subgraph is an edge of the graph.
    pub proof fn lemma_out_edges_in_graph(&self, v: int)
        requires
            self.wf(),
            0 <= v < self.spec_graph().spec_num_vertices(),
        ensures
            forall|k: int|
                0 <= k < self.spec_out_edges(v).len() ==> self.spec_graph().has_edge(
                    #[trigger] self.spec_out_edges(v)[k] as int,
                ),
    {
        assert forall|k: int| 0 <= k < self.spec_out_edges(v).len() implies self.spec_graph().has_edge(
            #[trigger] self.spec_out_edges(v)[k] as int,
        ) by {
            assert(self.spec_out_edges(v)[k] == self.inc@[v]@[k]);
        }
    }

    /// The number of vertices.
    pub fn num_vertices(&self) -> (r: usize)
        ensures
            r == self.spec_vertices().len(),
    {
        self.vertices.len()
    }

    /// The vertices.
    pub fn vertices(&self) -> (r: Vec<usize>)
        ensures
            r@ == self.spec_vertices(),
    {
        self.vertices.clone()
    }

    /// The number of edges.
    pub fn num_edges(&self) -> (r: usize)
        ensures
            r == self.spec_edges().len(),
    {
        self.edges.len()
    }

    /// The edges.
    pub fn edges(&self) -> (r: Vec<usize>)
        ensures
            r@ == self.spec_edges(),
    {
        self.edges.clone()
    }

    /// The number of out-edges of `v`.
    pub fn out_degree(&self, v: usize) -> (r: usize)
        requires
            self.wf(),
            v < self.spec_graph().spec_num_vertices(),
        ensures
            r == self.spec_out_edges(v as int).len(),
    {
        self.inc[v].len()
    }

    /// The out-edges of `v`.
    pub fn out_edges(&self, v: usize) -> (r: Vec<usize>)
        requires
            self.wf(),
            v < self.spec_graph().spec_num_vertices(),
        ensures
            r@ == self.spec_out_edges(v as int),
    {
        self.inc[v].clone()
    }

    /// The out-neighbors of `v`: the targets of its out-edges, in order.
    pub fn out_neighbors(&self, v: usize) -> (r: Vec<usize>)
        requires
            self.wf(),
            self.spec_graph().wf(),
            v < self.spec_graph().spec_num_vertices(),
        ensures
            r@.len() == self.spec_out_edges(v as int).len(),
            forall|k: int|
                0 <= k < r@.len() ==> #[trigger] r@[k] == self.spec_graph().spec_target(
                    self.spec_out_edges(v as int)[k] as int,
                ),
    {
        proof {
            self.lemma_out_edges_in_graph(v as int);
        }
        let out = &self.inc[v];
        let mut r: Vec<usize> = Vec::new();
        let mut k: usize = 0;
        while k < out.len()
            invariant
                self.spec_graph().wf(),
                out@ == self.spec_out_edges(v as int),
                forall|j: int|
                    0 <= j < self.spec_out_edges(v as int).len() ==> self.spec_graph().has_edge(
                        #[trigger] self.spec_out_edges(v as int)[j] as int,
                    ),
                k <= out@.len(),
                r@.len() == k,
                forall|j: int| 0 <= j < k ==> #[trigger] r@[j] == self.spec_graph().spec_target(out@[j] as int),
            decreases out@.len() - k,
        {
            r.push(self.g.target(out[k]));
            k += 1;
        }
        r
    }
}

/// Adds `x` to the vertices `d`, the distinct elements of `s`, unless it is there already.
fn note_vertex(vin: &mut Vec<bool>, d: &mut Vec<usize>, x: usize, Ghost(s): Ghost<Seq<usize>>)
    requires
        x < old(vin)@.len(),
        old(vin)@.len() <= usize::MAX,
        old(d)@ == dedup(s),
        forall|y: int| 0 <= y < old(vin)@.len() ==> (#[trigger] old(vin)@[y] <==> old(d)@.contains(y as usize)),
    ensures
        final(vin)@.len() == old(vin)@.len(),
        final(d)@ == dedup(s.push(x)),
        forall|y: int| 0 <= y < final(vin)@.len() ==> (#[trigger] final(vin)@[y] <==> final(d)@.contains(y as usize)),
{
    let ghost d0 = d@;
    proof {
        assert(s.push(x).drop_last() =~= s);
    }
    if !vin[x] {
        vin.set(x, true);
        d.push(x);
        proof {
            assert forall|y: int| 0 <= y < vin@.len() implies (#[trigger] vin@[y] <==> d@.contains(y as usize)) by {
                if y == x {
                    assert(d@[d0.len() as int] == x);
                } else {
                    if d@.contains(y as usize) {
                        let k = choose|k: int| 0 <= k < d@.len() && d@[k] == y as usize;
                        assert(k < d0.len());
                        assert(d0[k] == y);
                    }
                    if d0.contains(y as usize) {
                        let k = choose|k: int| 0 <= k < d0.len() && d0[k] == y as usize;
                        assert(d@[k] == y);
                    }
                }
            }
        }
    }
}

/// `n` empty lists.
fn empty_lists(n: usize) -> (r: Vec<Vec<usize>>)
    ensures
        r@.len() == n,
        forall|i: int| 0 <= i < n ==> (#[trigger] r@[i])@ == Seq::<usize>::empty(),
{
    let mut r: Vec<Vec<usize>> = Vec::new();
    let mut i: usize = 0;
    while i < n
        invariant
            i <= n,
            r@.len() == i,
            forall|k: int| 0 <= k < i ==> (#[trigger] r@[k])@ == Seq::<usize>::empty(),
        decreases n - i,
    {
        r.push(Vec::new());
        i += 1;
    }
    r
}

/// The subgraph with the edges `edges` of the undirected graph `g` and the vertices they
/// touch, in the order in which they are first touched.
pub fn edge_induced_subgraph<'a>(g: &'a Static, edges: Vec<usize>) -> (s: Subgraph<'a>)
    requires
        g.wf(),
        !g.spec_directed() || edges@.len() == 0,
        forall|k: int| 0 <= k < edges@.len() ==> g.has_edge(#[trigger] edges@[k] as int),
    ensures
        s.wf(),
        s.spec_graph() == g,
        s.spec_edges() == edges@,
        s.spec_vertices() == dedup(ends_of(g, edges@)),
        forall|w: int| 0 <= w < g.spec_num_vertices() ==> #[trigger] s.spec_out_edges(w) == inc_of(g, edges@, w),
{
    let n = g.num_vertices();
    proof {
        g.lemma_num_vertices();
    }
    let mut vin = vec_of(false, n);
    let mut vertices: Vec<usize> = Vec::new();
    let mut inc = empty_lists(n);
    let m = edges.len();
    let mut i: usize = 0;
    while i < m
        invariant
            g.wf(),
            !g.spec_directed() || m == 0,
            n == g.spec_num_vertices(),
            n < usize::MAX,
            m == edges@.len(),
            forall|k: int| 0 <= k < edges@.len() ==> g.has_edge(#[trigger] edges@[k] as int),
            i <= m,
            vin@.len() == n,
            inc@.len() == n,
            vertices@ == dedup(ends_of(g, edges@.take(i as int))),
            forall|x: int| 0 <= x < n ==> (#[trigger] vin@[x] <==> vertices@.contains(x as usize)),
            forall|w: int| 0 <= w < n ==> (#[trigger] inc@[w])@ == inc_of(g, edges@.take(i as int), w),
        decreases m - i,
    {
        let e = edges[i];
        let (u, v) = g.ends(e);
        let ghost es = edges@.take(i as int);
        let ghost es1 = edges@.take(i + 1);
        proof {
            assert(es1.drop_last() =~= es);
            assert(es1.last() == e);
            lemma_ends_of_push(g, es, e);
            assert(es1 =~= es.push(e));
        }
        note_vertex(&mut vin, &mut vertices, u, Ghost(ends_of(g, es)));
        note_vertex(&mut vin, &mut vertices, v, Ghost(ends_of(g, es).push(u)));
        proof {
            assert(ends_of(g, es1) =~= ends_of(g, es).push(u).push(v));
        }
        let r = g.reverse(e);
        let ghost inc0 = inc@;
        inc[u].push(e);
        let ghost inc1 = inc@;
        inc[v].push(r);
        proof {
            assert forall|w: int| 0 <= w < n implies (#[trigger] inc@[w])@ == inc_of(g, es1, w) by {
                assert(inc_of(g, es1, w) == {
                    let p = inc_of(g, es, w);
                    let p1 = if u == w { p.push(e) } else { p };
                    if v == w { p1.push(r) } else { p1 }
                });
                if w != u && w != v {
                    assert(inc@[w] == inc0[w]);
                } else if w == u && w != v {
                    assert(inc@[w] == inc1[w]);
                } else if w == v && w != u {
                    assert(inc1[w] == inc0[w]);
                }
            }
        }
        i += 1;
    }
    proof {
        assert(edges@.take(m as int) =~= edges@);
    }
    proof {
        assert forall|w: int, k: int| 0 <= w < inc@.len() && 0 <= k < inc@[w]@.len() implies g.has_edge(
            #[trigger] inc@[w]@[k] as int,
        ) by {
            lemma_inc_of_edges(g, edges@, w);
        }
    }
    Subgraph { g, vertices, edges, inc }
}

proof fn lemma_ends_of_push(g: &Static, es: Seq<usize>, e: usize)
    ensures
        ends_of(g, es.push(e)) =~= ends_of(g, es).push(g.spec_source(e as int)).push(g.spec_target(e as int)),
{
    let a = ends_of(g, es.push(e));
    let b = ends_of(g, es).push(g.spec_source(e as int)).push(g.spec_target(e as int));
    assert forall|k: int| 0 <= k < a.len() implies a[k] == b[k] by {
        if k < 2 * es.len() {
            assert(es.push(e)[k / 2] == es[k / 2]);
        }
    }
}

/// The subgraph of `g` with the vertices `vertices` and the edges of `g` between them: for
/// each vertex in turn, its out-edges into the vertices, each edge kept once, by the handle
/// met first.
pub fn induced_subgraph<'a>(g: &'a Static, vertices: Vec<usize>) -> (s: Subgraph<'a>)
    requires
        g.wf(),
        forall|k: int| 0 <= k < vertices@.len() ==> #[trigger] vertices@[k] < g.spec_num_vertices(),
    ensures
        s.wf(),
        s.spec_graph() == g,
        s.spec_vertices() == vertices@,
        s.spec_edges() == first_by_index(g, out_edges_into(g, vertices@, vertices@.to_set())),
        forall|w: int|
            0 <= w < g.spec_num_vertices() ==> #[trigger] s.spec_out_edges(w) == inc_into(
                g,
                vertices@,
                vertices@.to_set(),
                w,
            ),
{
    let n = g.num_vertices();
    let mut vs = vec_of(false, n);
    let mut inc = empty_lists(n);
    let mut edges: Vec<usize> = Vec::new();
    let mut j: usize = 0;
    while j < vertices.len()
        invariant
            n == g.spec_num_vertices(),
            vs@.len() == n,
            j <= vertices@.len(),
            forall|k: int| 0 <= k < vertices@.len() ==> #[trigger] vertices@[k] < n,
            forall|x: int| 0 <= x < n ==> (#[trigger] vs@[x] <==> vertices@.take(j as int).contains(x as usize)),
        decreases vertices@.len() - j,
    {
        let v = vertices[j];
        vs.set(v, true);
        proof {
            let t0 = vertices@.take(j as int);
            let t1 = vertices@.take(j + 1);
            assert(t1 =~= t0.push(v));
            assert forall|x: int| 0 <= x < n implies (#[trigger] vs@[x] <==> t1.contains(x as usize)) by {
                if t1.contains(x as usize) && x != v {
                    let k = choose|k: int| 0 <= k < t1.len() && t1[k] == x as usize;
                    assert(t0[k] == x);
                }
                if t0.contains(x as usize) {
                    let k = choose|k: int| 0 <= k < t0.len() && t0[k] == x as usize;
                    assert(t1[k] == x);
                }
                if x == v {
                    assert(t1[j as int] == v);
                }
            }
        }
        j += 1;
    }
    let ghost vset = vertices@.to_set();
    proof {
        assert(vertices@.take(vertices@.len() as int) =~= vertices@);
        assert forall|x: int| 0 <= x < n implies (#[trigger] vs@[x] <==> vset.contains(x as usize)) by {
        }
    }
    let mut a: usize = 0;
    proof {
        assert(vertices@.take(0) =~= Seq::<usize>::empty());
    }
    while a < vertices.len()
        invariant
            g.wf(),
            n == g.spec_num_vertices(),
            a <= vertices@.len(),
            forall|k: int| 0 <= k < vertices@.len() ==> #[trigger] vertices@[k] < n,
            vs@.len() == n,
            inc@.len() == n,
            forall|x: int| 0 <= x < n ==> (#[trigger] vs@[x] <==> vset.contains(x as usize)),
            edges@ == first_by_index(g, out_edges_into(g, vertices@.take(a as int), vset)),
            forall|w: int| 0 <= w < n ==> (#[trigger] inc@[w])@ == inc_into(g, vertices@.take(a as int), vset, w),
        decreases vertices@.len() - a,
    {
        let u = vertices[a];
        let ghost before = out_edges_into(g, vertices@.take(a as int), vset);
        let ghost inc0 = inc@;
        let d = g.out_degree(u);
        let mut k: usize = 0;
        proof {
            assert(g.spec_out_edges(u as int).take(0) =~= Seq::<usize>::empty());
            assert(before + Seq::<usize>::empty() =~= before);
            assert forall|w: int| 0 <= w < n implies (#[trigger] inc@[w])@ == inc0[w]@ + (if w == u {
                into_set(g, g.spec_out_edges(u as int).take(0), vset)
            } else {
                Seq::<usize>::empty()
            }) by {
                assert(inc0[w]@ + Seq::<usize>::empty() =~= inc0[w]@);
            }
        }
        while k < d
            invariant
                g.wf(),
                n == g.spec_num_vertices(),
                u < n,
                k <= d,
                d == g.spec_out_edges(u as int).len(),
                vs@.len() == n,
                inc@.len() == n,
                forall|x: int| 0 <= x < n ==> (#[trigger] vs@[x] <==> vset.contains(x as usize)),
                edges@ == first_by_index(g, before + into_set(g, g.spec_out_edges(u as int).take(k as int), vset)),
                forall|w: int|
                    0 <= w < n ==> (#[trigger] inc@[w])@ == inc0[w]@ + (if w == u {
                        into_set(g, g.spec_out_edges(u as int).take(k as int), vset)
                    } else {
                        Seq::<usize>::empty()
                    }),
            decreases d - k,
        {
            let e = g.out_edge(u, k);
            let t = g.target(e);
            let ghost out = g.spec_out_edges(u as int);
            let ghost x0 = into_set(g, out.take(k as int), vset);
            proof {
                assert(out.take(k + 1).drop_last() =~= out.take(k as int));
                assert(out.take(k + 1).last() == e);
            }
            if vs[t] {
                let ghost inc1 = inc@;
                inc[u].push(e);
                proof {
                    assert forall|w: int| 0 <= w < n implies (#[trigger] inc@[w])@ == inc0[w]@ + (if w == u {
                        into_set(g, out.take(k + 1), vset)
                    } else {
                        Seq::<usize>::empty()
                    }) by {
                        if w == u {
                            assert(inc0[w]@ + x0.push(e) =~= (inc0[w]@ + x0).push(e));
                        } else {
                            assert(inc@[w] == inc1[w]);
                        }
                    }
                    assert((before + x0.push(e)).drop_last() =~= before + x0);
                }
                if !find_index(g, &edges, e) {
                    edges.push(e);
                }
            } else {
                proof {
                    assert(into_set(g, out.take(k + 1), vset) == x0);
                }
            }
            k += 1;
        }
        proof {
            let out = g.spec_out_edges(u as int);
            assert(out.take(d as int) =~= out);
            let t1 = vertices@.take(a + 1);
            assert(t1.drop_last() =~= vertices@.take(a as int));
            assert(t1.last() == u);
        }
        a += 1;
    }
    proof {
        assert(vertices@.take(vertices@.len() as int) =~= vertices@);
    }
    proof {
        assert forall|w: int, k: int| 0 <= w < inc@.len() && 0 <= k < inc@[w]@.len() implies g.has_edge(
            #[trigger] inc@[w]@[k] as int,
        ) by {
            lemma_inc_into_edges(g, vertices@, vertices@.to_set(), w);
        }
    }
    Subgraph { g, vertices, edges, inc }
}


/// The subgraph of the undirected graph `g` with all its vertices and the edges `edges`.
pub fn spanning_subgraph<'a>(g: &'a Static, edges: Vec<usize>) -> (s: Subgraph<'a>)
    requires
        g.wf(),
        !g.spec_directed() || edges@.len() == 0,
        forall|k: int| 0 <= k < edges@.len() ==> g.has_edge(#[trigger] edges@[k] as int),
    ensures
        s.wf(),
        s.spec_graph() == g,
        s.spec_edges() == edges@,
        s.spec_vertices() == Seq::new(g.spec_num_vertices(), |i: int| i as usize),
        forall|w: int| 0 <= w < g.spec_num_vertices() ==> #[trigger] s.spec_out_edges(w) == inc_of(g, edges@, w),
{
    let vertices = g.vertices();
    let n = g.num_vertices();
    let mut inc = empty_lists(n);
    let m = edges.len();
    let mut i: usize = 0;
    while i < m
        invariant
            g.wf(),
            !g.spec_directed() || m == 0,
            n == g.spec_num_vertices(),
            m == edges@.len(),
            forall|k: int| 0 <= k < edges@.len() ==> g.has_edge(#[trigger] edges@[k] as int),
            i <= m,
            inc@.len() == n,
            forall|w: int| 0 <= w < n ==> (#[trigger] inc@[w])@ == inc_of(g, edges@.take(i as int), w),
        decreases m - i,
    {
        let e = edges[i];
        let (u, v) = g.ends(e);
        let ghost es = edges@.take(i as int);
        let ghost es1 = edges@.take(i + 1);
        proof {
            assert(es1.drop_last() =~= es);
            assert(es1.last() == e);
        }
        let r = g.reverse(e);
        let ghost inc0 = inc@;
        inc[u].push(e);
        let ghost inc1 = inc@;
        inc[v].push(r);
        proof {
            assert forall|w: int| 0 <= w < n implies (#[trigger] inc@[w])@ == inc_of(g, es1, w) by {
                if w != u && w != v {
                    assert(inc@[w] == inc0[w]);
                } else if w == u && w != v {
                    assert(inc@[w] == inc1[w]);
                } else if w == v && w != u {
                    assert(inc1[w] == inc0[w]);
                }
            }
        }
        i += 1;
    }
    proof {
        assert(edges@.take(m as int) =~= edges@);
    }
    proof {
        assert forall|w: int, k: int| 0 <= w < inc@.len() && 0 <= k < inc@[w]@.len() implies g.has_edge(
            #[trigger] inc@[w]@[k] as int,
        ) by {
            lemma_inc_of_edges(g, edges@, w);
        }
    }
    Subgraph { g, vertices, edges, inc }
}

/// The position of the first element of `s` that names the same edge as `value`.
pub open spec fn first_same_edge(directed: bool, s: Seq<usize>, value: usize) -> int
    decreases s.len(),
{
    if s.len() == 0 {
        -1
    } else {
        let p = first_same_edge(directed, s.drop_last(), value);
        if p >= 0 {
            p
        } else if index_of(directed, s.last() as int) == index_of(directed, value as int) {
            s.len() - 1
        } else {
            -1
        }
    }
}

/// `s` without its element at `i`, whose place the last element takes.
pub open spec fn swap_removed(s: Seq<usize>, i: int) -> Seq<usize> {
    s.update(i, s.last()).drop_last()
}

/// Removes the first element of `vec` that names the same edge as `value`, putting the last
/// element in its place; tells whether there was one.
pub fn vec_find_swap_remove(vec: &mut Vec<usize>, value: usize, directed: bool) -> (r: bool)
    ensures
        r == (first_same_edge(directed, old(vec)@, value) >= 0),
        r ==> final(vec)@ == swap_removed(old(vec)@, first_same_edge(directed, old(vec)@, value)),
        !r ==> final(vec)@ == old(vec)@,
{
    let n = vec.len();
    let mut i: usize = 0;
    let key = if directed { value } else { value / 2 };
    while i < n
        invariant
            i <= n,
            n == vec@.len(),
            vec@ == old(vec)@,
            key == index_of(directed, value as int),
            first_same_edge(directed, vec@.take(i as int), value) == -1,
        decreases n - i,
    {
        let x = vec[i];
        let kx = if directed { x } else { x / 2 };
        proof {
            let t = vec@.take(i + 1);
            assert(t.drop_last() =~= vec@.take(i as int));
            assert(t.last() == x);
        }
        if kx == key {
            proof {
                lemma_first_same_edge_prefix(directed, vec@, value, i as int);
            }
            vec.swap_remove(i);
            proof {
                assert(vec@ =~= swap_removed(old(vec)@, i as int));
            }
            return true;
        }
        i += 1;
    }
    proof {
        assert(vec@.take(n as int) =~= vec@);
    }
    false
}

proof fn lemma_first_same_edge_prefix(directed: bool, s: Seq<usize>, value: usize, i: int)
    requires
        0 <= i < s.len(),
        first_same_edge(directed, s.take(i + 1), value) == i,
    ensures
        first_same_edge(directed, s, value) == i,
    decreases s.len(),
{
    if s.len() > i + 1 {
        assert(s.drop_last().take(i + 1) =~= s.take(i + 1));
        lemma_first_same_edge_prefix(directed, s.drop_last(), value, i);
    } else {
        assert(s.take(i + 1) =~= s);
    }
}

/// The out-edges `p` of `w` after the edge `e` is added: `e` when it leaves `w`, then, for an
/// undirected edge, its reverse when it enters `w`.
pub open spec fn add_at(g: &Static, p: Seq<usize>, e: usize, w: int) -> Seq<usize> {
    let p1 = if g.spec_source(e as int) == w {
        p.push(e)
    } else {
        p
    };
    if !g.spec_directed() && g.spec_target(e as int) == w {
        p1.push(added_at(false, e as int) as usize)
    } else {
        p1
    }
}

/// The out-edges `p` of `w` after the edges `es` are added, one after the other.
pub open spec fn add_all_at(g: &Static, p: Seq<usize>, es: Seq<usize>, w: int) -> Seq<usize>
    decreases es.len(),
{
    if es.len() == 0 {
        p
    } else {
        add_at(g, add_all_at(g, p, es.drop_last(), w), es.last(), w)
    }
}

proof fn lemma_add_all_one(g: &Static, p: Seq<usize>, e: usize, w: int)
    ensures
        add_all_at(g, p, seq![e], w) == add_at(g, p, e, w),
        entries_at(g, seq![e], w) == (if g.spec_source(e as int) == w {
            1nat
        } else {
            0nat
        }) + (if !g.spec_directed() && g.spec_target(e as int) == w {
            1nat
        } else {
            0nat
        }),
{
    let es = seq![e];
    assert(es.drop_last() =~= Seq::<usize>::empty());
    assert(es.last() == e);
    assert(add_all_at(g, p, es.drop_last(), w) == p);
    assert(entries_at(g, es.drop_last(), w) == 0);
}

/// The out-edges `p` of `w` after the edge `e` is removed: from the source of `e` and, for an
/// undirected edge, from its target.
pub open spec fn removed_at(g: &Static, p: Seq<usize>, e: usize, w: int) -> Seq<usize> {
    let p1 = if g.spec_source(e as int) == w {
        removed_same(g.spec_directed(), p, e)
    } else {
        p
    };
    if !g.spec_directed() && g.spec_target(e as int) == w {
        removed_same(g.spec_directed(), p1, e)
    } else {
        p1
    }
}

/// How many entries the edges `es` make in the out-edges of `w`: one for each edge leaving
/// `w` and, in an undirected graph, one for each edge entering `w`.
pub open spec fn entries_at(g: &Static, es: Seq<usize>, w: int) -> nat
    decreases es.len(),
{
    if es.len() == 0 {
        0
    } else {
        entries_at(g, es.drop_last(), w) + (if g.spec_source(es.last() as int) == w {
            1nat
        } else {
            0nat
        }) + (if !g.spec_directed() && g.spec_target(es.last() as int) == w {
            1nat
        } else {
            0nat
        })
    }
}

/// Adding edges to the out-edges `p` of `w` keeps `p` in front and appends one entry for each
/// end of an added edge at `w`: each added edge leaving `w` is among the out-edges of `w`,
/// and in an undirected graph so is the reverse of each added edge entering `w`; every entry
/// appended is one of these.
pub proof fn law_add_all_at(g: &Static, p: Seq<usize>, es: Seq<usize>, w: int)
    ensures
        p.is_prefix_of(add_all_at(g, p, es, w)),
        add_all_at(g, p, es, w).len() == p.len() + entries_at(g, es, w),
        forall|k: int|
            0 <= k < es.len() && g.spec_source(es[k] as int) == w ==> add_all_at(g, p, es, w).contains(#[trigger] es[k]),
        forall|k: int|
            0 <= k < es.len() && !g.spec_directed() && g.spec_target(es[k] as int) == w ==> add_all_at(
                g,
                p,
                es,
                w,
            ).contains(added_at(false, #[trigger] es[k] as int) as usize),
        forall|j: int|
            p.len() <= j < add_all_at(g, p, es, w).len() ==> exists|k: int|
                0 <= k < es.len() && ((#[trigger] add_all_at(g, p, es, w)[j] == es[k] && g.spec_source(es[k] as int)
                    == w) || (!g.spec_directed() && add_all_at(g, p, es, w)[j] == added_at(false, es[k] as int) as usize
                    && g.spec_target(es[k] as int) == w)),
    decreases es.len(),
{
    let r = add_all_at(g, p, es, w);
    if es.len() == 0 {
        assert(p.subrange(0, p.len() as int) =~= p);
    } else {
        let es0 = es.drop_last();
        let e = es.last();
        law_add_all_at(g, p, es0, w);
        let q = add_all_at(g, p, es0, w);
        let q1 = if g.spec_source(e as int) == w {
            q.push(e)
        } else {
            q
        };
        assert(r == add_at(g, q, e, w));
        assert forall|j: int| 0 <= j < q.len() implies r[j] == q[j] by {
            assert(q1[j] == q[j]);
        }
        assert(r.subrange(0, p.len() as int) =~= p) by {
            assert(q.subrange(0, p.len() as int) =~= p);
        }
        assert forall|k: int|
            0 <= k < es.len() && g.spec_source(es[k] as int) == w implies r.contains(#[trigger] es[k]) by {
            if k < es.len() - 1 {
                assert(es[k] == es0[k]);
                let j = choose|j: int| 0 <= j < q.len() && q[j] == es0[k];
                assert(r[j] == q[j]);
            } else {
                assert(q1[q.len() as int] == e);
                assert(r[q.len() as int] == e);
            }
        }
        assert forall|k: int|
            0 <= k < es.len() && !g.spec_directed() && g.spec_target(es[k] as int) == w implies r.contains(
            added_at(false, #[trigger] es[k] as int) as usize,
        ) by {
            if k < es.len() - 1 {
                assert(es[k] == es0[k]);
                let j = choose|j: int| 0 <= j < q.len() && q[j] == added_at(false, es0[k] as int) as usize;
                assert(r[j] == q[j]);
            } else {
                assert(r[q1.len() as int] == added_at(false, e as int) as usize);
            }
        }
        assert forall|j: int| p.len() <= j < r.len() implies exists|k: int|
            0 <= k < es.len() && ((#[trigger] r[j] == es[k] && g.spec_source(es[k] as int) == w) || (!g.spec_directed()
                && r[j] == added_at(false, es[k] as int) as usize && g.spec_target(es[k] as int) == w)) by {
            if j < q.len() {
                assert(r[j] == q[j]);
                let k = choose|k: int|
                    0 <= k < es0.len() && ((#[trigger] q[j] == es0[k] && g.spec_source(es0[k] as int) == w) || (
                    !g.spec_directed() && q[j] == added_at(false, es0[k] as int) as usize && g.spec_target(es0[k] as int)
                        == w));
                assert(es[k] == es0[k]);
            } else if j < q1.len() {
                assert(r[j] == e);
                assert(es[es.len() - 1] == e);
            } else {
                assert(r[j] == added_at(false, e as int) as usize);
                assert(es[es.len() - 1] == e);
            }
        }
    }
}

/// A subgraph with all the vertices of a graph and edges that can be added and removed.
pub struct SpanningSubgraph<'a> {
    g: &'a Static,
    edges: Vec<usize>,
    out_edges: Vec<Vec<usize>>,
}

impl<'a> SpanningSubgraph<'a> {
    /// The graph this is a subgraph of.
    pub closed spec fn spec_graph(&self) -> &'a Static {
        self.g
    }

    /// The edges.
    pub closed spec fn spec_edges(&self) -> Seq<usize> {
        self.edges@
    }

    /// The out-edges of `v`.
    pub closed spec fn spec_out_edges(&self, v: int) -> Seq<usize> {
        self.out_edges@[v]@
    }

    /// The table of out-edges has a row for each vertex.
    pub closed spec fn wf(&self) -> bool {
        &&& self.g.wf()
        &&& self.out_edges@.len() == self.g.spec_num_vertices()
    }

    /// The subgraph of `g` without edges.
    pub fn new(g: &'a Static) -> (s: Self)
        requires
            g.wf(),
        ensures
            s.wf(),
            s.spec_graph() == g,
            s.spec_edges() == Seq::<usize>::empty(),
            forall|v: int| 0 <= v < g.spec_num_vertices() ==> #[trigger] s.spec_out_edges(v) == Seq::<usize>::empty(),
    {
        SpanningSubgraph { g, edges: Vec::new(), out_edges: empty_lists(g.num_vertices()) }
    }

    /// Adds the edge `e`: to the out-edges of its source and, when undirected, its reverse to
    /// those of its target.
    pub fn add_edge(&mut self, e: usize)
        requires
            old(self).wf(),
            old(self).spec_graph().has_edge(e as int),
        ensures
            final(self).wf(),
            final(self).spec_graph() == old(self).spec_graph(),
            final(self).spec_edges() == old(self).spec_edges().push(e),
            forall|w: int|
                0 <= w < old(self).spec_graph().spec_num_vertices() ==> #[trigger] final(self).spec_out_edges(w) == {
                    let g = old(self).spec_graph();
                    let p = old(self).spec_out_edges(w);
                    let p1 = if g.spec_source(e as int) == w {
                        p.push(e)
                    } else {
                        p
                    };
                    if !g.spec_directed() && g.spec_target(e as int) == w {
                        p1.push(added_at(false, e as int) as usize)
                    } else {
                        p1
                    }
                },
            forall|w: int|
                0 <= w < old(self).spec_graph().spec_num_vertices() ==> #[trigger] final(self).spec_out_edges(w) == add_at(
                    old(self).spec_graph(),
                    old(self).spec_out_edges(w),
                    e,
                    w,
                ),
    {
        let (u, v) = self.g.ends(e);
        self.edges.push(e);
        let ghost o0 = self.out_edges@;
        self.out_edges[u].push(e);
        let ghost o1 = self.out_edges@;
        if self.g.is_undirected_edge(e) {
            let r = self.g.get_reverse(e).unwrap();
            self.out_edges[v].push(r);
        }
        proof {
            assert forall|w: int| 0 <= w < self.g.spec_num_vertices() implies #[trigger] self.spec_out_edges(w) == {
                let g = old(self).spec_graph();
                let p = old(self).spec_out_edges(w);
                let p1 = if g.spec_source(e as int) == w {
                    p.push(e)
                } else {
                    p
                };
                if !g.spec_directed() && g.spec_target(e as int) == w {
                    p1.push(added_at(false, e as int) as usize)
                } else {
                    p1
                }
            } by {
                if w != u {
                    assert(o1[w] == o0[w]);
                }
                if self.g.spec_directed() || w != v {
                    assert(self.out_edges@[w] == o1[w]);
                }
            }
        }
    }

    /// Adds each edge of `edges`, in order.
    pub fn add_edges(&mut self, edges: &Vec<usize>)
        requires
            old(self).wf(),
            forall|k: int| 0 <= k < edges@.len() ==> old(self).spec_graph().has_edge(#[trigger] edges@[k] as int),
        ensures
            final(self).wf(),
            final(self).spec_graph() == old(self).spec_graph(),
            final(self).spec_edges() == old(self).spec_edges() + edges@,
            Self::edges_added(old(self), final(self), edges@),
            forall|w: int|
                0 <= w < old(self).spec_graph().spec_num_vertices() ==> old(self).spec_out_edges(w).is_prefix_of(
                    #[trigger] final(self).spec_out_edges(w),
                ) && final(self).spec_out_edges(w).len() == old(self).spec_out_edges(w).len() + entries_at(
                    old(self).spec_graph(),
                    edges@,
                    w,
                ),
            forall|w: int, k: int|
                0 <= w < old(self).spec_graph().spec_num_vertices() && 0 <= k < edges@.len()
                    && old(self).spec_graph().spec_source(edges@[k] as int) == w
                    ==> #[trigger] final(self).spec_out_edges(w).contains(#[trigger] edges@[k]),
            forall|w: int, k: int|
                0 <= w < old(self).spec_graph().spec_num_vertices() && 0 <= k < edges@.len()
                    && !old(self).spec_graph().spec_directed() && old(self).spec_graph().spec_target(edges@[k] as int) == w
                    ==> #[trigger] final(self).spec_out_edges(w).contains(added_at(false, #[trigger] edges@[k] as int) as usize),
    {
        let ghost s0 = *self;
        let mut i: usize = 0;
        while i < edges.len()
            invariant
                self.wf(),
                self.spec_graph() == old(self).spec_graph(),
                s0 == *old(self),
                forall|k: int| 0 <= k < edges@.len() ==> old(self).spec_graph().has_edge(#[trigger] edges@[k] as int),
                i <= edges@.len(),
                self.spec_edges() == old(self).spec_edges() + edges@.take(i as int),
                forall|w: int|
                    0 <= w < old(self).spec_graph().spec_num_vertices() ==> #[trigger] self.spec_out_edges(w) == add_all_at(
                        old(self).spec_graph(),
                        old(self).spec_out_edges(w),
                        edges@.take(i as int),
                        w,
                    ),
            decreases edges@.len() - i,
        {
            let ghost pre = *self;
            self.add_edge(edges[i]);
            i += 1;
            proof {
                assert(old(self).spec_edges() + edges@.take(i as int) =~= (old(self).spec_edges() + edges@.take(
                    i - 1,
                )).push(edges@[i - 1]));
                assert(edges@.take(i as int).drop_last() =~= edges@.take(i - 1));
                assert(edges@.take(i as int).last() == edges@[i - 1]);
                assert forall|w: int| 0 <= w < old(self).spec_graph().spec_num_vertices() implies #[trigger] self.spec_out_edges(
                    w,
                ) == add_all_at(old(self).spec_graph(), old(self).spec_out_edges(w), edges@.take(i as int), w) by {
                    assert(self.spec_out_edges(w) == add_at(self.spec_graph(), pre.spec_out_edges(w), edges@[i - 1], w));
                }
            }
        }
        proof {
            assert(edges@.take(edges@.len() as int) =~= edges@);
            Self::law_add_edges(&s0, self, edges@);
        }
    }

    /// `new` is `old` with the edges `es` added one after the other.
    pub open spec fn edges_added(old: &Self, new: &Self, es: Seq<usize>) -> bool {
        &&& new.spec_graph() == old.spec_graph()
        &&& new.spec_edges() == old.spec_edges() + es
        &&& forall|w: int|
            0 <= w < old.spec_graph().spec_num_vertices() ==> #[trigger] new.spec_out_edges(w) == add_all_at(
                old.spec_graph(),
                old.spec_out_edges(w),
                es,
                w,
            )
    }

    /// After adding the edges `es`, the out-edges of each vertex are its old ones followed by
    /// one entry for each end of an added edge at it: every added edge is among the out-edges
    /// of its source and, when undirected, its reverse among those of its target.
    pub proof fn law_add_edges(old: &Self, new: &Self, es: Seq<usize>)
        requires
            Self::edges_added(old, new, es),
        ensures
            new.spec_edges() == old.spec_edges() + es,
            forall|w: int|
                0 <= w < old.spec_graph().spec_num_vertices() ==> old.spec_out_edges(w).is_prefix_of(
                    #[trigger] new.spec_out_edges(w),
                ) && new.spec_out_edges(w).len() == old.spec_out_edges(w).len() + entries_at(old.spec_graph(), es, w),
            forall|w: int, k: int|
                0 <= w < old.spec_graph().spec_num_vertices() && 0 <= k < es.len() && old.spec_graph().spec_source(
                    es[k] as int,
                ) == w ==> #[trigger] new.spec_out_edges(w).contains(#[trigger] es[k]),
            forall|w: int, k: int|
                0 <= w < old.spec_graph().spec_num_vertices() && 0 <= k < es.len() && !old.spec_graph().spec_directed()
                    && old.spec_graph().spec_target(es[k] as int) == w ==> #[trigger] new.spec_out_edges(w).contains(
                    added_at(false, #[trigger] es[k] as int) as usize,
                ),
    {
        assert forall|w: int| 0 <= w < old.spec_graph().spec_num_vertices() implies old.spec_out_edges(w).is_prefix_of(
            #[trigger] new.spec_out_edges(w),
        ) && new.spec_out_edges(w).len() == old.spec_out_edges(w).len() + entries_at(old.spec_graph(), es, w) by {
            law_add_all_at(old.spec_graph(), old.spec_out_edges(w), es, w);
        }
        assert forall|w: int, k: int|
            0 <= w < old.spec_graph().spec_num_vertices() && 0 <= k < es.len() && old.spec_graph().spec_source(
                es[k] as int,
            ) == w implies #[trigger] new.spec_out_edges(w).contains(#[trigger] es[k]) by {
            law_add_all_at(old.spec_graph(), old.spec_out_edges(w), es, w);
        }
        assert forall|w: int, k: int|
            0 <= w < old.spec_graph().spec_num_vertices() && 0 <= k < es.len() && !old.spec_graph().spec_directed()
                && old.spec_graph().spec_target(es[k] as int) == w implies #[trigger] new.spec_out_edges(w).contains(
            added_at(false, #[trigger] es[k] as int) as usize,
        ) by {
            law_add_all_at(old.spec_graph(), old.spec_out_edges(w), es, w);
        }
    }

    /// Removes every edge.
    pub fn clear_edges(&mut self)
        requires
            old(self).wf(),
        ensures
            final(self).wf(),
            final(self).spec_graph() == old(self).spec_graph(),
            final(self).spec_edges() == Seq::<usize>::empty(),
            forall|v: int| 0 <= v < old(self).spec_graph().spec_num_vertices() ==> #[trigger] final(self).spec_out_edges(v)
                == Seq::<usize>::empty(),
    {
        self.edges.clear();
        let n = self.g.num_vertices();
        let mut u: usize = 0;
        while u < n
            invariant
                self.wf(),
                self.spec_graph() == old(self).spec_graph(),
                n == self.g.spec_num_vertices(),
                self.spec_edges() == Seq::<usize>::empty(),
                u <= n,
                forall|v: int| 0 <= v < u ==> #[trigger] self.spec_out_edges(v) == Seq::<usize>::empty(),
            decreases n - u,
        {
            let ghost o0 = self.out_edges@;
            let ghost pre = *self;
            let mut row: Vec<usize> = Vec::new();
            std::mem::swap(&mut row, &mut self.out_edges[u]);
            proof {
                assert(self.out_edges@[u as int]@ == Seq::<usize>::empty());
                assert forall|v: int| 0 <= v < u + 1 implies #[trigger] self.spec_out_edges(v) == Seq::<usize>::empty() by {
                    if v < u {
                        assert(pre.spec_out_edges(v) == Seq::<usize>::empty());
                        assert(self.out_edges@[v] == o0[v]);
                    }
                }
            }
            u += 1;
        }
    }

    /// Removes the edge `e`: from the edges, from the out-edges of its source and, when
    /// undirected, from those of its target; each removal takes out the first handle of the
    /// same edge and puts the last one in its place.
    pub fn remove_edge(&mut self, e: usize)
        requires
            old(self).wf(),
            old(self).spec_graph().has_edge(e as int),
            first_same_edge(old(self).spec_graph().spec_directed(), old(self).spec_edges(), e) >= 0,
        ensures
            final(self).wf(),
            final(self).spec_graph() == old(self).spec_graph(),
            final(self).spec_edges() == swap_removed(
                old(self).spec_edges(),
                first_same_edge(old(self).spec_graph().spec_directed(), old(self).spec_edges(), e),
            ),
            forall|w: int|
                0 <= w < old(self).spec_graph().spec_num_vertices() ==> #[trigger] final(self).spec_out_edges(w) == {
                    let g = old(self).spec_graph();
                    let p = old(self).spec_out_edges(w);
                    let p1 = if g.spec_source(e as int) == w {
                        removed_same(g.spec_directed(), p, e)
                    } else {
                        p
                    };
                    if !g.spec_directed() && g.spec_target(e as int) == w {
                        removed_same(g.spec_directed(), p1, e)
                    } else {
                        p1
                    }
                },
            forall|w: int|
                0 <= w < old(self).spec_graph().spec_num_vertices() ==> #[trigger] final(self).spec_out_edges(w)
                    == removed_at(old(self).spec_graph(), old(self).spec_out_edges(w), e, w),
    {
        let (u, v) = self.g.ends(e);
        let directed = self.g.is_directed();
        let found = vec_find_swap_remove(&mut self.edges, e, directed);
        let ghost o0 = self.out_edges@;
        let _ = vec_find_swap_remove(&mut self.out_edges[u], e, directed);
        let ghost o1 = self.out_edges@;
        if self.g.is_undirected_edge(e) {
            let _ = vec_find_swap_remove(&mut self.out_edges[v], e, directed);
        }
        proof {
            assert forall|w: int| 0 <= w < self.g.spec_num_vertices() implies #[trigger] self.spec_out_edges(w) == {
                let g = old(self).spec_graph();
                let p = old(self).spec_out_edges(w);
                let p1 = if g.spec_source(e as int) == w {
                    removed_same(g.spec_directed(), p, e)
                } else {
                    p
                };
                if !g.spec_directed() && g.spec_target(e as int) == w {
                    removed_same(g.spec_directed(), p1, e)
                } else {
                    p1
                }
            } by {
                if w != u {
                    assert(o1[w] == o0[w]);
                }
                if self.g.spec_directed() || w != v {
                    assert(self.out_edges@[w] == o1[w]);
                }
            }
        }
    }

    /// Removes `old_e` and adds `new_e`.
    pub fn replace_edge(&mut self, old_e: usize, new_e: usize)
        requires
            old(self).wf(),
            old(self).spec_graph().has_edge(old_e as int),
            old(self).spec_graph().has_edge(new_e as int),
            first_same_edge(old(self).spec_graph().spec_directed(), old(self).spec_edges(), old_e) >= 0,
        ensures
            final(self).wf(),
            final(self).spec_graph() == old(self).spec_graph(),
            final(self).spec_edges() == swap_removed(
                old(self).spec_edges(),
                first_same_edge(old(self).spec_graph().spec_directed(), old(self).spec_edges(), old_e),
            ).push(new_e),
            Self::edge_replaced(old(self), final(self), old_e, new_e),
            forall|w: int|
                0 <= w < old(self).spec_graph().spec_num_vertices() ==> removed_at(
                    old(self).spec_graph(),
                    old(self).spec_out_edges(w),
                    old_e,
                    w,
                ).is_prefix_of(#[trigger] final(self).spec_out_edges(w)) && final(self).spec_out_edges(w).len()
                    == removed_at(old(self).spec_graph(), old(self).spec_out_edges(w), old_e, w).len() + entries_at(
                    old(self).spec_graph(),
                    seq![new_e],
                    w,
                ),
            final(self).spec_out_edges(old(self).spec_graph().spec_source(new_e as int) as int).contains(new_e),
            !old(self).spec_graph().spec_directed() ==> final(self).spec_out_edges(
                old(self).spec_graph().spec_target(new_e as int) as int,
            ).contains(added_at(false, new_e as int) as usize),
    {
        let ghost s0 = *self;
        self.remove_edge(old_e);
        let ghost s1 = *self;
        self.add_edge(new_e);
        proof {
            assert forall|w: int| 0 <= w < s0.spec_graph().spec_num_vertices() implies #[trigger] self.spec_out_edges(w)
                == add_at(s0.spec_graph(), removed_at(s0.spec_graph(), s0.spec_out_edges(w), old_e, w), new_e, w) by {
                assert(s1.spec_out_edges(w) == removed_at(s0.spec_graph(), s0.spec_out_edges(w), old_e, w));
            }
            Self::law_replace_edge(&s0, self, old_e, new_e);
        }
    }

    /// `new` is `old` with the edge `o` removed and then the edge `n` added.
    pub open spec fn edge_replaced(old: &Self, new: &Self, o: usize, n: usize) -> bool {
        &&& old.spec_graph().wf()
        &&& old.spec_graph().has_edge(n as int)
        &&& new.spec_graph() == old.spec_graph()
        &&& forall|w: int|
            0 <= w < old.spec_graph().spec_num_vertices() ==> #[trigger] new.spec_out_edges(w) == add_at(
                old.spec_graph(),
                removed_at(old.spec_graph(), old.spec_out_edges(w), o, w),
                n,
                w,
            )
    }

    /// Replacing the edge `o` by `n` leaves each vertex the out-edges it has once `o` is
    /// removed, followed by one entry for each end of `n` at it: `n` is among the out-edges of
    /// its source and, when undirected, its reverse among those of its target.
    pub proof fn law_replace_edge(old: &Self, new: &Self, o: usize, n: usize)
        requires
            Self::edge_replaced(old, new, o, n),
        ensures
            forall|w: int|
                0 <= w < old.spec_graph().spec_num_vertices() ==> removed_at(old.spec_graph(), old.spec_out_edges(w), o, w).is_prefix_of(
                    #[trigger] new.spec_out_edges(w),
                ) && new.spec_out_edges(w).len() == removed_at(old.spec_graph(), old.spec_out_edges(w), o, w).len()
                    + entries_at(old.spec_graph(), seq![n], w),
            new.spec_out_edges(old.spec_graph().spec_source(n as int) as int).contains(n),
            !old.spec_graph().spec_directed() ==> new.spec_out_edges(old.spec_graph().spec_target(n as int) as int).contains(
                added_at(false, n as int) as usize,
            ),
    {
        let g = old.spec_graph();
        assert(seq![n].drop_last() =~= Seq::<usize>::empty());
        assert(seq![n].last() == n);
        assert forall|w: int| 0 <= w < g.spec_num_vertices() implies removed_at(g, old.spec_out_edges(w), o, w).is_prefix_of(
            #[trigger] new.spec_out_edges(w),
        ) && new.spec_out_edges(w).len() == removed_at(g, old.spec_out_edges(w), o, w).len() + entries_at(g, seq![n], w) by {
            let m = removed_at(g, old.spec_out_edges(w), o, w);
            lemma_add_all_one(g, m, n, w);
            law_add_all_at(g, m, seq![n], w);
        }
        g.lemma_target_range(n as int);
        let u = g.spec_source(n as int) as int;
        let v = g.spec_target(n as int) as int;
        let mu = removed_at(g, old.spec_out_edges(u), o, u);
        lemma_add_all_one(g, mu, n, u);
        law_add_all_at(g, mu, seq![n], u);
        assert(seq![n][0] == n);
        if !g.spec_directed() {
            let mv = removed_at(g, old.spec_out_edges(v), o, v);
            lemma_add_all_one(g, mv, n, v);
            law_add_all_at(g, mv, seq![n], v);
        }
    }

    /// The edges.
    pub fn edges(&self) -> (r: Vec<usize>)
        ensures
            r@ == self.spec_edges(),
    {
        self.edges.clone()
    }

    /// The out-edges of `v`.
    pub fn out_edges(&self, v: usize) -> (r: Vec<usize>)
        requires
            self.wf(),
            v < self.spec_graph().spec_num_vertices(),
        ensures
            r@ == self.spec_out_edges(v as int),
    {
        self.out_edges[v].clone()
    }
}

/// `s` after removing the first handle of the same edge as `e`, if any.
pub open spec fn removed_same(directed: bool, s: Seq<usize>, e: usize) -> Seq<usize> {
    if first_same_edge(directed, s, e) >= 0 {
        swap_removed(s, first_same_edge(directed, s, e))
    } else {
        s
    }
}

} // verus!
