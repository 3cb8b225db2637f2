//! The checks that every graph passes, run on each kind of graph of the library.
use fera::adjset::{AdjSetDiGraph, AdjSetEdge, AdjSetGraph, DirectedEdge, UndirectedEdge};
use fera::graph::{Static, StaticBuilder};
use std::collections::{HashMap, HashSet};
use std::fmt::Debug;
use std::hash::Hash;

/// What the checks ask of a graph.
trait TestGraph {
    type V: Copy + Eq + Hash + Debug;
    type E: Copy + Debug;
    /// An edge with its direction forgotten where it has none, to compare and count edges.
    type Key: Eq + Hash + Debug;

    fn vertices(&self) -> Vec<Self::V>;
    fn num_vertices(&self) -> usize;
    fn edges(&self) -> Vec<Self::E>;
    fn num_edges(&self) -> usize;
    fn key(&self, e: Self::E) -> Self::Key;
    fn ends(&self, e: Self::E) -> (Self::V, Self::V);
    fn source(&self, e: Self::E) -> Self::V;
    fn target(&self, e: Self::E) -> Self::V;
    fn is_undirected_edge(&self, e: Self::E) -> bool;
    fn get_reverse(&self, e: Self::E) -> Option<Self::E>;
    fn out_neighbors(&self, u: Self::V) -> Vec<Self::V>;
    fn out_degree(&self, u: Self::V) -> usize;
    fn out_edges(&self, u: Self::V) -> Vec<Self::E>;
}

fn set<T: Eq + Hash>(v: Vec<T>) -> HashSet<T> {
    v.into_iter().collect()
}

/// The checks, on the graph that `new` builds, with its vertices and edges.
trait GraphTests {
    type G: TestGraph;

    fn new() -> (Self::G, Vec<<Self::G as TestGraph>::V>, Vec<<Self::G as TestGraph>::E>);

    fn vertices() {
        let (g, vertices, _) = Self::new();
        assert_eq!(vertices.len(), set(vertices.clone()).len(), "found repeated vertices");
        assert_eq!(vertices.len(), g.num_vertices());
        assert_eq!(set(vertices), set(g.vertices()));
    }

    fn edges() {
        let (g, _, edges) = Self::new();
        let keys: Vec<_> = edges.iter().map(|&e| g.key(e)).collect();
        assert_eq!(edges.len(), set(keys).len(), "found repeated edges");
        assert_eq!(edges.len(), g.num_edges());
        let mine: HashSet<_> = edges.iter().map(|&e| g.key(e)).collect();
        let theirs: HashSet<_> = g.edges().into_iter().map(|e| g.key(e)).collect();
        assert_eq!(mine, theirs);
    }

    fn ends() {
        let (g, _, edges) = Self::new();
        for e in edges {
            let (u, v) = g.ends(e);
            assert_eq!(u, g.source(e));
            assert_eq!(v, g.target(e));
        }
    }

    fn get_reverse() {
        let (g, _, edges) = Self::new();
        for e in edges {
            let (u, v) = g.ends(e);
            if g.is_undirected_edge(e) {
                let r = g.get_reverse(e).unwrap();
                assert_eq!(g.key(e), g.key(r));
                assert_eq!(v, g.source(r));
                assert_eq!(u, g.target(r));
                assert_eq!((v, u), g.ends(r));
            }
        }
    }

    fn out_neighbors() {
        let (g, vertices, edges) = Self::new();
        let mut n: HashMap<_, Vec<_>> = HashMap::new();
        let mut d: HashMap<_, usize> = HashMap::new();
        for e in edges {
            let (u, v) = g.ends(e);
            n.entry(u).or_default().push(v);
            *d.entry(u).or_default() += 1;
            if g.is_undirected_edge(e) {
                n.entry(v).or_default().push(u);
                *d.entry(v).or_default() += 1;
            }
        }
        for u in vertices {
            assert_eq!(set(n.get(&u).cloned().unwrap_or_default()), set(g.out_neighbors(u)));
            assert_eq!(d.get(&u).cloned().unwrap_or(0), g.out_degree(u));
        }
    }

    fn out_edges() {
        let (g, vertices, edges) = Self::new();
        let mut inc: HashMap<_, Vec<_>> = HashMap::new();
        for e in edges {
            let (u, v) = g.ends(e);
            inc.entry(u).or_default().push(g.ends(e));
            if g.is_undirected_edge(e) {
                let r = g.get_reverse(e).unwrap();
                inc.entry(v).or_default().push(g.ends(r));
            }
        }
        for u in vertices {
            let mut out = HashSet::new();
            for e in g.out_edges(u) {
                assert_eq!(u, g.source(e));
                assert!(out.insert(g.ends(e)), "found repeated out edge = {:?}", g.ends(e));
            }
            assert_eq!(set(inc.get(&u).cloned().unwrap_or_default()), out);
        }
    }
}

impl TestGraph for Static {
    type V = usize;
    type E = usize;
    type Key = usize;

    fn vertices(&self) -> Vec<usize> {
        Static::vertices(self)
    }
    fn num_vertices(&self) -> usize {
        Static::num_vertices(self)
    }
    fn edges(&self) -> Vec<usize> {
        Static::edges(self)
    }
    fn num_edges(&self) -> usize {
        Static::num_edges(self)
    }
    fn key(&self, e: usize) -> usize {
        self.edge_index(e)
    }
    fn ends(&self, e: usize) -> (usize, usize) {
        Static::ends(self, e)
    }
    fn source(&self, e: usize) -> usize {
        Static::source(self, e)
    }
    fn target(&self, e: usize) -> usize {
        Static::target(self, e)
    }
    fn is_undirected_edge(&self, e: usize) -> bool {
        Static::is_undirected_edge(self, e)
    }
    fn get_reverse(&self, e: usize) -> Option<usize> {
        Static::get_reverse(self, e)
    }
    fn out_neighbors(&self, u: usize) -> Vec<usize> {
        Static::out_neighbors(self, u)
    }
    fn out_degree(&self, u: usize) -> usize {
        Static::out_degree(self, u)
    }
    fn out_edges(&self, u: usize) -> Vec<usize> {
        Static::out_edges(self, u)
    }
}

impl TestGraph for AdjSetGraph {
    type V = u32;
    type E = UndirectedEdge;
    type Key = (u32, u32);

    fn vertices(&self) -> Vec<u32> {
        AdjSetGraph::vertices(self)
    }
    fn num_vertices(&self) -> usize {
        AdjSetGraph::num_vertices(self)
    }
    fn edges(&self) -> Vec<UndirectedEdge> {
        AdjSetGraph::edges(self)
    }
    fn num_edges(&self) -> usize {
        AdjSetGraph::num_edges(self)
    }
    fn key(&self, e: UndirectedEdge) -> (u32, u32) {
        (e.0.min(e.1), e.0.max(e.1))
    }
    fn ends(&self, e: UndirectedEdge) -> (u32, u32) {
        (e.source(), e.target())
    }
    fn source(&self, e: UndirectedEdge) -> u32 {
        AdjSetGraph::source(self, &e)
    }
    fn target(&self, e: UndirectedEdge) -> u32 {
        AdjSetGraph::target(self, &e)
    }
    fn is_undirected_edge(&self, _e: UndirectedEdge) -> bool {
        true
    }
    fn get_reverse(&self, e: UndirectedEdge) -> Option<UndirectedEdge> {
        AdjSetGraph::get_reverse(self, &e)
    }
    fn out_neighbors(&self, u: u32) -> Vec<u32> {
        AdjSetGraph::out_neighbors(self, u)
    }
    fn out_degree(&self, u: u32) -> usize {
        AdjSetGraph::out_degree(self, u)
    }
    fn out_edges(&self, u: u32) -> Vec<UndirectedEdge> {
        AdjSetGraph::out_edges(self, u)
    }
}

impl TestGraph for AdjSetDiGraph {
    type V = u32;
    type E = DirectedEdge;
    type Key = (u32, u32);

    fn vertices(&self) -> Vec<u32> {
        AdjSetDiGraph::vertices(self)
    }
    fn num_vertices(&self) -> usize {
        AdjSetDiGraph::num_vertices(self)
    }
    fn edges(&self) -> Vec<DirectedEdge> {
        AdjSetDiGraph::edges(self)
    }
    fn num_edges(&self) -> usize {
        AdjSetDiGraph::num_edges(self)
    }
    fn key(&self, e: DirectedEdge) -> (u32, u32) {
        e
    }
    fn ends(&self, e: DirectedEdge) -> (u32, u32) {
        e
    }
    fn source(&self, e: DirectedEdge) -> u32 {
        AdjSetDiGraph::source(self, &e)
    }
    fn target(&self, e: DirectedEdge) -> u32 {
        AdjSetDiGraph::target(self, &e)
    }
    fn is_undirected_edge(&self, _e: DirectedEdge) -> bool {
        false
    }
    fn get_reverse(&self, e: DirectedEdge) -> Option<DirectedEdge> {
        AdjSetDiGraph::get_reverse(self, &e)
    }
    fn out_neighbors(&self, u: u32) -> Vec<u32> {
        AdjSetDiGraph::out_neighbors(self, u)
    }
    fn out_degree(&self, u: u32) -> usize {
        AdjSetDiGraph::out_degree(self, u)
    }
    fn out_edges(&self, u: u32) -> Vec<DirectedEdge> {
        AdjSetDiGraph::out_edges(self, u)
    }
}

struct StaticTest;

impl GraphTests for StaticTest {
    type G = Static;

    fn new() -> (Static, Vec<usize>, Vec<usize>) {
        let mut b = StaticBuilder::new(5, 4, false);
        for &(u, v) in &[(0, 1), (0, 2), (1, 2), (1, 3)] {
            b.add_edge(u, v);
        }
        b.finalize_()
    }
}

struct StaticDigraphTest;

impl GraphTests for StaticDigraphTest {
    type G = Static;

    fn new() -> (Static, Vec<usize>, Vec<usize>) {
        let mut b = StaticBuilder::new(5, 4, true);
        for &(u, v) in &[(0, 1), (0, 2), (1, 2), (1, 3), (3, 1)] {
            b.add_edge(u, v);
        }
        b.finalize_()
    }
}

struct AdjSetTest;

impl GraphTests for AdjSetTest {
    type G = AdjSetGraph;

    fn new() -> (AdjSetGraph, Vec<u32>, Vec<UndirectedEdge>) {
        let mut g = AdjSetGraph::new();
        g.add_edge(1, 2);
        g.add_edge(3, 4);
        g.add_edge(4, 1);
        g.add_edge(7, 4);
        let v = g.vertices();
        let e = g.edges();
        (g, v, e)
    }
}

struct AdjSetDiTest;

impl GraphTests for AdjSetDiTest {
    type G = AdjSetDiGraph;

    fn new() -> (AdjSetDiGraph, Vec<u32>, Vec<DirectedEdge>) {
        let mut g = AdjSetDiGraph::new();
        g.add_edge(1, 2);
        g.add_edge(3, 4);
        g.add_edge(4, 1);
        g.add_edge(7, 4);
        let v = g.vertices();
        let e = g.edges();
        (g, v, e)
    }
}

#[test]
fn static_graph_checks() {
    StaticTest::vertices();
    StaticTest::edges();
    StaticTest::ends();
    StaticTest::get_reverse();
    StaticTest::out_neighbors();
    StaticTest::out_edges();
}

#[test]
fn static_digraph_checks() {
    StaticDigraphTest::vertices();
    StaticDigraphTest::edges();
    StaticDigraphTest::ends();
    StaticDigraphTest::get_reverse();
    StaticDigraphTest::out_neighbors();
    StaticDigraphTest::out_edges();
}

#[test]
fn adjset_graph_checks() {
    AdjSetTest::vertices();
    AdjSetTest::edges();
    AdjSetTest::ends();
    AdjSetTest::get_reverse();
    AdjSetTest::out_neighbors();
    AdjSetTest::out_edges();
}

#[test]
fn adjset_digraph_checks() {
    AdjSetDiTest::vertices();
    AdjSetDiTest::edges();
    AdjSetDiTest::ends();
    AdjSetDiTest::get_reverse();
    AdjSetDiTest::out_neighbors();
    AdjSetDiTest::out_edges();
}
