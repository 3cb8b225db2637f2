use fera::bfs::{bfs, bfs_with_root};
use fera::components::{connected_components, num_components};
use fera::control::{break_if, continue_if, Control};
use fera::dfs::{dfs, dfs_with_root, TraverseEvent, Visitor};
use fera::dfs::TraverseEvent::{
    Start, Finish, DiscoverRootVertex, FinishRootVertex, DiscoverVertex, FinishVertex, DiscoverEdge,
    DiscoverTreeEdge, FinishTreeEdge, DiscoverBackEdge, FinishEdge,
};
use fera::components;
use fera::graph::{Static, StaticBuilder};
use fera::kruskal;
use fera::paths::find_path;
use fera::subgraph::{edge_induced_subgraph, induced_subgraph, spanning_subgraph, vec_find_swap_remove, SpanningSubgraph};
use fera::visitors::is_dag;
use fera::visitors;
use std::collections::HashSet;

fn graph(n: usize, edges: &[(usize, usize)]) -> Static {
    let mut b = StaticBuilder::new(n, edges.len(), false);
    for &(u, v) in edges {
        b.add_edge(u, v);
    }
    b.finalize()
}

fn digraph(n: usize, edges: &[(usize, usize)]) -> Static {
    let mut b = StaticBuilder::new(n, edges.len(), true);
    for &(u, v) in edges {
        b.add_edge(u, v);
    }
    b.finalize()
}

fn set<T: std::hash::Hash + Eq>(v: Vec<T>) -> HashSet<T> {
    v.into_iter().collect()
}

/// The edges named by their index, so that both handles of an edge count as one.
fn idx(g: &Static, v: Vec<usize>) -> HashSet<usize> {
    v.into_iter().map(|e| g.edge_index(e)).collect()
}

fn check_builder() {
    let mut builder = StaticBuilder::new(3, 1, false);
    builder.add_edge(0, 1);
    builder.add_edge(1, 2);
    let g = builder.finalize();
    assert_eq!(3, g.num_vertices());
    assert_eq!(2, g.num_edges());
    let e = g.edges();
    assert_eq!((0, 1), g.ends(e[0]));
    assert_eq!((1, 2), g.ends(e[1]));
    assert_eq!(vec![e[0]], g.out_edges(0));
    assert_eq!(vec![g.reverse(e[0]), e[1]], g.out_edges(1));
    assert_eq!(vec![g.reverse(e[1])], g.out_edges(2));
}

#[test]
fn static_builder() {
    check_builder();
}

#[test]
#[allow(non_snake_case)]
fn static__builder() {
    check_builder();
}

#[test]
fn static_digraph_builder() {
    let g = digraph(3, &[(2, 0), (0, 2), (0, 1), (0, 2)]);
    let e = g.edges();
    assert_eq!(vec![0, 1, 2, 3], e);
    // out-edges sorted by target, then by order of addition
    assert_eq!(vec![2, 1, 3], g.out_edges(0));
    assert_eq!(Vec::<usize>::new(), g.out_edges(1));
    assert_eq!(vec![0], g.out_edges(2));
    assert_eq!(Some(0), g.get_reverse(1));
    assert_eq!(None, g.get_reverse(2));
    assert_eq!(3, g.out_degree(0));
}

#[test]
fn static_undirected_reverse() {
    let g = graph(4, &[(0, 1), (2, 3)]);
    for e in g.edges() {
        let r = g.reverse(e);
        assert_eq!(g.ends(e), (g.target(r), g.source(r)));
        assert_eq!(g.edge_index(e), g.edge_index(r));
        assert_eq!(Some(r), g.get_reverse(e));
        assert_eq!(g.target(e), g.opposite(g.source(e), e));
    }
    assert_eq!(vec![0, 1, 2, 3], g.vertices());
}

fn find_path_graph() -> Static {
    graph(6, &[(0, 1), (0, 2), (1, 4), (2, 3), (2, 4)])
}

#[test]
fn paths_find_path() {
    let g = find_path_graph();
    let e = g.edges();
    assert_eq!(None, find_path(&g, 0, 0));
    assert_eq!(None, find_path(&g, 0, 5));
    assert_eq!(vec![e[0]], find_path(&g, 0, 1).unwrap());
    let p = find_path(&g, 1, 4).unwrap();
    let expected = vec![e[0], e[1], e[4]];
    assert_eq!(expected.len(), p.len());
    for (a, b) in expected.iter().zip(p.iter()) {
        assert_eq!(g.edge_index(*a), g.edge_index(*b));
    }
    // the path goes from 1 to 4
    assert_eq!(1, g.source(p[0]));
    assert_eq!(4, g.target(p[p.len() - 1]));
    for w in p.windows(2) {
        assert_eq!(g.target(w[0]), g.source(w[1]));
    }
}

#[test]
fn path_find_path() {
    let g = find_path_graph();
    let e = g.edges();
    assert_eq!(None, find_path(&g, 3, 3));
    assert_eq!(None, find_path(&g, 5, 0));
    let p = find_path(&g, 3, 0).unwrap();
    assert_eq!(vec![g.reverse(e[3]), g.reverse(e[1])], p);
}

struct Case {
    g: Static,
    is_connected: bool,
    is_acyclic: bool,
    is_tree: bool,
}

fn cases() -> Vec<Case> {
    vec![
        Case { g: graph(0, &[]), is_connected: true, is_acyclic: true, is_tree: true },
        Case { g: graph(1, &[]), is_connected: true, is_acyclic: true, is_tree: true },
        Case { g: graph(2, &[]), is_connected: false, is_acyclic: true, is_tree: false },
        Case { g: graph(2, &[(0, 1)]), is_connected: true, is_acyclic: true, is_tree: true },
        Case { g: graph(3, &[(2, 1)]), is_connected: false, is_acyclic: true, is_tree: false },
        Case { g: graph(3, &[(2, 1)]), is_connected: false, is_acyclic: true, is_tree: false },
        Case { g: graph(3, &[(0, 1), (1, 2)]), is_connected: true, is_acyclic: true, is_tree: true },
        Case { g: graph(3, &[(0, 1), (0, 2), (1, 2)]), is_connected: true, is_acyclic: false, is_tree: false },
        Case { g: graph(4, &[(0, 1), (0, 2)]), is_connected: false, is_acyclic: true, is_tree: false },
        Case { g: graph(4, &[(1, 2), (2, 3), (3, 1)]), is_connected: false, is_acyclic: false, is_tree: false },
    ]
}

#[test]
fn is_connected() {
    for (i, case) in cases().iter().enumerate() {
        assert!(case.is_connected == components::is_connected(&case.g), "Case {}", i);
    }
}

#[test]
fn is_acyclic() {
    for (i, case) in cases().iter().enumerate() {
        assert!(case.is_acyclic == visitors::is_acyclic(&case.g), "Case {}", i);
    }
}

#[test]
fn is_tree() {
    for (i, case) in cases().iter().enumerate() {
        assert!(case.is_tree == visitors::is_tree(&case.g), "Case {}", i);
    }
}

#[test]
fn components_count_and_labels() {
    let g = graph(7, &[(0, 1), (0, 2), (1, 2), (1, 3), (2, 3), (4, 5), (4, 6), (5, 6)]);
    assert_eq!(2, num_components(&g));
    let cc = connected_components(&g);
    for u in 0..7 {
        for v in 0..7 {
            assert_eq!((u < 4) == (v < 4), cc.is_connected(u, v));
        }
    }
    let h = graph(5, &[(3, 4)]);
    assert_eq!(4, num_components(&h));
    assert!(!components::is_connected(&h));
}

#[test]
fn is_dag_cases() {
    assert!(is_dag(&digraph(3, &[(0, 1), (1, 2), (0, 2)])));
    assert!(!is_dag(&digraph(3, &[(0, 1), (1, 2), (2, 0)])));
    assert!(!is_dag(&graph(2, &[(0, 1)])));
}

struct Record(Vec<TraverseEvent>);

impl Visitor for Record {
    fn visit(&mut self, _g: &Static, evt: TraverseEvent) -> Control {
        self.0.push(evt);
        Control::Continue
    }
}

fn edge_by_ends(g: &Static, u: usize, v: usize) -> usize {
    for e in g.edges() {
        let (x, y) = g.ends(e);
        if u == x && v == y {
            return e;
        } else if u == y && v == x {
            return g.reverse(e);
        }
    }
    panic!()
}

/// The events of a depth-first search of `traverse_graph`.
fn dfs_expected(g: &Static) -> Vec<TraverseEvent> {
    let e = |x: usize, y: usize| edge_by_ends(g, x, y);
    vec![
        Start,
        DiscoverRootVertex(0),
        DiscoverVertex(0),
        DiscoverEdge(e(0, 1)),
        DiscoverTreeEdge(e(0, 1)),
        DiscoverVertex(1),
        DiscoverEdge(e(1, 2)),
        DiscoverTreeEdge(e(1, 2)),
        DiscoverVertex(2),
        DiscoverEdge(e(2, 0)),
        DiscoverBackEdge(e(2, 0)),
        FinishEdge(e(2, 0)),
        DiscoverEdge(e(2, 3)),
        DiscoverTreeEdge(e(2, 3)),
        DiscoverVertex(3),
        DiscoverEdge(e(3, 1)),
        DiscoverBackEdge(e(3, 1)),
        FinishEdge(e(3, 1)),
        FinishVertex(3),
        FinishTreeEdge(e(2, 3)),
        FinishEdge(e(2, 3)),
        FinishVertex(2),
        FinishTreeEdge(e(1, 2)),
        FinishEdge(e(1, 2)),
        FinishVertex(1),
        FinishTreeEdge(e(0, 1)),
        FinishEdge(e(0, 1)),
        FinishVertex(0),
        FinishRootVertex(0),
        DiscoverRootVertex(4),
        DiscoverVertex(4),
        DiscoverEdge(e(4, 5)),
        DiscoverTreeEdge(e(4, 5)),
        DiscoverVertex(5),
        DiscoverEdge(e(5, 6)),
        DiscoverTreeEdge(e(5, 6)),
        DiscoverVertex(6),
        DiscoverEdge(e(6, 4)),
        DiscoverBackEdge(e(6, 4)),
        FinishEdge(e(6, 4)),
        FinishVertex(6),
        FinishTreeEdge(e(5, 6)),
        FinishEdge(e(5, 6)),
        FinishVertex(5),
        FinishTreeEdge(e(4, 5)),
        FinishEdge(e(4, 5)),
        FinishVertex(4),
        FinishRootVertex(4),
        Finish,
    ]
}

#[test]
fn dfs_events() {
    let g = graph(7, &[(0, 1), (0, 2), (1, 2), (1, 3), (2, 3), (4, 5), (4, 6), (5, 6)]);
    let expected = dfs_expected(&g);

    let mut rec = Record(vec![]);
    assert_eq!(Control::Continue, fera::recursive_dfs::recursive_dfs(&g, &mut rec));
    assert_eq!(expected.len(), rec.0.len());
    for (a, b) in expected.iter().zip(rec.0.iter()) {
        assert!(same_event(&g, a, b), "{:?} {:?}", a, b);
    }

    let mut rec = Record(vec![]);
    assert_eq!(Control::Continue, dfs(&g, &mut rec));
    assert_eq!(expected.len(), rec.0.len());
    for (a, b) in expected.iter().zip(rec.0.iter()) {
        assert!(same_event(&g, a, b), "{:?} {:?}", a, b);
    }
}

struct StopAt(usize);

impl Visitor for StopAt {
    fn visit(&mut self, _g: &Static, evt: TraverseEvent) -> Control {
        match evt {
            TraverseEvent::DiscoverVertex(v) => break_if(v == self.0),
            _ => continue_if(true),
        }
    }
}

#[test]
fn dfs_stops_on_break() {
    let g = graph(4, &[(0, 1), (1, 2), (2, 3)]);
    assert_eq!(Control::Break, dfs_with_root(&g, 0, &mut StopAt(2)));
    assert_eq!(Control::Continue, dfs_with_root(&g, 3, &mut StopAt(9)));
}

fn subgraph_graph() -> (Static, usize, usize, usize, usize) {
    let g = graph(5, &[(0, 1), (0, 2), (1, 2), (3, 4)]);
    let e = g.edges();
    (g, e[0], e[1], e[2], e[3])
}

#[test]
fn subgraph_test_spanning_subgraph() {
    let (g, _, e02, e12, _) = subgraph_graph();
    let s = spanning_subgraph(&g, vec![e02, e12]);
    assert_eq!(vec![0, 1, 2, 3, 4], s.vertices());
    assert_eq!(idx(&g, vec![e02, e12]), idx(&g, s.edges()));
    assert_eq!(idx(&g, vec![e02]), idx(&g, s.out_edges(0)));
    assert_eq!(idx(&g, vec![e12]), idx(&g, s.out_edges(1)));
    assert_eq!(idx(&g, vec![e02, e12]), idx(&g, s.out_edges(2)));
    assert!(s.out_edges(3).is_empty());
    assert!(s.out_edges(4).is_empty());
}

#[test]
fn subgraph_test_edge_induced_subgraph() {
    let (g, e01, e02, _, _) = subgraph_graph();
    let s = edge_induced_subgraph(&g, vec![e01, e02]);
    assert_eq!(set(vec![0, 1, 2]), set(s.vertices()));
    assert_eq!(idx(&g, vec![e01, e02]), idx(&g, s.edges()));
    assert_eq!(idx(&g, vec![e01, e02]), idx(&g, s.out_edges(0)));
    assert_eq!(set(vec![1, 2]), set(s.out_neighbors(0)));
    assert_eq!(idx(&g, vec![e01]), idx(&g, s.out_edges(1)));
    assert_eq!(set(vec![0]), set(s.out_neighbors(1)));
    assert_eq!(idx(&g, vec![e02]), idx(&g, s.out_edges(2)));
    assert_eq!(set(vec![0]), set(s.out_neighbors(2)));
}

#[test]
fn subgraph_test_induced_subgraph() {
    let (g, e01, e02, e12, _) = subgraph_graph();
    let s = induced_subgraph(&g, vec![0, 1, 2]);
    assert_eq!(set(vec![0, 1, 2]), set(s.vertices()));
    assert_eq!(idx(&g, vec![e01, e02, e12]), idx(&g, s.edges()));
    assert_eq!(idx(&g, vec![e01, e02]), idx(&g, s.out_edges(0)));
    assert_eq!(idx(&g, vec![e01, e12]), idx(&g, s.out_edges(1)));
    assert_eq!(idx(&g, vec![e02, e12]), idx(&g, s.out_edges(2)));
}

#[test]
fn spanning_subgraph_add_remove() {
    let (g, e01, e02, e12, e34) = subgraph_graph();
    let mut s = SpanningSubgraph::new(&g);
    s.add_edges(&vec![e01, e02, e34]);
    assert_eq!(vec![e01, e02, e34], s.edges());
    assert_eq!(vec![e01, e02], s.out_edges(0));
    s.remove_edge(e01);
    assert_eq!(vec![e34, e02], s.edges());
    assert_eq!(vec![e02], s.out_edges(0));
    assert!(s.out_edges(1).is_empty());
    s.replace_edge(e34, e12);
    assert_eq!(idx(&g, vec![e02, e12]), idx(&g, s.edges()));
    s.clear_edges();
    assert!(s.edges().is_empty());
    assert!(s.out_edges(2).is_empty());
}

#[test]
fn vec_find_swap_remove_by_index() {
    let mut v = vec![4, 7, 1, 9];
    // handles 6 and 7 are the same undirected edge
    assert!(vec_find_swap_remove(&mut v, 6, false));
    assert_eq!(vec![4, 9, 1], v);
    assert!(!vec_find_swap_remove(&mut v, 2, true));
    assert_eq!(vec![4, 9, 1], v);
}

#[test]
fn kruskal_mst() {
    let g = graph(5, &[(0, 4), (2, 3), (0, 1), (1, 4), (1, 2), (2, 4), (3, 4)]);
    let weight: Vec<u64> = vec![1, 2, 3, 4, 5, 6, 7];
    let e = g.edges();
    let mut it = kruskal::kruskal_mst(&g, &weight);
    assert_eq!(vec![e[0], e[1], e[2], e[4]], it.into_vec());
}

#[test]
fn kruskal_spanning_forest_of_two_trees() {
    let g = traverse_graph();
    let weight: Vec<u64> = vec![5, 1, 1, 2, 9, 3, 3, 1];
    let e = g.edges();
    let mut it = kruskal::kruskal_mst(&g, &weight);
    let forest = it.into_vec();
    // 7 vertices in 2 trees: 5 edges, the lightest ones that close no cycle
    assert_eq!(vec![e[1], e[2], e[7], e[3], e[5]], forest);
    assert_eq!(None, it.next());
}

fn traverse_graph() -> Static {
    //    1
    //  / | \         4
    // 0  |  3      /   \
    //  \ | /      5 --- 6
    //    2
    graph(7, &[(0, 1), (0, 2), (1, 2), (1, 3), (2, 3), (4, 5), (4, 6), (5, 6)])
}

/// Whether two events are the same, an edge being named by its index.
fn same_event(g: &Static, a: &TraverseEvent, b: &TraverseEvent) -> bool {
    match (a, b) {
        (DiscoverEdge(x), DiscoverEdge(y))
        | (DiscoverTreeEdge(x), DiscoverTreeEdge(y))
        | (DiscoverBackEdge(x), DiscoverBackEdge(y))
        | (FinishEdge(x), FinishEdge(y))
        | (FinishTreeEdge(x), FinishTreeEdge(y)) => g.edge_index(*x) == g.edge_index(*y),
        _ => a == b,
    }
}

#[test]
fn bfs_events() {
    let g = traverse_graph();
    let e = |x: usize, y: usize| edge_by_ends(&g, x, y);
    let expected = vec![
        DiscoverRootVertex(0),
        DiscoverVertex(0),
        DiscoverEdge(e(0, 1)),
        DiscoverTreeEdge(e(0, 1)),
        DiscoverVertex(1),
        DiscoverEdge(e(0, 2)),
        DiscoverTreeEdge(e(0, 2)),
        DiscoverVertex(2),
        FinishVertex(0),
        DiscoverEdge(e(1, 2)),
        DiscoverBackEdge(e(1, 2)),
        FinishEdge(e(1, 2)),
        DiscoverEdge(e(1, 3)),
        DiscoverTreeEdge(e(1, 3)),
        DiscoverVertex(3),
        FinishVertex(1),
        FinishTreeEdge(e(0, 1)),
        FinishEdge(e(0, 1)),
        DiscoverEdge(e(2, 3)),
        DiscoverBackEdge(e(2, 3)),
        FinishEdge(e(2, 3)),
        FinishVertex(2),
        FinishTreeEdge(e(0, 2)),
        FinishEdge(e(0, 2)),
        FinishVertex(3),
        FinishTreeEdge(e(1, 3)),
        FinishEdge(e(1, 3)),
        FinishRootVertex(0),

        DiscoverRootVertex(4),
        DiscoverVertex(4),
        DiscoverEdge(e(4, 5)),
        DiscoverTreeEdge(e(4, 5)),
        DiscoverVertex(5),
        DiscoverEdge(e(4, 6)),
        DiscoverTreeEdge(e(4, 6)),
        DiscoverVertex(6),
        FinishVertex(4),
        DiscoverEdge(e(5, 6)),
        DiscoverBackEdge(e(5, 6)),
        FinishEdge(e(5, 6)),
        FinishVertex(5),
        FinishTreeEdge(e(4, 5)),
        FinishEdge(e(4, 5)),
        FinishVertex(6),
        FinishTreeEdge(e(4, 6)),
        FinishEdge(e(4, 6)),
        FinishRootVertex(4),
    ];
    let mut rec = Record(vec![]);
    assert_eq!(Control::Continue, bfs(&g, &mut rec));
    assert_eq!(expected.len(), rec.0.len());
    for (a, b) in expected.iter().zip(rec.0.iter()) {
        assert!(same_event(&g, a, b), "{:?} {:?}", a, b);
    }
}

/// Records the roots of the searches.
struct Roots(Vec<usize>);

impl Visitor for Roots {
    fn visit(&mut self, _g: &Static, evt: TraverseEvent) -> Control {
        if let DiscoverRootVertex(v) = evt {
            self.0.push(v);
        }
        Control::Continue
    }
}

/// Records the edges of the events it is given, stopping at the second.
struct FirstTwo(Vec<usize>);

impl Visitor for FirstTwo {
    fn visit(&mut self, _g: &Static, evt: TraverseEvent) -> Control {
        match evt {
            DiscoverTreeEdge(e) | DiscoverBackEdge(e) => {
                self.0.push(e);
                continue_if(self.0.len() != 2)
            }
            _ => Control::Continue,
        }
    }
}

fn indices(g: &Static, v: Vec<usize>) -> Vec<usize> {
    v.into_iter().map(|e| g.edge_index(e)).collect()
}

#[test]
fn dfs_start_visitor() {
    let g = traverse_graph();
    let mut start = visitors::DiscoverRootVertex::new(Roots(vec![]));
    dfs(&g, &mut start);
    let v = g.vertices();
    assert_eq!(vec![v[0], v[4]], start.0 .0);
}

#[test]
fn dfs_tree_visitor() {
    let g = traverse_graph();
    let mut vis = visitors::DiscoverTreeEdge::new(FirstTwo(vec![]));
    dfs(&g, &mut vis);
    let e = g.edges();
    assert_eq!(indices(&g, vec![e[0], e[2]]), indices(&g, vis.0 .0));
}

#[test]
fn dfs_back_visitor() {
    let g = traverse_graph();
    let mut vis = visitors::DiscoverBackEdge::new(FirstTwo(vec![]));
    dfs(&g, &mut vis);
    let e = g.edges();
    assert_eq!(indices(&g, vec![e[1], e[3]]), indices(&g, vis.0 .0));
}

#[test]
fn bfs_start_visitor() {
    let g = traverse_graph();
    let mut start = visitors::DiscoverRootVertex::new(Roots(vec![]));
    bfs(&g, &mut start);
    let v = g.vertices();
    assert_eq!(vec![v[0], v[4]], start.0 .0);
}

#[test]
fn bfs_tree_visitor() {
    let g = traverse_graph();
    let mut vis = visitors::DiscoverTreeEdge::new(FirstTwo(vec![]));
    bfs(&g, &mut vis);
    let e = g.edges();
    assert_eq!(indices(&g, vec![e[0], e[1]]), indices(&g, vis.0 .0));
}

#[test]
fn bfs_back_visitor() {
    let g = traverse_graph();
    let mut vis = visitors::DiscoverBackEdge::new(FirstTwo(vec![]));
    bfs(&g, &mut vis);
    let e = g.edges();
    assert_eq!(indices(&g, vec![e[2], e[4]]), indices(&g, vis.0 .0));
}

/// Records the depth of each vertex reached along the tree edges.
struct Depth(Vec<usize>);

impl Visitor for Depth {
    fn visit(&mut self, g: &Static, evt: TraverseEvent) -> Control {
        if let DiscoverTreeEdge(e) = evt {
            let (u, v) = g.ends(e);
            self.0[v] = self.0[u] + 1;
        }
        Control::Continue
    }
}


#[test]
fn bfs_with_root_reaches_component() {
    let g = traverse_graph();
    let mut d = Depth(vec![0usize; 7]);
    assert_eq!(Control::Continue, bfs_with_root(&g, 4, &mut d));
    assert_eq!(vec![0, 0, 0, 0, 0, 1, 1], d.0);
    assert_eq!(Control::Break, bfs_with_root(&g, 0, &mut StopAt(3)));
    assert_eq!(Control::Continue, bfs_with_root(&g, 4, &mut StopAt(3)));
}

#[test]
fn test_complete() {
    let (g, v, e) = fera::builder::complete(3).finalize_();
    assert_eq!((v[0], v[1]), g.ends(e[0]));
    assert_eq!((v[0], v[2]), g.ends(e[1]));
    assert_eq!((v[1], v[2]), g.ends(e[2]));

    for (n, &e) in (0..5).zip(&[0, 0, 1, 3, 6, 10]) {
        let g = Static::complete(n);
        assert_eq!(n, g.num_vertices());
        assert_eq!(e, g.num_edges());
    }
}

#[test]
fn test_complete_binary_tree() {
    let g = Static::complete_binary_tree(0);
    assert_eq!(1, g.num_vertices());
    assert_eq!(0, g.num_edges());

    let g = Static::complete_binary_tree(1);
    assert_eq!(3, g.num_vertices());
    assert_eq!(2, g.num_edges());
    let neighbors: HashSet<usize> = g.out_edges(0).into_iter().map(|e| g.target(e)).collect();
    assert_eq!(set(vec![1, 2]), neighbors);

    for h in 2..10 {
        let g = Static::complete_binary_tree(h);
        assert!(visitors::is_tree(&g));
        assert_eq!(2, g.out_degree(0));
        for v in 1..g.num_vertices() / 2 - 1 {
            assert_eq!(3, g.out_degree(v));
        }
        for v in (g.num_vertices() / 2)..g.num_vertices() {
            assert_eq!(1, g.out_degree(v));
        }
    }
}

#[test]
fn complete_graph_edges_in_order() {
    let g = Static::complete(4);
    let ends: Vec<(usize, usize)> = g.edges().into_iter().map(|e| g.ends(e)).collect();
    assert_eq!(vec![(0, 1), (0, 2), (0, 3), (1, 2), (1, 3), (2, 3)], ends);
    assert!(components::is_connected(&g));
    assert!(!visitors::is_acyclic(&g));
}

#[test]
fn complete_binary_tree_children() {
    let g = Static::complete_binary_tree(2);
    let ends: Vec<(usize, usize)> = g.edges().into_iter().map(|e| g.ends(e)).collect();
    assert_eq!(vec![(0, 1), (0, 2), (1, 3), (1, 4), (2, 5), (2, 6)], ends);
}

#[test]
fn find_path_on_parent_tree_climbs() {
    let g = find_path_graph();
    let e = g.edges();
    let mut tree: Vec<Option<usize>> = vec![None; 6];
    tree[1] = Some(e[0]);
    tree[2] = Some(e[1]);
    tree[4] = Some(e[2]);
    tree[3] = Some(e[3]);
    assert_eq!(Some(vec![e[0], e[2]]), fera::paths::find_path_on_parent_tree(&g, &tree, 0, 4));
    assert_eq!(Some(vec![e[1], e[3]]), fera::paths::find_path_on_parent_tree(&g, &tree, 0, 3));
    assert_eq!(Some(vec![e[3]]), fera::paths::find_path_on_parent_tree(&g, &tree, 2, 3));
    assert_eq!(None, fera::paths::find_path_on_parent_tree(&g, &tree, 0, 0));
    assert_eq!(None, fera::paths::find_path_on_parent_tree(&g, &tree, 1, 3));
    assert_eq!(None, fera::paths::find_path_on_parent_tree(&g, &tree, 5, 3));
}

#[test]
fn static_out_neighbors() {
    let g = graph(4, &[(0, 2), (0, 1), (3, 0)]);
    assert_eq!(vec![1, 2, 3], g.out_neighbors(0));
    assert_eq!(vec![0], g.out_neighbors(1));
    assert_eq!(Vec::<usize>::new(), digraph(2, &[(1, 0)]).out_neighbors(0));
}

#[test]
fn recursive_dfs_with_root_depths() {
    let g = graph(6, &[(0, 1), (0, 2), (2, 3), (2, 4), (4, 5)]);
    let mut d = Depth(vec![0usize; 6]);
    assert_eq!(Control::Continue, fera::recursive_dfs::recursive_dfs_with_root(&g, 0, &mut d));
    assert_eq!(vec![0, 1, 1, 2, 2, 3], d.0);
    assert_eq!(Control::Break, fera::recursive_dfs::recursive_dfs_with_root(&g, 0, &mut StopAt(4)));
}

#[test]
fn dfs_discover_finish_times_nest() {
    let g = traverse_graph();
    let mut vis = visitors::DiscoverFinishTime::new(&g);
    dfs(&g, &mut vis);
    assert_eq!(vec![0, 1, 2, 3, 8, 9, 10], vis.discover);
    assert_eq!(vec![7, 6, 5, 4, 13, 12, 11], vis.finish);
    assert_eq!(14, vis.time);
    assert!(vis.is_ancestor_of(0, 3));
    assert!(vis.is_ancestor_of(1, 2));
    assert!(vis.is_ancestor_of(4, 6));
    assert!(vis.is_ancestor_of(5, 5));
    assert!(!vis.is_ancestor_of(3, 0));
    assert!(!vis.is_ancestor_of(0, 4));
    assert!(!vis.is_ancestor_of(6, 4));
}

#[test]
fn is_acyclic_and_is_dag_on_directed_graphs() {
    let dag = digraph(4, &[(0, 1), (0, 2), (1, 3), (2, 3)]);
    assert!(visitors::is_acyclic(&dag));
    assert!(is_dag(&dag));
    let cyclic = digraph(3, &[(0, 1), (1, 2), (2, 0)]);
    assert!(!visitors::is_acyclic(&cyclic));
    assert!(!is_dag(&cyclic));
    let self_loop = digraph(2, &[(0, 1), (1, 1)]);
    assert!(!visitors::is_acyclic(&self_loop));
    assert!(!is_dag(&self_loop));
    // an undirected graph is no dag once it has an edge
    assert!(!is_dag(&graph(2, &[(0, 1)])));
    assert!(is_dag(&graph(2, &[])));
}

#[test]
fn parallel_edges_make_a_cycle() {
    assert!(!visitors::is_acyclic(&graph(2, &[(0, 1), (0, 1)])));
    assert!(!visitors::is_tree(&graph(2, &[(0, 1), (1, 0)])));
    assert!(visitors::is_tree(&graph(3, &[(1, 0), (1, 2)])));
    assert!(!visitors::is_acyclic(&graph(1, &[(0, 0)])));
}

#[test]
fn visitor_constructors_keep_state() {
    let g = graph(3, &[]);
    assert!(!visitors::IsTree(false).tree);
    assert!(visitors::IsTree(true).tree);
    assert!(!visitors::IsConnected(false).connected);
    let cc = visitors::ConnectedComponents(&g, vec![7, 8, 9]);
    assert!(!cc.is_connected(0, 1));
}

struct RecordUntil(Vec<TraverseEvent>, usize);

impl Visitor for RecordUntil {
    fn visit(&mut self, _g: &Static, evt: TraverseEvent) -> Control {
        self.0.push(evt);
        break_if(self.0.len() == self.1)
    }
}

#[test]
fn stopped_searches_tell_a_prefix() {
    let g = graph(5, &[(0, 1), (1, 2), (2, 0), (3, 4), (1, 3)]);
    let mut all = Record(vec![]);
    assert_eq!(Control::Continue, fera::recursive_dfs::recursive_dfs(&g, &mut all));
    let mut all_bfs = Record(vec![]);
    assert_eq!(Control::Continue, bfs(&g, &mut all_bfs));
    let mut all_dfs = Record(vec![]);
    assert_eq!(Control::Continue, dfs(&g, &mut all_dfs));
    assert_eq!(all.0, all_dfs.0);
    for n in 1..all.0.len() {
        let mut part = RecordUntil(vec![], n);
        assert_eq!(Control::Break, fera::recursive_dfs::recursive_dfs(&g, &mut part));
        assert_eq!(&all.0[..n], &part.0[..]);
    }
    for n in 1..all_bfs.0.len() {
        let mut part = RecordUntil(vec![], n);
        assert_eq!(Control::Break, bfs(&g, &mut part));
        assert_eq!(&all_bfs.0[..n], &part.0[..]);
    }
}
