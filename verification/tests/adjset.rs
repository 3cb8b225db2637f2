use fera::adjset::{AdjSetDiGraph, AdjSetGraph, AdjSetEdge, UndirectedEdge};

fn sorted<T: Clone + Ord>(xs: &[T]) -> Vec<T> {
    let mut v = xs.to_vec();
    v.sort();
    v
}

fn undirected() -> AdjSetGraph {
    let mut g = AdjSetGraph::new();
    g.add_edge(1, 2);
    g.add_edge(3, 4);
    g.add_edge(4, 1);
    g.add_edge(7, 4);
    g
}

fn directed() -> AdjSetDiGraph {
    let mut g = AdjSetDiGraph::new();
    g.add_edge(1, 2);
    g.add_edge(3, 4);
    g.add_edge(4, 1);
    g.add_edge(7, 4);
    g
}

#[test]
fn adjset_undirected_new() {
    let e = UndirectedEdge::new;
    let g = undirected();
    let v = g.vertices();
    let ee = g.edges();
    assert_eq!(sorted(&v), vec![1, 2, 3, 4, 7]);
    assert_eq!(sorted(&ee), vec![e(1, 2), e(1, 4), e(3, 4), e(4, 7)]);
    assert_eq!(5, g.num_vertices());
    assert_eq!(4, g.num_edges());
}

#[test]
fn adjset_directed_new() {
    let g = directed();
    let v = g.vertices();
    let ee = g.edges();
    assert_eq!(sorted(&v), vec![1, 2, 3, 4, 7]);
    assert_eq!(sorted(&ee), vec![(1, 2), (3, 4), (4, 1), (7, 4)]);
    assert_eq!(4, g.num_edges());
}

#[test]
fn adjset_neighbors_and_degrees() {
    let g = undirected();
    assert_eq!(vec![1, 3, 7], sorted(&g.out_neighbors(4)));
    assert_eq!(3, g.out_degree(4));
    assert_eq!(1, g.out_degree(2));
    let d = directed();
    assert_eq!(vec![1], d.out_neighbors(4));
    assert_eq!(0, d.out_degree(2));
    let out: Vec<(u32, u32)> = d.out_edges(7);
    assert_eq!(vec![(7, 4)], out);
    let out = g.out_edges(1);
    for e in &out {
        assert_eq!(1, g.source(e));
    }
    assert_eq!(vec![2, 4], sorted(&out.iter().map(|e| g.target(e)).collect::<Vec<_>>()));
}

#[test]
fn adjset_edge_by_ends() {
    let g = undirected();
    assert_eq!(Some(UndirectedEdge(1, 2)), g.edge_by_ends(1, 2));
    assert_eq!(Some(UndirectedEdge(2, 1)), g.edge_by_ends(2, 1));
    assert_eq!(None, g.edge_by_ends(1, 3));
    assert_eq!(None, g.edge_by_ends(9, 1));
    let d = directed();
    assert_eq!(Some((4, 1)), d.edge_by_ends(4, 1));
    assert_eq!(None, d.edge_by_ends(1, 4));
    assert_eq!(Some((1, 4)), d.get_reverse(&(4, 1)));
}

#[test]
fn adjset_add_vertex() {
    let mut g = AdjSetGraph::new();
    assert_eq!(0, g.num_vertices());
    g.add_vertex(5);
    g.add_vertex(5);
    assert_eq!(1, g.num_vertices());
    assert_eq!(0, g.out_degree(5));
    g.add_edge(5, 5);
    assert_eq!(1, g.num_edges());
    assert_eq!(vec![UndirectedEdge(5, 5)], g.edges());
}

#[test]
fn undirected_edge_equality() {
    assert_eq!(UndirectedEdge(1, 2), UndirectedEdge(2, 1));
    assert_ne!(UndirectedEdge(1, 2), UndirectedEdge(1, 3));
    let e = UndirectedEdge::new(3, 8);
    assert_eq!(3, e.source());
    assert_eq!(8, e.target());
}
