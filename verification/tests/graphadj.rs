use fera::graphadj::{DfsVisitor, StaticGraph};

fn new() -> StaticGraph {
    StaticGraph::new_edges(5, &[(0, 1), (0, 2), (1, 2), (1, 3)])
}

#[test]
fn vertices() {
    let g = new();
    assert_eq!(5, g.num_vertices());
    assert_eq!(vec![0, 1, 2, 3, 4], g.vertices());
}

#[test]
fn edges() {
    let g = new();
    assert_eq!(4, g.num_edges());
    assert_eq!(vec![0, 1, 2, 3], g.edges());
    let ends: Vec<(usize, usize)> = g.edges().into_iter().map(|e| (g.source(e), g.target(e))).collect();
    assert_eq!(vec![(0, 1), (0, 2), (1, 2), (1, 3)], ends);
}

#[test]
fn degree() {
    let g = new();
    assert_eq!(vec![2, 3, 2, 1, 0], g.vertices().into_iter().map(|v| g.degree(v)).collect::<Vec<_>>());
}

#[test]
fn neighbors() {
    let g = new();
    assert_eq!(vec![1, 2], g.neighbors(0));
    assert_eq!(vec![0, 2, 3], g.neighbors(1));
    assert_eq!(vec![0, 1], g.neighbors(2));
    assert_eq!(vec![1], g.neighbors(3));
    assert_eq!(Vec::<usize>::new(), g.neighbors(4));
}

#[test]
fn vertex_prop() {
    let g = new();
    let mut p = g.vertex_prop(0usize);
    for (i, &u) in g.vertices().iter().enumerate() {
        p[u] = 10 * i;
    }
    for (i, &u) in g.vertices().iter().enumerate() {
        assert_eq!(10 * i, p[u]);
    }
}

#[test]
fn edge_prop() {
    let g = new();
    let mut p = g.edge_prop(0usize);
    assert_eq!(4, p.len());
    for (i, &e) in g.edges().iter().enumerate() {
        p[e] = i + 1;
    }
    for (i, &e) in g.edges().iter().enumerate() {
        assert_eq!(i + 1, p[e]);
    }
}

/// Sets the depth of each vertex discovered to one more than that of its discoverer.
struct Depths(Vec<usize>);

impl DfsVisitor for Depths {
    fn discover(&mut self, u: usize, v: usize) -> bool {
        self.0[v] = self.0[u] + 1;
        true
    }
}

#[test]
fn dfs_dfs() {
    let g = StaticGraph::new_edges(6, &[(0, 1), (0, 2), (2, 3), (2, 4), (4, 5)]);
    let mut d = Depths(g.vertex_prop(0usize));
    g.dfs(0, &mut d);
    assert_eq!(vec![0, 1, 1, 2, 2, 3], d.0);
}

/// Stops at the first discovery.
struct StopFirst(usize);

impl DfsVisitor for StopFirst {
    fn discover(&mut self, _u: usize, _v: usize) -> bool {
        self.0 += 1;
        false
    }
}

#[test]
fn dfs_discovered_reaches_component() {
    let g = StaticGraph::new_edges(7, &[(0, 1), (1, 2), (3, 4), (5, 5)]);
    let mut d = Depths(vec![0; 7]);
    assert_eq!(vec![true, true, true, false, false, false, false], g.dfs_discovered(1, &mut d));
    assert_eq!(vec![false, false, false, true, true, false, false], g.dfs_discovered(4, &mut d));
    assert_eq!(vec![false, false, false, false, false, true, false], g.dfs_discovered(5, &mut d));
    let mut s = StopFirst(0);
    assert_eq!(vec![true, false, false, false, false, false, false], g.dfs_discovered(0, &mut s));
    assert_eq!(1, s.0);
}

struct Order(Vec<(usize, usize)>, usize);

impl DfsVisitor for Order {
    fn discover(&mut self, u: usize, v: usize) -> bool {
        self.0.push((u, v));
        self.0.len() < self.1
    }
}

#[test]
fn dfs_discovers_in_stack_order() {
    // 0 - 1, 0 - 2, 1 - 3, 2 - 4, 3 - 4: depth first from 0 goes 0, 1, 3, 4, 2.
    let g = StaticGraph::new_edges(5, &[(0, 1), (0, 2), (1, 3), (2, 4), (3, 4)]);
    let mut all = Order(vec![], 100);
    g.dfs(0, &mut all);
    assert_eq!(vec![(0, 1), (1, 3), (3, 4), (4, 2)], all.0);
    let mut part = Order(vec![], 2);
    g.dfs(0, &mut part);
    assert_eq!(vec![(0, 1), (1, 3)], part.0);
}
