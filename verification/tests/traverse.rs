use fera::control::Control;
use fera::dfs::TraverseEvent::{DiscoverBackEdge, DiscoverTreeEdge};
use fera::dfs::{TraverseEvent, Visitor};
use fera::graph::{Static, StaticBuilder};

fn traverse_graph() -> Static {
    //    1
    //  / | \         4
    // 0  |  3      /   \
    //  \ | /      5 --- 6
    //    2
    let edges = [(0, 1), (0, 2), (1, 2), (1, 3), (2, 3), (4, 5), (4, 6), (5, 6)];
    let mut b = StaticBuilder::new(7, edges.len(), false);
    for &(u, v) in edges.iter() {
        b.add_edge(u, v);
    }
    b.finalize()
}

const TREE: usize = 1;
const BACK: usize = 2;

/// Records for each vertex the edge by which it was reached and its depth, and for each
/// edge whether it is a tree edge or a back edge.
struct Shape {
    parent: Vec<Option<usize>>,
    depth: Vec<usize>,
    edge_type: Vec<usize>,
}

impl Shape {
    fn new(g: &Static) -> Shape {
        Shape {
            parent: vec![None; g.num_vertices()],
            depth: vec![0; g.num_vertices()],
            edge_type: vec![0; g.num_edges()],
        }
    }
}

impl Visitor for Shape {
    fn visit(&mut self, g: &Static, evt: TraverseEvent) -> Control {
        match evt {
            DiscoverTreeEdge(e) => {
                let (u, v) = g.ends(e);
                assert_eq!(0, self.edge_type[g.edge_index(e)]);
                self.parent[v] = Some(g.reverse(e));
                self.depth[v] = self.depth[u] + 1;
                self.edge_type[g.edge_index(e)] = TREE;
            }
            DiscoverBackEdge(e) => {
                assert_eq!(0, self.edge_type[g.edge_index(e)]);
                self.edge_type[g.edge_index(e)] = BACK;
            }
            _ => {}
        }
        Control::Continue
    }
}

#[test]
fn traverse_dfs() {
    let g = traverse_graph();
    let mut vis = Shape::new(&g);
    fera::dfs::dfs(&g, &mut vis);
    let parents: Vec<Option<usize>> = vis.parent.iter().map(|p| p.map(|e| g.target(e))).collect();
    assert_eq!(vec![None, Some(0), Some(1), Some(2), None, Some(4), Some(5)], parents);
    assert_eq!(vec![0, 1, 2, 3, 0, 1, 2], vis.depth);
    assert_eq!(vec![TREE, BACK, TREE, BACK, TREE, TREE, BACK, TREE], vis.edge_type);
}

#[test]
fn bfs() {
    let g = traverse_graph();
    let mut vis = Shape::new(&g);
    fera::bfs::bfs(&g, &mut vis);
    let parents: Vec<Option<usize>> = vis.parent.iter().map(|p| p.map(|e| g.target(e))).collect();
    assert_eq!(vec![None, Some(0), Some(0), Some(1), None, Some(4), Some(4)], parents);
    assert_eq!(vec![0, 1, 1, 2, 0, 1, 1], vis.depth);
    assert_eq!(vec![TREE, TREE, BACK, TREE, BACK, TREE, TREE, BACK], vis.edge_type);
}

