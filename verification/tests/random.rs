use fera::graph::{Static, StaticBuilder};
use rand::{SeedableRng, StdRng};

fn graph(n: usize, edges: &[(usize, usize)], directed: bool) -> Static {
    let mut b = StaticBuilder::new(n, edges.len(), directed);
    for &(u, v) in edges {
        b.add_edge(u, v);
    }
    b.finalize()
}

fn rng() -> StdRng {
    let seed: &[usize] = &[123];
    StdRng::from_seed(seed)
}

#[test]
fn choose_vertex_in_range() {
    let mut r = rng();
    assert_eq!(None, graph(0, &[], false).choose_vertex(&mut r));
    let g = graph(5, &[(0, 1)], false);
    let mut seen = vec![false; 5];
    for _ in 0..200 {
        let v = g.choose_vertex(&mut r).unwrap();
        assert!(v < 5);
        seen[v] = true;
    }
    assert!(seen.iter().all(|&s| s));
}

#[test]
fn edge_of_draw_formula() {
    let g = graph(3, &[(0, 1), (1, 2)], false);
    assert_eq!(vec![1, 0, 3, 2], (0..4).map(|i| g.edge_of_draw(i)).collect::<Vec<_>>());
    assert_eq!((0, 1), g.ends(g.edge_of_draw(0)));
    assert_eq!((1, 0), g.ends(g.edge_of_draw(1)));
    let d = graph(3, &[(0, 1), (1, 2)], true);
    assert_eq!(vec![0, 1], (0..2).map(|i| d.edge_of_draw(i)).collect::<Vec<_>>());
}

#[test]
fn choose_edge_is_an_edge() {
    let mut r = rng();
    assert_eq!(None, graph(3, &[], false).choose_edge(&mut r));
    let g = graph(4, &[(0, 1), (1, 2), (2, 3)], false);
    let mut backward = false;
    for _ in 0..200 {
        let e = g.choose_edge(&mut r).unwrap();
        let (u, v) = g.ends(e);
        assert_eq!(1, (u as i64 - v as i64).abs());
        if u > v {
            backward = true;
        }
    }
    assert!(backward);
    let d = graph(3, &[(2, 0)], true);
    for _ in 0..20 {
        assert_eq!(Some(0), d.choose_edge(&mut r));
    }
}

#[test]
fn choose_out_edge_and_neighbor() {
    let mut r = rng();
    let g = graph(4, &[(0, 1), (0, 2), (3, 3)], false);
    assert_eq!(None, graph(2, &[(0, 0)], true).choose_out_edge(1, &mut r));
    for _ in 0..50 {
        let e = g.choose_out_edge(0, &mut r).unwrap();
        assert!(g.out_edges(0).contains(&e));
        let w = g.choose_out_neighbor(0, &mut r).unwrap();
        assert!(w == 1 || w == 2);
        assert_eq!(Some(0), g.choose_out_neighbor(1, &mut r));
    }
}
