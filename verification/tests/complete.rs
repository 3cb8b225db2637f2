use fera::complete::{CompleteEdge, CompleteEdgeNone, CompleteGraph};

#[test]
fn test_edges() {
    for n in 1..100 {
        let g = CompleteGraph::new(n);
        let mut r = vec![];
        for u in 0..n {
            for v in (u + 1)..n {
                r.push((u, v));
            }
        }
        let ind = g.edge_index();
        let mut it = g.edges();
        let mut i = 0;
        while let Some(e) = it.next() {
            assert_eq!(i, ind.get(e));
            assert_eq!(i, ind.get(g.reverse(e)));
            assert_eq!(r[i].0, g.source(e));
            assert_eq!(r[i].1, g.target(e));
            i += 1;
        }
        assert_eq!(r.len(), i);
        assert_eq!(g.num_edges(), i);
    }
}

#[test]
fn complete_inc_edges() {
    let g = CompleteGraph::new(5);
    let mut it = g.inc_edges(2);
    let mut targets = vec![];
    while let Some(e) = it.next() {
        assert_eq!(2, g.source(e));
        targets.push(g.target(e));
    }
    assert_eq!(vec![0, 1, 3, 4], targets);
    assert_eq!(4, g.degree(2));
}

#[test]
fn complete_edge_equality() {
    assert!(CompleteEdge::new(1, 2) == CompleteEdge::new(2, 1));
    assert!(CompleteEdge::new(1, 2) != CompleteEdge::new(1, 3));
    let none = CompleteEdgeNone::none();
    assert_eq!((u32::MAX, u32::MAX), (none.u, none.v));
}

#[test]
fn complete_vertices_in_order() {
    assert_eq!(vec![0u32, 1, 2, 3], CompleteGraph::new(4).vertices());
    assert!(CompleteGraph::new(0).vertices().is_empty());
}

#[test]
fn complete_edges_len() {
    let g = CompleteGraph::new(5);
    let mut it = g.edges();
    let mut expected = vec![];
    for u in 0..5 {
        for v in (u + 1)..5 {
            expected.push((u, v));
        }
    }
    assert_eq!(10, it.len());
    for (i, &(u, v)) in expected.iter().enumerate() {
        let e = it.next().unwrap();
        assert_eq!((u, v), (g.source(e), g.target(e)));
        assert_eq!(10 - i - 1, it.len());
    }
    assert!(it.next().is_none());
    assert_eq!(0, it.len());
}
