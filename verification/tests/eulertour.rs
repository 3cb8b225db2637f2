use fera::eulertour::EulerTourTree;
use fera::nested::{isqrt, NestedSeq};
use fera::seq::{EdgeSeq, SeqEdge};

fn ids(seq: &EdgeSeq) -> Vec<usize> {
    (0..seq.len()).map(|i| seq.get(i)).collect()
}

#[test]
fn test_seq() {
    let n = 9;
    let mut edges: Vec<SeqEdge> = (0..n).map(SeqEdge::new).collect();

    let mut seq = EdgeSeq::with_capacity(n);
    for i in 0..n {
        seq.push(&mut edges, 0, i);
    }

    let mut expected = vec![0, 1, 2, 3, 4, 5, 6, 7, 8];

    assert_eq!(expected, ids(&seq));

    for i in 0..n {
        expected.rotate_left(i);
        seq.rotate(&mut edges, 0, i);
        assert_eq!(expected, ids(&seq), "rotate = {}", i);
        assert_eq!(expected.len(), seq.len(), "rotate = {}", i);
        assert_eq!(expected.first().cloned(), seq.first(), "rotate = {}", i);
    }

    for i in 0..n {
        for j in i + 2..(n + 1) {
            let (e1, e2, mut exp1) = {
                let mut d = expected.drain(i..j);
                let e1 = d.next().unwrap();
                let e2 = d.next_back().unwrap();
                let exp1: Vec<_> = d.collect();
                (e1, e2, exp1)
            };

            let mut seq1 = EdgeSeq::with_capacity(n);
            seq.extract(&mut edges, 0, i, j, &mut seq1, 1);
            assert_eq!(exp1, ids(&seq1));

            expected.append(&mut exp1);
            expected.push(e1);
            expected.push(e2);

            seq.append(&mut edges, 0, &mut seq1, 1);
            seq.push(&mut edges, 0, e1);
            seq.push(&mut edges, 0, e2);

            assert_eq!(expected, ids(&seq));
            for (r, &x) in ids(&seq).iter().enumerate() {
                assert_eq!(0, edges[x].tree());
                assert_eq!(r, edges[x].rank());
            }
        }
    }
}

fn nested_ids(seq: &NestedSeq) -> Vec<usize> {
    (0..seq.len()).map(|i| seq.get(i)).collect()
}

#[test]
fn test_nested_seq() {
    let n = 9;

    let mut seq = NestedSeq::with_capacity(n);
    for i in 0..n {
        seq.push(i);
    }

    let mut expected = vec![0, 1, 2, 3, 4, 5, 6, 7, 8];

    assert_eq!(expected, nested_ids(&seq));

    for i in 0..n {
        expected.rotate_left(i);
        seq.rotate(i);
        assert_eq!(expected, nested_ids(&seq), "rotate = {}", i);
        assert_eq!(expected.len(), seq.len(), "rotate = {}", i);
        assert_eq!(expected.first().cloned(), seq.first(), "rotate = {}", i);
    }

    for i in 0..n {
        for j in i + 2..(n + 1) {
            let (e1, e2, mut exp1) = {
                let mut d = expected.drain(i..j);
                let e1 = d.next().unwrap();
                let e2 = d.next_back().unwrap();
                let exp1: Vec<_> = d.collect();
                (e1, e2, exp1)
            };

            let mut seq1 = NestedSeq::with_capacity(n);
            seq.extract(i, j, &mut seq1);
            assert_eq!(exp1, nested_ids(&seq1));

            expected.append(&mut exp1);
            expected.push(e1);
            expected.push(e2);

            seq.append(&mut seq1);
            seq.push(e1);
            seq.push(e2);

            assert_eq!(expected, nested_ids(&seq));
            assert_eq!(0, seq1.len());
        }
    }
}

#[test]
fn nested_seq_chunk_lengths() {
    let s = NestedSeq::with_capacity(10);
    assert_eq!(6, s.max_seq_len());
    assert_eq!(1, s.min_seq_len());
    assert_eq!(None, s.first());
    assert_eq!(0, s.len());
    assert_eq!(0, isqrt(0));
    assert_eq!(1, isqrt(3));
    assert_eq!(3, isqrt(9));
    assert_eq!(3, isqrt(15));
    assert_eq!(4, isqrt(16));
}

#[test]
fn nested_seq_append_merges_and_clears() {
    let mut a = NestedSeq::with_capacity(16);
    let mut b = NestedSeq::with_capacity(16);
    for i in 0..3 {
        a.push(i);
    }
    for i in 10..20 {
        b.push(i);
    }
    a.append(&mut b);
    assert_eq!(vec![0, 1, 2, 10, 11, 12, 13, 14, 15, 16, 17, 18, 19], nested_ids(&a));
    assert_eq!(0, b.len());
    a.rotate(5);
    assert_eq!(vec![12, 13, 14, 15, 16, 17, 18, 19, 0, 1, 2, 10, 11], nested_ids(&a));
    a.clear();
    assert_eq!(0, a.len());
    assert_eq!(None, a.first());
}

#[test]
fn seq_edge_ids() {
    let e = SeqEdge::new(7);
    assert_eq!(6, e.id_pair());
    assert!(e.is_reversed());
    assert_eq!(3, e.index());
    let f = SeqEdge::new(6);
    assert_eq!(7, f.id_pair());
    assert!(!f.is_reversed());
    assert_eq!(3, f.index());
}

/// Connectivity by search over a list of edges, to compare with.
fn naive_connected(n: usize, edges: &[(usize, usize)], u: usize, v: usize) -> bool {
    let mut seen = vec![false; n];
    let mut stack = vec![u];
    seen[u] = true;
    while let Some(x) = stack.pop() {
        for &(a, b) in edges {
            for &(p, q) in &[(a, b), (b, a)] {
                if p == x && !seen[q] {
                    seen[q] = true;
                    stack.push(q);
                }
            }
        }
    }
    seen[v]
}

fn check_all_pairs(t: &EulerTourTree, n: usize, edges: &[(usize, usize)]) {
    for i in 0..n {
        for j in 0..n {
            assert_eq!(naive_connected(n, edges, i, j), t.is_connected(i, j), "{} {}", i, j);
        }
    }
}

fn run(ops: &[(usize, usize)], n: usize) {
    let mut t = EulerTourTree::new(n);
    let mut present: Vec<((usize, usize), fera::eulertour::Edge)> = vec![];
    for &(u, v) in ops {
        let (u, v) = (u % n, v % n);
        let pos = present.iter().position(|&((a, b), _)| (a, b) == (u, v) || (a, b) == (v, u));
        if let Some(p) = pos {
            let ((a, b), e) = present.remove(p);
            assert_eq!((a, b), t.ends(&e));
            assert!(t.is_connected(a, b));
            t.cut(e);
            assert!(!t.is_connected(a, b));
        } else if !t.is_connected(u, v) {
            let e = t.link(u, v).unwrap();
            assert_eq!((u, v), t.ends(&e));
            assert!(t.is_connected(u, v));
            present.push(((u, v), e));
        } else {
            assert!(t.link(u, v).is_none());
        }
        let list: Vec<(usize, usize)> = present.iter().map(|&(p, _)| p).collect();
        check_all_pairs(&t, n, &list);
    }
    t.clear();
    for i in 0..n {
        for j in 0..n {
            assert_eq!(i == j, t.is_connected(i, j));
        }
    }
}

#[test]
fn euler_tour_basic() {
    run(&[(0, 0)], 25);
    run(&[(0, 1), (0, 1)], 25);
    run(&[(0, 1), (1, 0)], 25);
    run(&[(0, 1), (0, 2)], 25);
    run(&[(3, 2), (1, 2), (1, 0), (3, 4)], 25);
    run(&[(0, 2), (1, 2), (1, 3)], 25);
}

#[test]
fn euler_tour_longer() {
    let mut ops = vec![];
    let mut x: usize = 7;
    for _ in 0..300 {
        x = (x * 1103515245 + 12345) % 2147483648;
        let u = (x >> 8) % 12;
        x = (x * 1103515245 + 12345) % 2147483648;
        let v = (x >> 8) % 12;
        ops.push((u, v));
    }
    run(&ops, 12);
}

#[test]
fn euler_tour_link_cut_undoes() {
    let mut t = EulerTourTree::new(6);
    let a = t.link(0, 1).unwrap();
    let _b = t.link(2, 3).unwrap();
    let c = t.link(1, 2).unwrap();
    assert!(t.is_connected(0, 3));
    t.cut(c);
    assert!(t.is_connected(0, 1));
    assert!(t.is_connected(2, 3));
    assert!(!t.is_connected(1, 2));
    t.cut(a);
    assert!(!t.is_connected(0, 1));
    assert_eq!(6, t.num_vertices());
}

#[test]
fn seq_insert_rotated() {
    let mut edges: Vec<SeqEdge> = (0..9).map(SeqEdge::new).collect();
    let mut seq = EdgeSeq::with_capacity(9);
    for i in 0..4 {
        seq.push(&mut edges, 0, i);
    }
    let mut other = EdgeSeq::with_capacity(9);
    for i in 4..7 {
        other.push(&mut edges, 1, i);
    }
    seq.insert_rotated(&mut edges, 0, 2, 7, 8, &mut other, 1, 1);
    assert_eq!(vec![0, 1, 7, 5, 6, 4, 8, 2, 3], ids(&seq));
    assert_eq!(0, other.len());
    for (r, &x) in ids(&seq).iter().enumerate() {
        assert_eq!(0, edges[x].tree());
        assert_eq!(r, edges[x].rank());
    }
}

#[test]
fn nested_seq_chunk_layout() {
    let mut a = NestedSeq::with_capacity(16);
    let mut b = NestedSeq::with_capacity(16);
    for i in 0..3 {
        a.push(i);
    }
    for i in 10..20 {
        b.push(i);
    }
    assert_eq!((1, 1), b.find_seq(9));
    a.append(&mut b);
    assert_eq!((1, 0), a.find_seq(3));
    assert_eq!((2, 1), a.find_seq(12));
    a.rotate(5);
    assert_eq!((0, 5), a.find_seq(5));
    assert_eq!((1, 0), a.find_seq(6));
    assert_eq!((2, 0), a.find_seq(8));
    assert_eq!((2, 4), a.find_seq(12));
    let mut c = NestedSeq::with_capacity(16);
    let mut d = NestedSeq::with_capacity(16);
    for i in 0..3 {
        c.push(i);
    }
    d.push(10);
    d.push(11);
    c.append(&mut d);
    assert_eq!((0, 4), c.find_seq(4));
}

#[test]
fn euler_tour_link_hands_out_last_free_index() {
    let mut t = EulerTourTree::new(4);
    let a = t.link(0, 1).unwrap();
    let b = t.link(1, 2).unwrap();
    assert_eq!(0, a.to_usize());
    assert_eq!(1, b.to_usize());
    t.cut(a);
    let c = t.link(2, 3).unwrap();
    assert_eq!(0, c.to_usize());
}
