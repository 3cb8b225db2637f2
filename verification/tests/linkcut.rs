use fera::linkcut::{self, LinkCutTree, UnsafeCellNode};

fn assert_node(t: &LinkCutTree, x: usize, parent: Option<usize>, left: Option<usize>, right: Option<usize>) {
    assert_eq!(parent, t.parent(x));
    assert_eq!(left, t.left(x));
    assert_eq!(right, t.right(x));
}

#[test]
fn rotate() {
    // left rotation
    //     pp               pp
    //      \                \
    //       p                s
    //      / \      ->      / \
    //     s  p.r         s.l   p
    //    / \                  / \
    // s.l  s.r              s.r  p.r
    let mut t = LinkCutTree::new(6);
    let (pp, p, pr, s, sl, sr) = (0, 1, 2, 3, 4, 5);

    t.connect_right(pp, Some(p));
    t.connect_left(p, Some(s));
    t.connect_right(p, Some(pr));
    t.connect_left(s, Some(sl));
    t.connect_right(s, Some(sr));

    t.rotate(s);

    assert_node(&t, pp, None, None, Some(s));
    assert_node(&t, s, Some(pp), Some(sl), Some(p));
    assert_node(&t, sl, Some(s), None, None);
    assert_node(&t, p, Some(s), Some(sr), Some(pr));
    assert_node(&t, sr, Some(p), None, None);
    assert_node(&t, pr, Some(p), None, None);
}

#[test]
fn node_ids() {
    let n = UnsafeCellNode::new(4);
    assert_eq!(4, n.id());
}

/// Connectivity by search over a list of edges, to compare with.
fn naive_connected(n: usize, edges: &[(usize, usize)], u: usize, v: usize) -> bool {
    let mut seen = vec![false; n];
    let mut stack = vec![u];
    seen[u] = true;
    while let Some(x) = stack.pop() {
        for &(a, b) in edges {
            for &(p, q) in &[(a, b), (b, a)] {
                if p == x && !seen[q] {
                    seen[q] = true;
                    stack.push(q);
                }
            }
        }
    }
    seen[v]
}

fn check(ops: Vec<(u8, u8)>) {
    let n = 25;
    let mut t = LinkCutTree::new(n);
    let mut present: Vec<(usize, usize)> = vec![];
    for &(u, v) in &ops {
        let (u, v) = (u as usize % n, v as usize % n);
        let pos = present.iter().position(|&(a, b)| (a, b) == (u, v) || (a, b) == (v, u));
        if let Some(p) = pos {
            let e = present.remove(p);
            assert!(t.is_connected(e.0, e.1));
            t.cut(e);
            assert!(!t.is_connected(e.0, e.1));
        } else if !naive_connected(n, &present, u, v) {
            let e = t.link(u, v).unwrap();
            assert_eq!((u, v), t.ends(&e));
            assert!(t.is_connected(u, v));
            present.push(e);
        }
        for i in 0..n {
            for j in 0..n {
                assert_eq!(naive_connected(n, &present, i, j), t.is_connected(i, j), "{} {}", i, j);
            }
        }
    }
    t.clear();
    for i in 0..n {
        for j in 0..n {
            assert_eq!(i == j, t.is_connected(i, j));
        }
    }
}

#[test]
fn basic() {
    check(vec![(0, 0)]);
    check(vec![(0, 1), (0, 1)]);
    check(vec![(0, 1), (1, 0)]);
    check(vec![(0, 1), (0, 2)]);
    check(vec![(3, 2), (1, 2), (1, 0), (3, 4)]);
    check(vec![(0, 2), (1, 2), (1, 3)]);
    check(vec![(0, 2), (1, 2), (1, 3)]);
}

#[test]
fn free_functions() {
    let mut t = LinkCutTree::new(4);
    linkcut::link(&mut t, 0, 1);
    linkcut::link(&mut t, 2, 1);
    assert!(linkcut::is_connected(&mut t, 0, 2));
    assert!(!linkcut::is_connected(&mut t, 0, 3));
    linkcut::cut(&mut t, 0, 1);
    assert!(!linkcut::is_connected(&mut t, 0, 2));
    assert!(linkcut::is_connected(&mut t, 1, 2));
}

#[test]
fn root_of_and_clear() {
    let mut t = LinkCutTree::new(5);
    assert!(!t.is_connected(0, 4));
    t.link(0, 1).unwrap();
    t.link(1, 2).unwrap();
    t.link(3, 2).unwrap();
    assert_eq!(t.root_of(0), t.root_of(3));
    assert_ne!(t.root_of(0), t.root_of(4));
    assert!(t.is_connected(0, 3));
    t.cut((1, 2));
    assert!(!t.is_connected(0, 3));
    assert!(t.is_connected(0, 1));
    assert!(t.is_connected(2, 3));
    t.clear();
    for a in 0..5 {
        for b in 0..5 {
            assert_eq!(a == b, t.is_connected(a, b));
        }
    }
}

#[test]
fn find_root_stays_in_tree() {
    let mut t = LinkCutTree::new(6);
    t.link(0, 1).unwrap();
    t.link(2, 1).unwrap();
    t.link(4, 5).unwrap();
    let r = t.find_root(0);
    assert!(t.is_connected(r, 0));
    assert!(r == 0 || r == 1 || r == 2);
}
