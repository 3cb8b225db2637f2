use fera::unionfind::{HashUnionFind, UnionFind};

fn check(ds: &mut UnionFind, num_sets: usize, groups: &[&[usize]]) {
    assert_eq!(num_sets, ds.num_sets());
    for group in groups {
        for &a in *group {
            assert!(ds.in_same_set(group[0], a));
        }
    }
}

#[test]
fn unionfind1() {
    let mut ds = UnionFind::with_keys_in_range(5);
    check(&mut ds, 5, &[&[]]);
    ds.union(0, 2);
    check(&mut ds, 4, &[&[0, 2]]);
    ds.union(1, 3);
    check(&mut ds, 3, &[&[0, 2], &[1, 3]]);
    ds.union(2, 4);
    check(&mut ds, 2, &[&[0, 2, 4], &[1, 3]]);
    ds.union(3, 4);
    check(&mut ds, 1, &[&[0, 2, 4, 1, 3]]);
}

#[test]
fn unionfind2() {
    let mut ds = UnionFind::with_keys_in_range(16);
    ds.union(0, 1);
    ds.union(2, 3);
    ds.union(4, 5);
    ds.union(6, 7);

    ds.union(1, 2);
    ds.union(5, 6);
    ds.union(3, 7);

    ds.union(8, 9);
    ds.union(10, 11);
    ds.union(12, 13);
    ds.union(14, 15);

    ds.union(9, 10);
    ds.union(13, 14);
    ds.union(11, 15);

    ds.union(7, 15);

    check(&mut ds, 1, &[&[0, 1, 2, 3, 4, 5, 6, 7, 8, 9, 10, 11, 12, 13, 14, 15]]);
}

#[test]
fn unionfind_find_set_is_a_representative() {
    let mut ds = UnionFind::with_keys_in_range(6);
    ds.union(0, 1);
    ds.union(1, 2);
    let r = ds.find_set(2);
    assert_eq!(r, ds.find_set(r));
    assert_eq!(r, ds.find_set(0));
    assert_ne!(r, ds.find_set(3));
    assert!(!ds.in_same_set(0, 5));
}

#[test]
fn unionfind_reset_separates_all() {
    let mut ds = UnionFind::with_keys_in_range(4);
    ds.union(0, 1);
    ds.union(2, 3);
    assert_eq!(2, ds.num_sets());
    ds.reset();
    assert_eq!(4, ds.num_sets());
    for i in 0..4 {
        for j in 0..4 {
            assert_eq!(i == j, ds.in_same_set(i, j));
        }
    }
}

fn check_groups(ds: &mut UnionFind, groups: &[&[usize]]) {
    for group in groups.iter() {
        for &a in group.iter() {
            assert!(ds.in_same_set(group[0], a));
        }
    }
}

#[test]
fn unionfind() {
    let g = fera::graph::StaticBuilder::new(5, 0, false).finalize();
    let v = g.vertices();
    let mut ds = fera::kruskal::NewUnionFind.build(&g);
    ds.union(v[0], v[2]);
    check_groups(&mut ds, &[&[v[0], v[2]]]);
    ds.union(v[1], v[3]);
    check_groups(&mut ds, &[&[v[0], v[2]], &[v[1], v[3]]]);
    ds.union(v[2], v[4]);
    check_groups(&mut ds, &[&[v[0], v[2], v[4]], &[v[1], v[3]]]);
    ds.union(v[3], v[4]);
    check_groups(&mut ds, &[&[v[0], v[2], v[4], v[1], v[3]]]);
}

#[test]
fn hash_unionfind_sets_of_keys() {
    let red: u64 = 0xff0000;
    let green: u64 = 0x00ff00;
    let blue: u64 = 0x0000ff;
    let mut s = HashUnionFind::new();
    assert_eq!(0, s.num_sets());
    s.make_set(red);
    s.make_set(green);
    s.make_set(blue);

    assert_eq!(3, s.num_sets());
    assert!(!s.in_same_set(red, green));
    assert!(!s.in_same_set(red, blue));
    assert_eq!(green, s.find_set(green));

    s.union(red, blue);

    assert_eq!(2, s.num_sets());
    assert!(!s.in_same_set(red, green));
    assert!(s.in_same_set(red, blue));
    let r = s.find_set(red);
    assert!(r == red || r == blue);
    assert_eq!(r, s.find_set(blue));
}

#[test]
fn hash_unionfind_chain_joins_everything() {
    let mut s = HashUnionFind::new();
    for k in 0..10u64 {
        s.make_set(k * 1000);
    }
    assert_eq!(10, s.num_sets());
    for k in 1..10u64 {
        s.union((k - 1) * 1000, k * 1000);
        assert_eq!((10 - k) as usize, s.num_sets());
    }
    let r = s.find_set(0);
    for k in 0..10u64 {
        assert_eq!(r, s.find_set(k * 1000));
    }
}

