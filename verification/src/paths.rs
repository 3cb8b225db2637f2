//! Paths between vertices, found by depth-first search.
use vstd::prelude::*;
use crate::graph::Static;
use crate::trace::{all_white, dfs_step, dfs_steps, dfs_discovers_at, stack_edges};
use crate::dfs::{
    Color, DfsStack, num_white, stack_ok, entry_ok, closed_black, monotone, grown_by_reach, reachable, vec_of,
    lemma_num_white_update, lemma_closed_reach, on_stack,
};

verus! {

/// `p` is a path of edges from `u` to `v`: each edge enters the vertex that the next one
/// leaves.
pub open spec fn is_edge_path(g: &Static, p: Seq<usize>, u: int, v: int) -> bool {
    &&& p.len() > 0
    &&& forall|i: int| 0 <= i < p.len() ==> g.has_edge(#[trigger] p[i] as int)
    &&& g.spec_source(p[0] as int) == u
    &&& g.spec_target(p.last() as int) == v
    &&& forall|i: int| 0 <= i < p.len() - 1 ==> g.spec_target(#[trigger] p[i] as int) == g.spec_source(p[i + 1] as int)
}

/// The tree edges on the stack, from the root up.
spec fn path_ok(g: &Static, root: usize, st: Seq<(Option<usize>, usize, usize)>, p: Seq<usize>) -> bool {
    &&& st.len() == 0 ==> p.len() == 0
    &&& st.len() > 0 ==> p.len() + 1 == st.len() && st[0].0 is None && st[0].1 == root
    &&& forall|i: int|
        0 <= i < p.len() ==> st[i + 1].0 == Some(#[trigger] p[i]) && g.has_edge(p[i] as int) && g.spec_source(p[i] as int)
            == st[i].1 && g.spec_target(p[i] as int) == st[i + 1].1
}

proof fn lemma_path_k(
    g: &Static,
    root: usize,
    st: Seq<(Option<usize>, usize, usize)>,
    p: Seq<usize>,
    from: Option<usize>,
    u: usize,
    k0: usize,
    k1: usize,
)
    requires
        path_ok(g, root, st.push((from, u, k0)), p),
    ensures
        path_ok(g, root, st.push((from, u, k1)), p),
{
    let a = st.push((from, u, k0));
    let b = st.push((from, u, k1));
    assert forall|i: int| 0 <= i < p.len() implies b[i + 1].0 == Some(#[trigger] p[i]) && g.has_edge(p[i] as int)
        && g.spec_source(p[i] as int) == b[i].1 && g.spec_target(p[i] as int) == b[i + 1].1 by {
        assert(a[i + 1].0 == Some(p[i]));
    }
}

/// A path of edges from `u` to `v`, found by a depth-first search from `u`: the tree
/// edges from `u` to `v`. `None` when `u == v` or when `v` cannot be reached from `u`.
pub fn find_path(g: &Static, u: usize, v: usize) -> (r: Option<Vec<usize>>)
    requires
        g.wf(),
        u < g.spec_num_vertices(),
        v < g.spec_num_vertices(),
    ensures
        u == v ==> r is None,
        r matches Some(p) ==> is_edge_path(g, p@, u as int, v as int),
        r is None && u != v ==> !reachable(g, u as int, v as int),
        r matches Some(p) ==> exists|n: nat|
            #[trigger] dfs_discovers_at(g, g.spec_num_vertices(), u, v, n) && p@ == stack_edges(
                dfs_steps(
                    g,
                    all_white(g.spec_num_vertices()).update(u as int, Color::Gray),
                    seq![(None::<usize>, u, 0usize)],
                    n,
                ).1,
            ),
        r matches Some(p) ==> forall|i: int|
            0 <= i < p@.len() ==> g.spec_target(#[trigger] p@[i] as int) != u,
        r matches Some(p) ==> forall|i: int, j: int|
            0 <= i < j < p@.len() ==> g.spec_target(#[trigger] p@[i] as int) != g.spec_target(#[trigger] p@[j] as int),
{
    if u == v {
        return None;
    }
    let n = g.num_vertices();
    let mut color = vec_of(Color::White, n);
    let mut stack: DfsStack = Vec::new();
    let mut path: Vec<usize> = Vec::new();
    color.set(u, Color::Gray);
    stack.push((None, u, 0));
    let ghost c0 = color@;
    let ghost s0 = stack@;
    let ghost mut n: nat = 0;
    proof {
        assert(c0 =~= all_white(g.spec_num_vertices()).update(u as int, Color::Gray));
        assert(s0 =~= seq![(None::<usize>, u, 0usize)]);
        let st = stack@;
        assert(entry_ok(g, color@, st[0]));
        assert forall|w: int| 0 <= w < color@.len() && color@[w] == Color::Gray implies #[trigger] on_stack(st, w) by {
            reveal(on_stack);
            assert(st[0].1 == w);
        }
    }
    while stack.len() > 0
        invariant
            g.wf(),
            u < g.spec_num_vertices(),
            v < g.spec_num_vertices(),
            u != v,
            color@.len() == g.spec_num_vertices(),
            c0.len() == g.spec_num_vertices(),
            c0[u as int] == Color::Gray,
            stack_ok(g, color@, stack@),
            closed_black(g, color@),
            monotone(c0, color@),
            grown_by_reach(g, c0, color@),
            color@[v as int] == Color::White,
            path_ok(g, u, stack@, path@),
            s0 == seq![(None::<usize>, u, 0usize)],
            c0 == all_white(g.spec_num_vertices()).update(u as int, Color::Gray),
            dfs_steps(g, c0, s0, n).0 == color@,
            dfs_steps(g, c0, s0, n).1 == stack@,
            forall|m: nat| m <= n ==> (#[trigger] dfs_steps(g, c0, s0, m)).0[v as int] == Color::White,
        decreases num_white(color@), stack@.len(),
    {
        let ghost w0 = num_white(color@);
        let ghost s_before = stack@;
        let top = stack.pop();
        let (from, x, k0) = top.unwrap();
        proof {
            assert(stack@ == s_before.drop_last());
            assert(entry_ok(g, color@, s_before[s_before.len() - 1]));
            assert(s_before.drop_last().push((from, x, k0)) =~= s_before);
        }
        let d = g.out_degree(x);
        let mut k = k0;
        let mut descended = false;
        while k < d && !descended
            invariant
                g.wf(),
                u < g.spec_num_vertices(),
                v < g.spec_num_vertices(),
                u != v,
                color@.len() == g.spec_num_vertices(),
                c0.len() == g.spec_num_vertices(),
                c0[u as int] == Color::Gray,
                x < g.spec_num_vertices(),
                k <= d,
                d == g.spec_out_edges(x as int).len(),
                !descended ==> stack@ == s_before.drop_last() && num_white(color@) == w0 && stack_ok(
                    g,
                    color@,
                    stack@.push((from, x, k)),
                ) && path_ok(g, u, stack@.push((from, x, k)), path@),
                descended ==> num_white(color@) < w0 && stack_ok(g, color@, stack@) && path_ok(g, u, stack@, path@),
                closed_black(g, color@),
                monotone(c0, color@),
                grown_by_reach(g, c0, color@),
                color@[v as int] == Color::White,
                s0 == seq![(None::<usize>, u, 0usize)],
                c0 == all_white(g.spec_num_vertices()).update(u as int, Color::Gray),
                dfs_steps(g, c0, s0, n).0 == color@,
                !descended ==> dfs_steps(g, c0, s0, n).1 == stack@.push((from, x, k)),
                descended ==> dfs_steps(g, c0, s0, n).1 == stack@,
                forall|m: nat| m <= n ==> (#[trigger] dfs_steps(g, c0, s0, m)).0[v as int] == Color::White,
            decreases d - k,
        {
            let ghost c1 = color@;
            let ghost p1 = path@;
            let ghost s_cur = stack@.push((from, x, k));
            let ghost q = dfs_step(g, c1, s_cur);
            proof {
                assert(s_cur.drop_last() =~= stack@);
                assert(dfs_steps(g, c0, s0, n + 1).0 == q.0);
                assert(dfs_steps(g, c0, s0, n + 1).1 == q.1);
            }
            let e = g.out_edge(x, k);
            let w = g.target(e);
            k = k + 1;
            let skip = (g.is_undirected_edge(e) && color[w] == Color::Black) || match from {
                Some(f) => g.edge_index(f) == g.edge_index(e),
                None => false,
            };
            proof {
                assert(entry_ok(g, color@, stack@.push((from, x, (k - 1) as usize))[stack@.len() as int]));
                lemma_path_k(g, u, stack@, path@, from, x, (k - 1) as usize, k);
            }
            if !skip {
                if color[w] == Color::White {
                    color.set(w, Color::Gray);
                    proof {
                        lemma_num_white_update(c1, w as int, Color::Gray);
                        crate::dfs::lemma_discover(g, c0, c1, color@, stack@, from, x, k, e, w);
                    }
                    let ghost st1 = stack@;
                    stack.push((from, x, k));
                    stack.push((Some(e), w, 0));
                    path.push(e);
                    descended = true;
                    proof {
                        let a = st1.push((from, x, k));
                        let b = stack@;
                        assert(b == a.push((Some(e), w, 0usize)));
                        assert forall|i: int| 0 <= i < path@.len() implies b[i + 1].0 == Some(#[trigger] path@[i])
                            && g.has_edge(path@[i] as int) && g.spec_source(path@[i] as int) == b[i].1 && g.spec_target(
                            path@[i] as int,
                        ) == b[i + 1].1 by {
                            if i < p1.len() {
                                assert(path@[i] == p1[i]);
                                assert(a[i + 1].0 == Some(p1[i]));
                            } else {
                                assert(b[i].1 == x);
                            }
                        }
                        if st1.len() == 0 {
                            assert(a[0] == (from, x, k));
                        } else {
                            assert(b[0] == a[0]);
                        }
                    }
                    if w == v {
                        proof {
                            let p = path@;
                            let b = stack@;
                            assert(b =~= q.1);
                            assert(p =~= stack_edges(b));
                            assert(dfs_discovers_at(g, g.spec_num_vertices(), u, v, n + 1));
                            assert(stack_ok(g, color@, b));
                            assert forall|i: int| 0 <= i < p.len() implies g.spec_target(#[trigger] p[i] as int) != u by {
                                assert(b[i + 1].1 != b[0].1);
                            }
                            assert forall|i: int, j: int| 0 <= i < j < p.len() implies g.spec_target(#[trigger] p[i] as int)
                                != g.spec_target(#[trigger] p[j] as int) by {
                                assert(b[i + 1].1 != b[j + 1].1);
                            }
                            assert(b[0].1 == u);
                            assert(g.spec_source(p[0] as int) == u);
                            assert(g.spec_target(p.last() as int) == v);
                            assert forall|i: int| 0 <= i < p.len() - 1 implies g.spec_target(#[trigger] p[i] as int)
                                == g.spec_source(p[i + 1] as int) by {
                                assert(g.spec_target(p[i] as int) == b[i + 1].1);
                            }
                        }
                        return Some(path);
                    }
                    proof {
                        assert(stack@ =~= q.1);
                        assert forall|m: nat| m <= n + 1 implies (#[trigger] dfs_steps(g, c0, s0, m)).0[v as int] == Color::White by {
                            if m <= n {
                            }
                        }
                        n = n + 1;
                    }
                } else {
                    proof {
                        crate::dfs::lemma_seen(g, color@, stack@, from, x, k, e, w);
                        assert(stack@.push((from, x, k)) =~= q.1);
                        assert forall|m: nat| m <= n + 1 implies (#[trigger] dfs_steps(g, c0, s0, m)).0[v as int] == Color::White by {
                            if m <= n {
                            }
                        }
                        n = n + 1;
                    }
                }
            } else {
                proof {
                    crate::dfs::lemma_skip(g, color@, stack@, from, x, k, e, w);
                    assert(stack@.push((from, x, k)) =~= q.1);
                    assert forall|m: nat| m <= n + 1 implies (#[trigger] dfs_steps(g, c0, s0, m)).0[v as int] == Color::White by {
                        if m <= n {
                        }
                    }
                    n = n + 1;
                }
            }
        }
        if !descended {
            let ghost c2 = color@;
            let ghost p2 = path@;
            let ghost q = dfs_step(g, c2, stack@.push((from, x, k)));
            proof {
                assert(stack@.push((from, x, k)).drop_last() =~= stack@);
                assert(dfs_steps(g, c0, s0, n + 1).0 == q.0);
                assert(dfs_steps(g, c0, s0, n + 1).1 == q.1);
            }
            color.set(x, Color::Black);
            proof {
                lemma_num_white_update(c2, x as int, Color::Black);
                crate::dfs::lemma_finish(g, c0, c2, color@, stack@, from, x, k);
            }
            if from.is_some() {
                path.pop();
            }
            proof {
                let a = stack@.push((from, x, k));
                assert(path_ok(g, u, a, p2));
                if stack@.len() == 0 {
                    assert(a[0] == (from, x, k));
                    assert(p2.len() == 0);
                } else {
                    assert(a[stack@.len() as int].0 == Some(p2[stack@.len() - 1]));
                    assert(path@ == p2.drop_last());
                    assert(stack@[0] == a[0]);
                    assert forall|i: int| 0 <= i < path@.len() implies stack@[i + 1].0 == Some(#[trigger] path@[i])
                        && g.has_edge(path@[i] as int) && g.spec_source(path@[i] as int) == stack@[i].1
                        && g.spec_target(path@[i] as int) == stack@[i + 1].1 by {
                        assert(path@[i] == p2[i]);
                        assert(a[i + 1] == stack@[i + 1]);
                        assert(a[i] == stack@[i]);
                    }
                }
                assert(x != v);
                assert forall|m: nat| m <= n + 1 implies (#[trigger] dfs_steps(g, c0, s0, m)).0[v as int] == Color::White by {
                    if m <= n {
                    }
                }
                n = n + 1;
            }
        }
    }
    proof {
        assert forall|y: int| 0 <= y < color@.len() implies color@[y] != Color::Gray by {
            if color@[y] == Color::Gray {
                assert(on_stack(stack@, y));
                reveal(on_stack);
            }
        }
        assert(rank_ge_gray(color@[u as int])) by {
            assert(crate::dfs::rank(color@[u as int]) >= crate::dfs::rank(c0[u as int]));
        }
        if reachable(g, u as int, v as int) {
            lemma_closed_reach(g, color@, u as int, v as int);
        }
    }
    None
}

spec fn rank_ge_gray(c: Color) -> bool {
    c == Color::Gray || c == Color::Black
}

/// The vertex reached from `v` by following `k` parent edges of `tree`; `None` where the
/// parent edges end before.
pub open spec fn climb(g: &Static, tree: Seq<Option<usize>>, v: int, k: nat) -> Option<int>
    decreases k,
{
    if k == 0 {
        Some(v)
    } else {
        match climb(g, tree, v, (k - 1) as nat) {
            Some(x) => if 0 <= x < tree.len() && tree[x] is Some {
                Some(g.spec_source(tree[x]->0 as int) as int)
            } else {
                None
            },
            None => None,
        }
    }
}

/// `tree` gives each vertex at most one parent edge, which enters it.
pub open spec fn is_parent_tree(g: &Static, tree: Seq<Option<usize>>) -> bool {
    &&& tree.len() == g.spec_num_vertices()
    &&& forall|x: int|
        0 <= x < tree.len() && #[trigger] tree[x] is Some ==> g.has_edge(tree[x]->0 as int) && g.spec_target(
            tree[x]->0 as int,
        ) == x
}

/// Once the parent edges end, they stay ended.
pub proof fn lemma_climb_ended(g: &Static, tree: Seq<Option<usize>>, v: int, k: nat, j: nat)
    requires
        climb(g, tree, v, k) is None,
        k <= j,
    ensures
        climb(g, tree, v, j) is None,
    decreases j - k,
{
    if k < j {
        lemma_climb_ended(g, tree, v, k, (j - 1) as nat);
    }
}

/// The path from `u` to `v` along the parent edges of `tree`, climbing from `v`; `None`
/// when `u == v` or when the parent edges end before reaching `u`. The climb must stop:
/// within some number of steps it reaches `u` or a vertex without parent edge.
pub fn find_path_on_parent_tree(g: &Static, tree: &Vec<Option<usize>>, u: usize, v: usize) -> (r: Option<Vec<usize>>)
    requires
        g.wf(),
        is_parent_tree(g, tree@),
        u < g.spec_num_vertices(),
        v < g.spec_num_vertices(),
        exists|k: nat| k >= 1 && (#[trigger] climb(g, tree@, v as int, k) is None || climb(g, tree@, v as int, k) == Some(u as int)),
    ensures
        r is Some <==> (u != v && exists|k: nat| k >= 1 && #[trigger] climb(g, tree@, v as int, k) == Some(u as int)),
        r matches Some(p) ==> is_edge_path(g, p@, u as int, v as int) && forall|i: int|
            0 <= i < p@.len() ==> tree@[g.spec_target(#[trigger] p@[i] as int) as int] == Some(p@[i]),
{
    if u == v {
        return None;
    }
    let ghost bound: nat = choose|k: nat| k >= 1 && (#[trigger] climb(g, tree@, v as int, k) is None || climb(g, tree@, v as int, k) == Some(u as int));
    let mut x = v;
    let mut up: Vec<usize> = Vec::new();
    loop
        invariant
            g.wf(),
            is_parent_tree(g, tree@),
            u < g.spec_num_vertices(),
            u != v,
            bound >= 1,
            climb(g, tree@, v as int, bound) is None || climb(g, tree@, v as int, bound) == Some(u as int),
            up@.len() < bound,
            x < g.spec_num_vertices(),
            climb(g, tree@, v as int, up@.len() as nat) == Some(x as int),
            forall|j: nat| 1 <= j <= up@.len() ==> #[trigger] climb(g, tree@, v as int, j) != Some(u as int),
            forall|i: int|
                0 <= i < up@.len() ==> {
                    &&& g.has_edge(#[trigger] up@[i] as int)
                    &&& climb(g, tree@, v as int, i as nat) == Some(g.spec_target(up@[i] as int) as int)
                    &&& tree@[g.spec_target(up@[i] as int) as int] == Some(up@[i])
                    &&& climb(g, tree@, v as int, (i + 1) as nat) == Some(g.spec_source(up@[i] as int) as int)
                },
        decreases bound - up@.len(),
    {
        let ghost k = up@.len() as nat;
        match tree[x] {
            None => {
                proof {
                    assert(climb(g, tree@, v as int, k + 1) is None);
                    assert forall|j: nat| j >= 1 implies #[trigger] climb(g, tree@, v as int, j) != Some(u as int) by {
                        if j > k {
                            lemma_climb_ended(g, tree@, v as int, k + 1, j);
                        }
                    }
                }
                return None;
            },
            Some(e) => {
                proof {
                    assert(tree@[x as int] is Some);
                    g.lemma_target_range(e as int);
                }
                let s = g.source(e);
                up.push(e);
                x = s;
                proof {
                    assert(climb(g, tree@, v as int, k + 1) == Some(s as int));
                    assert forall|i: int| 0 <= i < up@.len() implies {
                        &&& g.has_edge(#[trigger] up@[i] as int)
                        &&& climb(g, tree@, v as int, i as nat) == Some(g.spec_target(up@[i] as int) as int)
                        &&& tree@[g.spec_target(up@[i] as int) as int] == Some(up@[i])
                        &&& climb(g, tree@, v as int, (i + 1) as nat) == Some(g.spec_source(up@[i] as int) as int)
                    } by {
                    }
                }
                if x == u {
                    let p = reversed(&up);
                    proof {
                        let m = up@.len() as int;
                        assert forall|i: int| 0 <= i < p@.len() implies g.has_edge(#[trigger] p@[i] as int) by {
                            assert(p@[i] == up@[m - 1 - i]);
                        }
                        assert(p@[0] == up@[m - 1]);
                        assert(p@.last() == up@[0]);
                        assert(climb(g, tree@, v as int, 0) == Some(v as int));
                        assert forall|i: int| 0 <= i < p@.len() - 1 implies g.spec_target(#[trigger] p@[i] as int)
                            == g.spec_source(p@[i + 1] as int) by {
                            assert(p@[i] == up@[m - 1 - i]);
                            assert(p@[i + 1] == up@[m - 2 - i]);
                            assert(m - 1 - i == (m - 2 - i) + 1);
                        }
                        assert forall|i: int| 0 <= i < p@.len() implies tree@[g.spec_target(#[trigger] p@[i] as int) as int]
                            == Some(p@[i]) by {
                            assert(p@[i] == up@[m - 1 - i]);
                        }
                        assert(climb(g, tree@, v as int, m as nat) == Some(u as int));
                    }
                    return Some(p);
                }
                proof {
                    if k + 1 == bound {
                        assert(climb(g, tree@, v as int, bound) == Some(x as int));
                    }
                }
            },
        }
    }
}

/// The entries of `v` in the reverse order.
fn reversed(v: &Vec<usize>) -> (r: Vec<usize>)
    ensures
        r@.len() == v@.len(),
        forall|i: int| 0 <= i < v@.len() ==> #[trigger] r@[i] == v@[v@.len() - 1 - i],
{
    let mut r: Vec<usize> = Vec::new();
    let mut i = v.len();
    while i > 0
        invariant
            i <= v@.len(),
            r@.len() == v@.len() - i,
            forall|j: int| 0 <= j < r@.len() ==> #[trigger] r@[j] == v@[v@.len() - 1 - j],
        decreases i,
    {
        i = i - 1;
        r.push(v[i]);
    }
    r
}

} // verus!
