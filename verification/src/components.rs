//! Connected components, found by depth-first search from each vertex in turn.
use vstd::prelude::*;
use crate::graph::Static;
use crate::dfs::{
    Color, DfsStack, num_white, stack_ok, entry_ok, closed_black, monotone, grown_by_reach, reachable,
    reached, reached_from, vec_of, rank, dfs_visit, EmptyVisitor, on_stack, lemma_num_white_update,
    lemma_closed_reach, lemma_reach_self, lemma_reach_trans, lemma_discover, lemma_seen, lemma_skip, lemma_finish,
};
use crate::control::Control;

verus! {

/// The least vertex below `w` from which `v` can be reached, counting from `w`; `v` itself
/// when there is none below it.
pub open spec fn first_reacher(g: &Static, v: int, w: int) -> int
    decreases v - w,
{
    if w >= v {
        v
    } else if reachable(g, w, v) {
        w
    } else {
        first_reacher(g, v, w + 1)
    }
}

/// The least vertex from which `v` can be reached: the root of the search that finds `v`.
pub open spec fn least_reacher(g: &Static, v: int) -> int {
    first_reacher(g, v, 0)
}

/// The number of vertices below `k` that no smaller vertex reaches: the searches that
/// start among the first `k` vertices.
pub open spec fn num_roots(g: &Static, k: int) -> nat
    decreases k,
{
    if k <= 0 {
        0
    } else {
        num_roots(g, k - 1) + if least_reacher(g, k - 1) == k - 1 {
            1nat
        } else {
            0nat
        }
    }
}

proof fn lemma_first_reacher(g: &Static, v: int, w: int)
    requires
        0 <= w <= v <= usize::MAX,
        forall|x: int| 0 <= x < w ==> !reachable(g, x, v),
    ensures
        w <= first_reacher(g, v, w) <= v,
        reachable(g, first_reacher(g, v, w), v),
        forall|x: int| 0 <= x < first_reacher(g, v, w) ==> !reachable(g, x, v),
    decreases v - w,
{
    if w >= v {
        lemma_reach_self(g, v);
    } else if reachable(g, w, v) {
    } else {
        lemma_first_reacher(g, v, w + 1);
    }
}

/// `least_reacher` is the least vertex that reaches `v`.
pub proof fn lemma_least_reacher(g: &Static, v: int)
    requires
        0 <= v <= usize::MAX,
    ensures
        0 <= least_reacher(g, v) <= v,
        reachable(g, least_reacher(g, v), v),
        forall|x: int| 0 <= x < least_reacher(g, v) ==> !reachable(g, x, v),
{
    lemma_first_reacher(g, v, 0);
}

/// After searching from the vertices below `i`, the black vertices are those that a vertex
/// below `i` reaches.
spec fn searched(g: &Static, c: Seq<Color>, i: int) -> bool {
    &&& forall|x: int| 0 <= x < c.len() ==> #[trigger] c[x] != Color::Gray
    &&& closed_black(g, c)
    &&& forall|x: int|
        0 <= x < c.len() ==> (#[trigger] c[x] == Color::Black <==> exists|w: int| 0 <= w < i && reachable(g, w, x))
}

proof fn lemma_searched_root(g: &Static, c: Seq<Color>, i: int)
    requires
        g.wf(),
        c.len() == g.spec_num_vertices(),
        0 <= i < c.len(),
        searched(g, c, i),
    ensures
        (c[i] == Color::White) == (least_reacher(g, i) == i),
{
    g.lemma_num_vertices();
    lemma_least_reacher(g, i);
    if c[i] == Color::White {
        assert forall|w: int| 0 <= w < i implies !reachable(g, w, i) by {
        }
    } else {
        let w = choose|w: int| 0 <= w < i && reachable(g, w, i);
    }
}

/// Searching from `i` after the vertices below it: the new black vertices are those that
/// `i` reaches and no smaller vertex does.
proof fn lemma_searched_step(g: &Static, c1: Seq<Color>, c2: Seq<Color>, c3: Seq<Color>, i: int)
    requires
        g.wf(),
        c1.len() == g.spec_num_vertices(),
        0 <= i < c1.len(),
        searched(g, c1, i),
        c1[i] == Color::White,
        c2 == c1.update(i, Color::Gray),
        monotone(c2, c3),
        grown_by_reach(g, c2, c3),
        closed_black(g, c3),
        forall|x: int| 0 <= x < c3.len() ==> #[trigger] c3[x] != Color::Gray,
    ensures
        searched(g, c3, i + 1),
        forall|x: int| 0 <= x < c3.len() && c1[x] == Color::White && #[trigger] c3[x] != Color::White ==> least_reacher(g, x) == i,
{
    g.lemma_num_vertices();
    assert(rank(c3[i]) >= rank(c2[i]));
    assert forall|x: int| 0 <= x < c3.len() implies (#[trigger] c3[x] == Color::Black <==> exists|w: int|
        0 <= w < i + 1 && reachable(g, w, x)) by {
        if c3[x] == Color::Black {
            assert(rank(c3[x]) >= rank(c2[x]));
            if c2[x] == Color::White {
                assert(reached(g, c2, x));
                reveal(reached);
                let w = choose|w: int| 0 <= w < c2.len() && c2[w] == Color::Gray && reachable(g, w, x);
                assert(w == i);
            } else if x == i {
                lemma_reach_self(g, i);
            } else {
                assert(c1[x] == Color::Black);
            }
        }
        if exists|w: int| 0 <= w < i + 1 && reachable(g, w, x) {
            let w = choose|w: int| 0 <= w < i + 1 && reachable(g, w, x);
            if w == i {
                lemma_closed_reach(g, c3, i, x);
            } else {
                assert(c1[w] == Color::Black) by {
                    lemma_reach_self(g, w);
                }
                assert(rank(c3[w]) >= rank(c1[w])) by {
                    assert(rank(c3[w]) >= rank(c2[w]));
                }
                lemma_closed_reach(g, c3, w, x);
            }
        }
    }
    assert forall|x: int| 0 <= x < c3.len() && c1[x] == Color::White && #[trigger] c3[x] != Color::White implies least_reacher(
        g,
        x,
    ) == i by {
        lemma_least_reacher(g, x);
        assert(c3[x] == Color::Black);
        let w = choose|w: int| 0 <= w < i + 1 && reachable(g, w, x);
        if w < i {
            assert(c1[x] == Color::Black);
        }
        assert(reachable(g, i, x)) by {
            if !reachable(g, i, x) {
                assert(w != i);
                assert(c1[x] == Color::Black);
            }
        }
        if least_reacher(g, x) < i {
            assert(c1[x] == Color::Black);
        }
    }
}

/// A vertex already black when its turn comes adds nothing to the search.
proof fn lemma_searched_next(g: &Static, c: Seq<Color>, i: int)
    requires
        g.wf(),
        c.len() == g.spec_num_vertices(),
        0 <= i < c.len(),
        searched(g, c, i),
        c[i] != Color::White,
    ensures
        searched(g, c, i + 1),
{
    assert forall|x: int| 0 <= x < c.len() implies (#[trigger] c[x] == Color::Black <==> exists|w: int|
        0 <= w < i + 1 && reachable(g, w, x)) by {
        if exists|w: int| 0 <= w < i + 1 && reachable(g, w, x) {
            let w = choose|w: int| 0 <= w < i + 1 && reachable(g, w, x);
            if w == i {
                lemma_closed_reach(g, c, i, x);
            }
        }
    }
}

/// Whether every vertex can be reached from the first one: the search from the first
/// vertex leaves no vertex to start another search from.
pub fn is_connected(g: &Static) -> (r: bool)
    requires
        g.wf(),
    ensures
        r == forall|v: int| 0 <= v < g.spec_num_vertices() ==> #[trigger] least_reacher(g, v) == 0,
{
    let n = g.num_vertices();
    let mut color = vec_of(Color::White, n);
    let mut stack: DfsStack = Vec::new();
    let mut saw_root = false;
    let mut i: usize = 0;
    proof {
        g.lemma_num_vertices();
    }
    while i < n
        invariant
            g.wf(),
            n == g.spec_num_vertices(),
            n < usize::MAX,
            color@.len() == n,
            i <= n,
            stack@.len() == 0,
            searched(g, color@, i as int),
            saw_root == (i > 0),
            forall|v: int| 0 <= v < i ==> #[trigger] least_reacher(g, v) == 0,
        decreases n - i,
    {
        proof {
            lemma_searched_root(g, color@, i as int);
        }
        if color[i] == Color::White {
            if saw_root {
                return false;
            }
            saw_root = true;
            let ghost c1 = color@;
            color.set(i, Color::Gray);
            stack.push((None, i, 0));
            let ghost c2 = color@;
            proof {
                assert(stack@ =~= seq![(None::<usize>, i, 0usize)]);
                self::lemma_root_pushed(g, c1, c2, stack@, i);
            }
            let mut vis = EmptyVisitor::new();
            proof {
                assert(!<EmptyVisitor as crate::dfs::Visitor>::must_break(g, crate::dfs::TraverseEvent::DiscoverBackEdge(0)));
                assert(!<EmptyVisitor as crate::dfs::Visitor>::must_break(g, crate::dfs::TraverseEvent::DiscoverEdge(0)));
            }
            let _ = dfs_visit(g, &mut color, &mut stack, &mut vis);
            proof {
                lemma_searched_step(g, c1, c2, color@, i as int);
                assert forall|v: int| 0 <= v < i + 1 implies #[trigger] least_reacher(g, v) == 0 by {
                    if v == i {
                        assert(least_reacher(g, v) == v);
                    }
                }
            }
        } else {
            proof {
                lemma_searched_next(g, color@, i as int);
                lemma_least_reacher(g, i as int);
                let w = choose|w: int| 0 <= w < i && reachable(g, w, i as int);
                assert(least_reacher(g, w) == 0);
                lemma_least_reacher(g, w);
                lemma_reach_trans(g, 0, w, i as int);
                assert(least_reacher(g, i as int) == 0);
            }
        }
        i += 1;
    }
    true
}

/// The searches start from a fresh root: one gray vertex, alone on the stack.
proof fn lemma_root_pushed(g: &Static, c1: Seq<Color>, c2: Seq<Color>, st: Seq<(Option<usize>, usize, usize)>, i: usize)
    requires
        g.wf(),
        c1.len() == g.spec_num_vertices(),
        i < c1.len(),
        searched(g, c1, i as int),
        c1[i as int] == Color::White,
        c2 == c1.update(i as int, Color::Gray),
        st == seq![(None::<usize>, i, 0usize)],
    ensures
        stack_ok(g, c2, st),
        closed_black(g, c2),
{
    assert(entry_ok(g, c2, st[0]));
    assert forall|w: int| 0 <= w < c2.len() && c2[w] == Color::Gray implies #[trigger] on_stack(st, w) by {
        reveal(on_stack);
        assert(st[0].1 == w);
    }
    assert forall|x: int, j: int|
        0 <= x < c2.len() && c2[x] == Color::Black && 0 <= j < g.spec_out_edges(x).len() implies c2[g.spec_target(
        #[trigger] g.spec_out_edges(x)[j] as int,
    ) as int] != Color::White by {
        g.lemma_out_targets(x);
        assert(c1[g.spec_target(g.spec_out_edges(x)[j] as int) as int] != Color::White);
    }
}


/// Like a depth-first search from the vertices on the stack, and gives `label` to each
/// vertex it discovers.
fn label_visit(g: &Static, color: &mut Vec<Color>, stack: &mut DfsStack, comp: &mut Vec<usize>, label: usize)
    requires
        g.wf(),
        old(color)@.len() == g.spec_num_vertices(),
        old(comp)@.len() == g.spec_num_vertices(),
        stack_ok(g, old(color)@, old(stack)@),
        closed_black(g, old(color)@),
    ensures
        monotone(old(color)@, final(color)@),
        grown_by_reach(g, old(color)@, final(color)@),
        final(stack)@.len() == 0,
        closed_black(g, final(color)@),
        forall|v: int| 0 <= v < final(color)@.len() ==> #[trigger] final(color)@[v] != Color::Gray,
        final(comp)@.len() == g.spec_num_vertices(),
        forall|x: int|
            0 <= x < old(color)@.len() ==> #[trigger] final(comp)@[x] == (if old(color)@[x] == Color::White
                && final(color)@[x] != Color::White {
                label
            } else {
                old(comp)@[x]
            }),
{
    let ghost c0 = color@;
    let ghost comp0 = comp@;
    while stack.len() > 0
        invariant
            g.wf(),
            color@.len() == g.spec_num_vertices(),
            comp@.len() == g.spec_num_vertices(),
            c0.len() == g.spec_num_vertices(),
            c0 == old(color)@,
            comp0 == old(comp)@,
            stack_ok(g, color@, stack@),
            closed_black(g, color@),
            monotone(c0, color@),
            grown_by_reach(g, c0, color@),
            forall|x: int|
                0 <= x < c0.len() ==> #[trigger] comp@[x] == (if c0[x] == Color::White && color@[x] != Color::White {
                    label
                } else {
                    comp0[x]
                }),
        decreases num_white(color@), stack@.len(),
    {
        let ghost w0 = num_white(color@);
        let ghost s_before = stack@;
        let top = stack.pop();
        let (from, u, k0) = top.unwrap();
        proof {
            assert(stack@ == s_before.drop_last());
            assert(entry_ok(g, color@, s_before[s_before.len() - 1]));
            assert(s_before.drop_last().push((from, u, k0)) =~= s_before);
        }
        let d = g.out_degree(u);
        let mut k = k0;
        let mut descended = false;
        while k < d && !descended
            invariant
                g.wf(),
                color@.len() == g.spec_num_vertices(),
                comp@.len() == g.spec_num_vertices(),
                c0.len() == g.spec_num_vertices(),
                c0 == old(color)@,
                comp0 == old(comp)@,
                u < g.spec_num_vertices(),
                k <= d,
                d == g.spec_out_edges(u as int).len(),
                !descended ==> stack@ == s_before.drop_last() && num_white(color@) == w0 && stack_ok(
                    g,
                    color@,
                    stack@.push((from, u, k)),
                ),
                descended ==> num_white(color@) < w0 && stack_ok(g, color@, stack@),
                closed_black(g, color@),
                monotone(c0, color@),
                grown_by_reach(g, c0, color@),
                forall|x: int|
                    0 <= x < c0.len() ==> #[trigger] comp@[x] == (if c0[x] == Color::White && color@[x] != Color::White {
                        label
                    } else {
                        comp0[x]
                    }),
            decreases d - k,
        {
            let ghost c1 = color@;
            let e = g.out_edge(u, k);
            let v = g.target(e);
            k = k + 1;
            let skip = (g.is_undirected_edge(e) && color[v] == Color::Black) || match from {
                Some(f) => g.edge_index(f) == g.edge_index(e),
                None => false,
            };
            proof {
                assert(entry_ok(g, color@, stack@.push((from, u, (k - 1) as usize))[stack@.len() as int]));
            }
            if !skip {
                if color[v] == Color::White {
                    color.set(v, Color::Gray);
                    comp.set(v, label);
                    proof {
                        lemma_num_white_update(c1, v as int, Color::Gray);
                        lemma_discover(g, c0, c1, color@, stack@, from, u, k, e, v);
                        assert forall|x: int| 0 <= x < c0.len() implies #[trigger] comp@[x] == (if c0[x] == Color::White
                            && color@[x] != Color::White {
                            label
                        } else {
                            comp0[x]
                        }) by {
                            if x == v {
                                assert(rank(c1[x]) >= rank(c0[x]));
                            }
                        }
                    }
                    stack.push((from, u, k));
                    stack.push((Some(e), v, 0));
                    descended = true;
                } else {
                    proof {
                        lemma_seen(g, color@, stack@, from, u, k, e, v);
                    }
                }
            } else {
                proof {
                    lemma_skip(g, color@, stack@, from, u, k, e, v);
                }
            }
        }
        if !descended {
            let ghost c2 = color@;
            color.set(u, Color::Black);
            proof {
                lemma_num_white_update(c2, u as int, Color::Black);
                lemma_finish(g, c0, c2, color@, stack@, from, u, k);
                assert forall|x: int| 0 <= x < c0.len() implies #[trigger] comp@[x] == (if c0[x] == Color::White
                    && color@[x] != Color::White {
                    label
                } else {
                    comp0[x]
                }) by {
                    if x == u {
                        assert(entry_ok(g, c2, stack@.push((from, u, k))[stack@.len() as int]));
                        assert(c2[x] != Color::White);
                    }
                }
            }
        }
    }
    proof {
        assert forall|v: int| 0 <= v < color@.len() implies #[trigger] color@[v] != Color::Gray by {
            if color@[v] == Color::Gray {
                assert(on_stack(stack@, v));
                reveal(on_stack);
            }
        }
    }
}

/// The number of searches that a depth-first search of the whole graph starts: one for each
/// vertex that no smaller vertex reaches. In an undirected graph, the number of connected
/// components.
pub fn num_components(g: &Static) -> (r: u64)
    requires
        g.wf(),
    ensures
        r == num_roots(g, g.spec_num_vertices() as int),
{
    let n = g.num_vertices();
    let mut color = vec_of(Color::White, n);
    let mut stack: DfsStack = Vec::new();
    let mut num: u64 = 0;
    let mut i: usize = 0;
    proof {
        g.lemma_num_vertices();
    }
    while i < n
        invariant
            g.wf(),
            n == g.spec_num_vertices(),
            n < usize::MAX,
            color@.len() == n,
            i <= n,
            stack@.len() == 0,
            searched(g, color@, i as int),
            num == num_roots(g, i as int),
            num <= i,
        decreases n - i,
    {
        proof {
            lemma_searched_root(g, color@, i as int);
        }
        if color[i] == Color::White {
            let ghost c1 = color@;
            color.set(i, Color::Gray);
            stack.push((None, i, 0));
            let ghost c2 = color@;
            proof {
                assert(stack@ =~= seq![(None::<usize>, i, 0usize)]);
                self::lemma_root_pushed(g, c1, c2, stack@, i);
            }
            let mut vis = EmptyVisitor::new();
            proof {
                assert(!<EmptyVisitor as crate::dfs::Visitor>::must_break(g, crate::dfs::TraverseEvent::DiscoverBackEdge(0)));
                assert(!<EmptyVisitor as crate::dfs::Visitor>::must_break(g, crate::dfs::TraverseEvent::DiscoverEdge(0)));
            }
            let _ = dfs_visit(g, &mut color, &mut stack, &mut vis);
            proof {
                lemma_searched_step(g, c1, c2, color@, i as int);
            }
            num += 1;
        } else {
            proof {
                lemma_searched_next(g, color@, i as int);
            }
        }
        i += 1;
    }
    num
}


proof fn lemma_num_roots_mono(g: &Static, a: int, b: int)
    requires
        0 <= a <= b,
    ensures
        num_roots(g, a) <= num_roots(g, b),
    decreases b - a,
{
    if a < b {
        lemma_num_roots_mono(g, a, b - 1);
    }
}

/// The least reacher of a vertex is its own least reacher.
pub proof fn lemma_least_is_root(g: &Static, v: int)
    requires
        0 <= v <= usize::MAX,
    ensures
        least_reacher(g, least_reacher(g, v)) == least_reacher(g, v),
{
    let r = least_reacher(g, v);
    lemma_least_reacher(g, v);
    lemma_least_reacher(g, r);
    let q = least_reacher(g, r);
    if q < r {
        lemma_reach_trans(g, q, r, v);
    }
}

/// Two vertices get the same label exactly when they have the same least reacher.
pub proof fn lemma_same_label(g: &Static, u: int, v: int)
    requires
        0 <= u <= usize::MAX,
        0 <= v <= usize::MAX,
    ensures
        (num_roots(g, least_reacher(g, u) + 1) == num_roots(g, least_reacher(g, v) + 1)) == (least_reacher(g, u)
            == least_reacher(g, v)),
{
    let a = least_reacher(g, u);
    let b = least_reacher(g, v);
    lemma_least_reacher(g, u);
    lemma_least_reacher(g, v);
    lemma_least_is_root(g, u);
    lemma_least_is_root(g, v);
    if a < b {
        lemma_num_roots_mono(g, a + 1, b);
    } else if b < a {
        lemma_num_roots_mono(g, b + 1, a);
    }
}

/// In an undirected graph, reachability goes both ways.
pub proof fn lemma_reach_symmetric(g: &Static, u: int, v: int)
    requires
        g.wf(),
        !g.spec_directed(),
        reachable(g, u, v),
    ensures
        reachable(g, v, u),
{
    let s = choose|s: Seq<usize>| #[trigger] crate::dfs::is_walk(g, s) && s[0] == u && s.last() == v;
    let t = s.reverse();
    assert forall|i: int| 0 <= i < t.len() - 1 implies #[trigger] crate::dfs::adjacent(g, t[i] as int, t[i + 1] as int) by {
        let j = s.len() - 2 - i;
        assert(t[i] == s[j + 1]);
        assert(t[i + 1] == s[j]);
        assert(crate::dfs::adjacent(g, s[j] as int, s[j + 1] as int));
        reveal(crate::dfs::adjacent);
        let h = choose|h: int| g.has_edge(h) && g.spec_source(h) == s[j] as int && g.spec_target(h) == s[j + 1] as int;
        let r = crate::graph::added_at(false, h);
        assert(g.has_edge(r));
    }
    assert(t[0] == s.last());
    assert(t.last() == s[0]);
    assert(crate::dfs::is_walk(g, t));
}

/// In an undirected graph, two vertices have the same least reacher exactly when one
/// reaches the other.
pub proof fn lemma_least_reacher_undirected(g: &Static, u: int, v: int)
    requires
        g.wf(),
        !g.spec_directed(),
        0 <= u <= usize::MAX,
        0 <= v <= usize::MAX,
    ensures
        (least_reacher(g, u) == least_reacher(g, v)) == reachable(g, u, v),
{
    lemma_least_reacher(g, u);
    lemma_least_reacher(g, v);
    let a = least_reacher(g, u);
    let b = least_reacher(g, v);
    if a == b {
        lemma_reach_symmetric(g, a, u);
        lemma_reach_trans(g, u, a, v);
    }
    if reachable(g, u, v) {
        lemma_reach_trans(g, a, u, v);
        lemma_reach_symmetric(g, u, v);
        lemma_reach_trans(g, b, v, u);
    }
}

/// The component label of each vertex: the number of the search that found it.
pub struct ConnectedComponents {
    comp: Vec<usize>,
    cur: usize,
    log: Ghost<Seq<(crate::dfs::TraverseEvent, Control)>>,
}

impl crate::dfs::Visitor for ConnectedComponents {
    closed spec fn log(&self) -> Seq<(crate::dfs::TraverseEvent, Control)> {
        self.log@
    }

    open spec fn never_breaks(&self) -> bool {
        true
    }

    fn visit(&mut self, g: &Static, evt: crate::dfs::TraverseEvent) -> (r: Control)
        ensures
            r == Control::Continue,
            match evt {
                crate::dfs::TraverseEvent::DiscoverRootVertex(_) => final(self).labels() == old(self).labels()
                    && final(self).current() == (if old(self).current() < usize::MAX {
                    old(self).current() + 1
                } else {
                    old(self).current() as int
                }),
                crate::dfs::TraverseEvent::DiscoverVertex(v) => final(self).current() == old(self).current()
                    && final(self).labels() == (if v < old(self).labels().len() {
                    old(self).labels().update(v as int, old(self).current())
                } else {
                    old(self).labels()
                }),
                _ => final(self).labels() == old(self).labels() && final(self).current() == old(self).current(),
            },
    {
        let r = {
            match evt {
                crate::dfs::TraverseEvent::DiscoverRootVertex(_) => {
                    if self.cur < usize::MAX {
                        self.cur = self.cur + 1;
                    }
                },
                crate::dfs::TraverseEvent::DiscoverVertex(v) => {
                    if v < self.comp.len() {
                        self.comp.set(v, self.cur);
                    }
                },
                _ => {},
            }
            Control::Continue
        };
        self.log = Ghost(self.log@.push((evt, r)));
        r
    }
}

impl ConnectedComponents {
    /// The labels `comp`, kept as given, before any search.
    pub fn with_labels(comp: Vec<usize>) -> (cc: Self)
        ensures
            cc.labels() == comp@,
            cc.current() == 0,
    {
        ConnectedComponents { comp, cur: 0, log: Ghost(Seq::empty()) }
    }

    /// The labels, by vertex.
    pub closed spec fn labels(&self) -> Seq<usize> {
        self.comp@
    }

    /// The number of the search under way: how many roots were discovered.
    pub closed spec fn current(&self) -> usize {
        self.cur
    }

    /// Whether `u` and `v` have the same label.
    pub fn is_connected(&self, u: usize, v: usize) -> (r: bool)
        requires
            u < self.labels().len(),
            v < self.labels().len(),
        ensures
            r == (self.labels()[u as int] == self.labels()[v as int]),
    {
        self.comp[u] == self.comp[v]
    }
}

/// Labels each vertex by the search, in a depth-first search of the whole graph, that
/// finds it: searches are numbered from 1, and the search of a vertex is the one started
/// from its least reacher.
pub fn connected_components(g: &Static) -> (cc: ConnectedComponents)
    requires
        g.wf(),
    ensures
        cc.labels().len() == g.spec_num_vertices(),
        forall|v: int|
            0 <= v < g.spec_num_vertices() ==> #[trigger] cc.labels()[v] == num_roots(g, least_reacher(g, v) + 1),
{
    let n = g.num_vertices();
    let mut color = vec_of(Color::White, n);
    let mut comp = vec_of(0usize, n);
    let mut stack: DfsStack = Vec::new();
    let mut cur: usize = 0;
    let mut i: usize = 0;
    proof {
        g.lemma_num_vertices();
    }
    while i < n
        invariant
            g.wf(),
            n == g.spec_num_vertices(),
            n < usize::MAX,
            color@.len() == n,
            comp@.len() == n,
            i <= n,
            stack@.len() == 0,
            searched(g, color@, i as int),
            cur == num_roots(g, i as int),
            cur <= i,
            forall|x: int| 0 <= x < n && #[trigger] color@[x] == Color::Black ==> comp@[x] == num_roots(g, least_reacher(g, x) + 1),
        decreases n - i,
    {
        proof {
            lemma_searched_root(g, color@, i as int);
        }
        if color[i] == Color::White {
            let ghost c1 = color@;
            let ghost comp1 = comp@;
            cur += 1;
            color.set(i, Color::Gray);
            comp.set(i, cur);
            stack.push((None, i, 0));
            let ghost c2 = color@;
            let ghost comp2 = comp@;
            proof {
                assert(stack@ =~= seq![(None::<usize>, i, 0usize)]);
                self::lemma_root_pushed(g, c1, c2, stack@, i);
            }
            label_visit(g, &mut color, &mut stack, &mut comp, cur);
            proof {
                lemma_searched_step(g, c1, c2, color@, i as int);
                assert forall|x: int| 0 <= x < n && #[trigger] color@[x] == Color::Black implies comp@[x] == num_roots(
                    g,
                    least_reacher(g, x) + 1,
                ) by {
                    if c1[x] == Color::White {
                        assert(least_reacher(g, x) == i);
                        if x != i {
                            assert(comp@[x] == cur);
                        } else {
                            assert(c2[x] != Color::White);
                            assert(comp@[x] == comp2[x]);
                        }
                    } else {
                        assert(c1[x] == Color::Black);
                        assert(c2[x] == c1[x]);
                        assert(comp@[x] == comp2[x]);
                        assert(comp2[x] == comp1[x]);
                    }
                }
            }
        } else {
            proof {
                lemma_searched_next(g, color@, i as int);
            }
        }
        i += 1;
    }
    proof {
        assert forall|v: int| 0 <= v < n implies #[trigger] comp@[v] == num_roots(g, least_reacher(g, v) + 1) by {
            lemma_reach_self(g, v);
            assert(reachable(g, v, v));
            assert(color@[v] == Color::Black);
        }
    }
    ConnectedComponents { comp, cur, log: Ghost(Seq::empty()) }
}

} // verus!
