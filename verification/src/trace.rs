//! The events a traversal reports, stated as a state machine over the graph: one step of a
//! depth-first search looks at one out-edge of the vertex on top of the stack, or finishes
//! that vertex.
use vstd::prelude::*;
use crate::control::Control;
use crate::dfs::{Color, TraverseEvent};
use crate::graph::{Static, index_of};
use crate::dfs::{num_white, lemma_num_white_update};

verus! {

/// The events told to a visitor between its logs `l0` and `l1`.
pub open spec fn told(l0: Seq<(TraverseEvent, Control)>, l1: Seq<(TraverseEvent, Control)>) -> Seq<TraverseEvent> {
    l1.subrange(l0.len() as int, l1.len() as int).map_values(|p: (TraverseEvent, Control)| p.0)
}

pub proof fn lemma_told_none(l0: Seq<(TraverseEvent, Control)>)
    ensures
        told(l0, l0) == Seq::<TraverseEvent>::empty(),
{
    assert(told(l0, l0) =~= Seq::<TraverseEvent>::empty());
}

pub proof fn lemma_told_push(l0: Seq<(TraverseEvent, Control)>, l1: Seq<(TraverseEvent, Control)>, x: (TraverseEvent, Control))
    requires
        l0.len() <= l1.len(),
    ensures
        told(l0, l1.push(x)) == told(l0, l1).push(x.0),
{
    assert(told(l0, l1.push(x)) =~= told(l0, l1).push(x.0));
}

pub proof fn lemma_told_trans(
    l0: Seq<(TraverseEvent, Control)>,
    l1: Seq<(TraverseEvent, Control)>,
    l2: Seq<(TraverseEvent, Control)>,
)
    requires
        l0.len() <= l1.len() <= l2.len(),
        l2.subrange(0, l1.len() as int) == l1,
    ensures
        told(l0, l2) == told(l0, l1) + told(l1, l2),
{
    assert forall|i: int| l0.len() <= i < l1.len() implies l2[i] == l1[i] by {
        assert(l2.subrange(0, l1.len() as int)[i] == l2[i]);
    }
    assert(told(l0, l2) =~= told(l0, l1) + told(l1, l2));
}

/// What was told up to the `j`-th of the events `evs` after `t0` is a prefix of all of them
/// after `t0`.
pub proof fn lemma_told_prefix(t: Seq<TraverseEvent>, t0: Seq<TraverseEvent>, evs: Seq<TraverseEvent>, j: int)
    requires
        0 <= j <= evs.len(),
        t =~= t0 + evs.subrange(0, j),
    ensures
        t.is_prefix_of(t0 + evs),
{
    assert((t0 + evs).subrange(0, t.len() as int) =~= t);
}

/// An edge that a depth-first search passes over without telling: an undirected edge into a
/// finished vertex, or the edge by which the vertex on top was reached.
pub open spec fn dfs_skips(g: &Static, c: Seq<Color>, from: Option<usize>, e: usize) -> bool {
    (!g.spec_directed() && c[g.spec_target(e as int) as int] == Color::Black) || match from {
        Some(f) => index_of(g.spec_directed(), f as int) == index_of(g.spec_directed(), e as int),
        None => false,
    }
}

/// One step of a depth-first search from the colors `c` and the stack `s`: the new colors,
/// the new stack and the events told. With an empty stack nothing happens.
pub open spec fn dfs_step(g: &Static, c: Seq<Color>, s: Seq<(Option<usize>, usize, usize)>) -> (
    Seq<Color>,
    Seq<(Option<usize>, usize, usize)>,
    Seq<TraverseEvent>,
) {
    if s.len() == 0 {
        (c, s, Seq::empty())
    } else {
        let (from, u, k) = s.last();
        let rest = s.drop_last();
        if k < g.spec_out_edges(u as int).len() {
            let e = g.spec_out_edges(u as int)[k as int];
            let v = g.spec_target(e as int);
            let s1 = rest.push((from, u, (k + 1) as usize));
            if dfs_skips(g, c, from, e) {
                (c, s1, Seq::empty())
            } else if c[v as int] == Color::White {
                (
                    c.update(v as int, Color::Gray),
                    s1.push((Some(e), v, 0usize)),
                    seq![
                        TraverseEvent::DiscoverEdge(e),
                        TraverseEvent::DiscoverTreeEdge(e),
                        TraverseEvent::DiscoverVertex(v),
                    ],
                )
            } else if c[v as int] == Color::Gray {
                (
                    c,
                    s1,
                    seq![
                        TraverseEvent::DiscoverEdge(e),
                        TraverseEvent::DiscoverBackEdge(e),
                        TraverseEvent::FinishEdge(e),
                    ],
                )
            } else {
                (
                    c,
                    s1,
                    seq![
                        TraverseEvent::DiscoverEdge(e),
                        TraverseEvent::DiscoverCrossOrForwardEdge(e),
                        TraverseEvent::FinishEdge(e),
                    ],
                )
            }
        } else {
            (
                c.update(u as int, Color::Black),
                rest,
                match from {
                    Some(f) => seq![
                        TraverseEvent::FinishVertex(u),
                        TraverseEvent::FinishTreeEdge(f),
                        TraverseEvent::FinishEdge(f),
                    ],
                    None => seq![TraverseEvent::FinishVertex(u)],
                },
            )
        }
    }
}

/// `n` steps of a depth-first search, with all the events told on the way.
pub open spec fn dfs_steps(g: &Static, c: Seq<Color>, s: Seq<(Option<usize>, usize, usize)>, n: nat) -> (
    Seq<Color>,
    Seq<(Option<usize>, usize, usize)>,
    Seq<TraverseEvent>,
)
    decreases n,
{
    if n == 0 {
        (c, s, Seq::empty())
    } else {
        let p = dfs_steps(g, c, s, (n - 1) as nat);
        let q = dfs_step(g, p.0, p.1);
        (q.0, q.1, p.2 + q.2)
    }
}

/// A depth-first search from `c` and `s` run until its stack is empty.
pub open spec fn dfs_full(g: &Static, c: Seq<Color>, s: Seq<(Option<usize>, usize, usize)>) -> (
    Seq<Color>,
    Seq<(Option<usize>, usize, usize)>,
    Seq<TraverseEvent>,
) {
    dfs_steps(g, c, s, choose|n: nat| (#[trigger] dfs_steps(g, c, s, n)).1.len() == 0)
}

/// Once the stack is empty, further steps change nothing.
pub proof fn lemma_dfs_steps_stay(g: &Static, c: Seq<Color>, s: Seq<(Option<usize>, usize, usize)>, n: nat, m: nat)
    requires
        dfs_steps(g, c, s, n).1.len() == 0,
        n <= m,
    ensures
        dfs_steps(g, c, s, m) == dfs_steps(g, c, s, n),
    decreases m,
{
    if m > n {
        lemma_dfs_steps_stay(g, c, s, n, (m - 1) as nat);
        let p = dfs_steps(g, c, s, (m - 1) as nat);
        assert(p.2 + Seq::<TraverseEvent>::empty() =~= p.2);
    }
}

/// A search whose stack became empty after `n` steps ends as `dfs_full` says.
pub proof fn lemma_dfs_full(g: &Static, c: Seq<Color>, s: Seq<(Option<usize>, usize, usize)>, n: nat)
    requires
        dfs_steps(g, c, s, n).1.len() == 0,
    ensures
        dfs_full(g, c, s) == dfs_steps(g, c, s, n),
{
    let m = choose|m: nat| (#[trigger] dfs_steps(g, c, s, m)).1.len() == 0;
    if n <= m {
        lemma_dfs_steps_stay(g, c, s, n, m);
    } else {
        lemma_dfs_steps_stay(g, c, s, m, n);
    }
}

/// The colors and the events of a depth-first search from each of `roots` in turn that is
/// still white, starting from the colors `c`.
pub open spec fn roots_trace(g: &Static, c: Seq<Color>, roots: Seq<usize>) -> (Seq<Color>, Seq<TraverseEvent>)
    decreases roots.len(),
{
    if roots.len() == 0 {
        (c, Seq::empty())
    } else {
        let v = roots[0];
        if c[v as int] == Color::White {
            let p = dfs_full(g, c.update(v as int, Color::Gray), seq![(None::<usize>, v, 0usize)]);
            let q = roots_trace(g, p.0, roots.skip(1));
            (
                q.0,
                seq![TraverseEvent::DiscoverRootVertex(v), TraverseEvent::DiscoverVertex(v)] + p.2 + seq![
                    TraverseEvent::FinishRootVertex(v),
                ] + q.1,
            )
        } else {
            roots_trace(g, c, roots.skip(1))
        }
    }
}

pub proof fn lemma_roots_white(
    g: &Static,
    c1: Seq<Color>,
    rs: Seq<usize>,
    t1: Seq<TraverseEvent>,
    tb: Seq<TraverseEvent>,
    t2: Seq<TraverseEvent>,
    c3: Seq<Color>,
)
    requires
        rs.len() > 0,
        c1[rs[0] as int] == Color::White,
        dfs_full(g, c1.update(rs[0] as int, Color::Gray), seq![(None::<usize>, rs[0], 0usize)]).0 == c3,
        dfs_full(g, c1.update(rs[0] as int, Color::Gray), seq![(None::<usize>, rs[0], 0usize)]).2 == tb,
        t2 == t1.push(TraverseEvent::DiscoverRootVertex(rs[0])).push(TraverseEvent::DiscoverVertex(rs[0])) + tb.push(
            TraverseEvent::FinishRootVertex(rs[0]),
        ),
    ensures
        t2 + roots_trace(g, c3, rs.skip(1)).1 == t1 + roots_trace(g, c1, rs).1,
        roots_trace(g, c3, rs.skip(1)).0 == roots_trace(g, c1, rs).0,
{
    let v = rs[0];
    let q = roots_trace(g, c3, rs.skip(1));
    assert(t2 + q.1 =~= t1 + (seq![TraverseEvent::DiscoverRootVertex(v), TraverseEvent::DiscoverVertex(v)] + tb
        + seq![TraverseEvent::FinishRootVertex(v)] + q.1));
}

pub proof fn lemma_roots_seen(g: &Static, c1: Seq<Color>, rs: Seq<usize>)
    requires
        rs.len() > 0,
        c1[rs[0] as int] != Color::White,
    ensures
        roots_trace(g, c1, rs) == roots_trace(g, c1, rs.skip(1)),
{
}

/// All the events of a depth-first search from `roots`, from `Start` to `Finish`.
pub open spec fn dfs_trace(g: &Static, c: Seq<Color>, roots: Seq<usize>) -> Seq<TraverseEvent> {
    seq![TraverseEvent::Start] + roots_trace(g, c, roots).1 + seq![TraverseEvent::Finish]
}

/// One step of a breadth-first search from the colors `c` and the queue `q`, the first `k`
/// out-edges of the vertex at its front looked at: the new colors, queue and count, and the
/// events told. With an empty queue nothing happens.
pub open spec fn bfs_step(g: &Static, c: Seq<Color>, q: Seq<(Option<usize>, usize)>, k: nat) -> (
    Seq<Color>,
    Seq<(Option<usize>, usize)>,
    nat,
    Seq<TraverseEvent>,
) {
    if q.len() == 0 {
        (c, q, k, Seq::empty())
    } else {
        let (from, u) = q[0];
        if k < g.spec_out_edges(u as int).len() {
            let e = g.spec_out_edges(u as int)[k as int];
            let v = g.spec_target(e as int);
            if dfs_skips(g, c, from, e) {
                (c, q, k + 1, Seq::empty())
            } else if c[v as int] == Color::White {
                (
                    c.update(v as int, Color::Gray),
                    q.push((Some(e), v)),
                    k + 1,
                    seq![
                        TraverseEvent::DiscoverEdge(e),
                        TraverseEvent::DiscoverTreeEdge(e),
                        TraverseEvent::DiscoverVertex(v),
                    ],
                )
            } else if c[v as int] == Color::Gray {
                (
                    c,
                    q,
                    k + 1,
                    seq![
                        TraverseEvent::DiscoverEdge(e),
                        TraverseEvent::DiscoverBackEdge(e),
                        TraverseEvent::FinishEdge(e),
                    ],
                )
            } else {
                (
                    c,
                    q,
                    k + 1,
                    seq![
                        TraverseEvent::DiscoverEdge(e),
                        TraverseEvent::DiscoverCrossOrForwardEdge(e),
                        TraverseEvent::FinishEdge(e),
                    ],
                )
            }
        } else {
            (
                c.update(u as int, Color::Black),
                q.skip(1),
                0,
                match from {
                    Some(f) => seq![
                        TraverseEvent::FinishVertex(u),
                        TraverseEvent::FinishTreeEdge(f),
                        TraverseEvent::FinishEdge(f),
                    ],
                    None => seq![TraverseEvent::FinishVertex(u)],
                },
            )
        }
    }
}

/// `n` steps of a breadth-first search, with all the events told on the way.
pub open spec fn bfs_steps(g: &Static, c: Seq<Color>, q: Seq<(Option<usize>, usize)>, n: nat) -> (
    Seq<Color>,
    Seq<(Option<usize>, usize)>,
    nat,
    Seq<TraverseEvent>,
)
    decreases n,
{
    if n == 0 {
        (c, q, 0, Seq::empty())
    } else {
        let p = bfs_steps(g, c, q, (n - 1) as nat);
        let r = bfs_step(g, p.0, p.1, p.2);
        (r.0, r.1, r.2, p.3 + r.3)
    }
}

/// A breadth-first search from `c` and `q` run until its queue is empty.
pub open spec fn bfs_full(g: &Static, c: Seq<Color>, q: Seq<(Option<usize>, usize)>) -> (
    Seq<Color>,
    Seq<(Option<usize>, usize)>,
    nat,
    Seq<TraverseEvent>,
) {
    bfs_steps(g, c, q, choose|n: nat| (#[trigger] bfs_steps(g, c, q, n)).1.len() == 0)
}

/// Once the queue is empty, further steps change nothing.
pub proof fn lemma_bfs_steps_stay(g: &Static, c: Seq<Color>, q: Seq<(Option<usize>, usize)>, n: nat, m: nat)
    requires
        bfs_steps(g, c, q, n).1.len() == 0,
        n <= m,
    ensures
        bfs_steps(g, c, q, m) == bfs_steps(g, c, q, n),
    decreases m,
{
    if m > n {
        lemma_bfs_steps_stay(g, c, q, n, (m - 1) as nat);
        let p = bfs_steps(g, c, q, (m - 1) as nat);
        assert(p.3 + Seq::<TraverseEvent>::empty() =~= p.3);
    }
}

/// A search whose queue became empty after `n` steps ends as `bfs_full` says.
pub proof fn lemma_bfs_full(g: &Static, c: Seq<Color>, q: Seq<(Option<usize>, usize)>, n: nat)
    requires
        bfs_steps(g, c, q, n).1.len() == 0,
    ensures
        bfs_full(g, c, q) == bfs_steps(g, c, q, n),
{
    let m = choose|m: nat| (#[trigger] bfs_steps(g, c, q, m)).1.len() == 0;
    if n <= m {
        lemma_bfs_steps_stay(g, c, q, n, m);
    } else {
        lemma_bfs_steps_stay(g, c, q, m, n);
    }
}

/// The colors and the events of a breadth-first search from each of `roots` in turn that is
/// still white, starting from the colors `c`.
pub open spec fn bfs_roots_trace(g: &Static, c: Seq<Color>, roots: Seq<usize>) -> (Seq<Color>, Seq<TraverseEvent>)
    decreases roots.len(),
{
    if roots.len() == 0 {
        (c, Seq::empty())
    } else {
        let v = roots[0];
        if c[v as int] == Color::White {
            let p = bfs_full(g, c.update(v as int, Color::Gray), seq![(None::<usize>, v)]);
            let q = bfs_roots_trace(g, p.0, roots.skip(1));
            (
                q.0,
                seq![TraverseEvent::DiscoverRootVertex(v), TraverseEvent::DiscoverVertex(v)] + p.3 + seq![
                    TraverseEvent::FinishRootVertex(v),
                ] + q.1,
            )
        } else {
            bfs_roots_trace(g, c, roots.skip(1))
        }
    }
}

pub proof fn lemma_bfs_roots_white(
    g: &Static,
    c1: Seq<Color>,
    rs: Seq<usize>,
    t1: Seq<TraverseEvent>,
    tb: Seq<TraverseEvent>,
    t2: Seq<TraverseEvent>,
    c3: Seq<Color>,
)
    requires
        rs.len() > 0,
        c1[rs[0] as int] == Color::White,
        bfs_full(g, c1.update(rs[0] as int, Color::Gray), seq![(None::<usize>, rs[0])]).0 == c3,
        bfs_full(g, c1.update(rs[0] as int, Color::Gray), seq![(None::<usize>, rs[0])]).3 == tb,
        t2 == t1.push(TraverseEvent::DiscoverRootVertex(rs[0])).push(TraverseEvent::DiscoverVertex(rs[0])) + tb.push(
            TraverseEvent::FinishRootVertex(rs[0]),
        ),
    ensures
        t2 + bfs_roots_trace(g, c3, rs.skip(1)).1 == t1 + bfs_roots_trace(g, c1, rs).1,
        bfs_roots_trace(g, c3, rs.skip(1)).0 == bfs_roots_trace(g, c1, rs).0,
{
    let v = rs[0];
    let q = bfs_roots_trace(g, c3, rs.skip(1));
    assert(t2 + q.1 =~= t1 + (seq![TraverseEvent::DiscoverRootVertex(v), TraverseEvent::DiscoverVertex(v)] + tb
        + seq![TraverseEvent::FinishRootVertex(v)] + q.1));
}

pub proof fn lemma_bfs_roots_seen(g: &Static, c1: Seq<Color>, rs: Seq<usize>)
    requires
        rs.len() > 0,
        c1[rs[0] as int] != Color::White,
    ensures
        bfs_roots_trace(g, c1, rs) == bfs_roots_trace(g, c1, rs.skip(1)),
{
}

/// The out-edges of the vertices in the queue `q`, and one more for each entry.
pub open spec fn queue_pending(g: &Static, q: Seq<(Option<usize>, usize)>) -> nat
    decreases q.len(),
{
    if q.len() == 0 {
        0
    } else {
        g.spec_out_edges(q[0].1 as int).len() + 1 + queue_pending(g, q.skip(1))
    }
}

/// `n` steps of a breadth-first search from the colors `c`, the queue `q` and the count `k`,
/// the first step taken first.
pub open spec fn bfs_go(g: &Static, c: Seq<Color>, q: Seq<(Option<usize>, usize)>, k: nat, n: nat) -> (
    Seq<Color>,
    Seq<(Option<usize>, usize)>,
    nat,
    Seq<TraverseEvent>,
)
    decreases n,
{
    if n == 0 {
        (c, q, k, Seq::empty())
    } else {
        let r = bfs_step(g, c, q, k);
        let p = bfs_go(g, r.0, r.1, r.2, (n - 1) as nat);
        (p.0, p.1, p.2, r.3 + p.3)
    }
}

proof fn lemma_bfs_go_last(g: &Static, c: Seq<Color>, q: Seq<(Option<usize>, usize)>, k: nat, n: nat)
    ensures
        ({
            let p = bfs_go(g, c, q, k, n);
            let r = bfs_step(g, p.0, p.1, p.2);
            bfs_go(g, c, q, k, n + 1) == (r.0, r.1, r.2, p.3 + r.3)
        }),
    decreases n,
{
    let r0 = bfs_step(g, c, q, k);
    if n == 0 {
        let p1 = bfs_go(g, r0.0, r0.1, r0.2, 0);
        assert(bfs_go(g, c, q, k, 1) == (p1.0, p1.1, p1.2, r0.3 + p1.3));
        assert(r0.3 + Seq::<TraverseEvent>::empty() =~= Seq::<TraverseEvent>::empty() + r0.3);
    } else {
        lemma_bfs_go_last(g, r0.0, r0.1, r0.2, (n - 1) as nat);
        let p = bfs_go(g, r0.0, r0.1, r0.2, (n - 1) as nat);
        let r = bfs_step(g, p.0, p.1, p.2);
        assert(((n + 1) - 1) as nat == ((n - 1) as nat + 1) as nat);
        assert(r0.3 + (p.3 + r.3) =~= (r0.3 + p.3) + r.3);
    }
}

proof fn lemma_bfs_steps_go(g: &Static, c: Seq<Color>, q: Seq<(Option<usize>, usize)>, n: nat)
    ensures
        bfs_steps(g, c, q, n) == bfs_go(g, c, q, 0, n),
    decreases n,
{
    if n > 0 {
        lemma_bfs_steps_go(g, c, q, (n - 1) as nat);
        lemma_bfs_go_last(g, c, q, 0, (n - 1) as nat);
    }
}

/// The colors cover the graph, the queue holds vertices of it, and `k` counts no more than
/// the out-edges of the vertex in front.
pub open spec fn bfs_frames_ok(g: &Static, c: Seq<Color>, q: Seq<(Option<usize>, usize)>, k: nat) -> bool {
    &&& c.len() == g.spec_num_vertices()
    &&& forall|i: int| 0 <= i < q.len() ==> (#[trigger] q[i]).1 < g.spec_num_vertices()
    &&& q.len() > 0 ==> k <= g.spec_out_edges(q[0].1 as int).len()
}

/// A breadth-first search empties its queue.
proof fn lemma_bfs_ends(g: &Static, c: Seq<Color>, q: Seq<(Option<usize>, usize)>, k: nat)
    requires
        g.wf(),
        bfs_frames_ok(g, c, q, k),
    ensures
        exists|n: nat| (#[trigger] bfs_go(g, c, q, k, n)).1.len() == 0,
    decreases num_white(c), queue_pending(g, q) - k,
{
    if q.len() == 0 {
        assert(bfs_go(g, c, q, k, 0).1.len() == 0);
    } else {
        let r = bfs_step(g, c, q, k);
        let (from, u) = q[0];
        assert(q[0].1 < g.spec_num_vertices());
        g.lemma_out_targets(u as int);
        let d = g.spec_out_edges(u as int).len();
        assert(queue_pending(g, q) == d + 1 + queue_pending(g, q.skip(1)));
        if k < d {
            let e = g.spec_out_edges(u as int)[k as int];
            let v = g.spec_target(e as int);
            if !dfs_skips(g, c, from, e) && c[v as int] == Color::White {
                lemma_num_white_update(c, v as int, Color::Gray);
                let x = (Some(e), v);
                assert(r.1 == q.push(x));
                assert(q.push(x)[0] == q[0]);
                assert forall|i: int| 0 <= i < r.1.len() implies (#[trigger] r.1[i]).1 < g.spec_num_vertices() by {
                    if i < q.len() {
                        assert(r.1[i] == q[i]);
                    }
                }
            } else {
                assert(r.1 == q);
            }
        } else {
            lemma_num_white_update(c, u as int, Color::Black);
            assert forall|i: int| 0 <= i < r.1.len() implies (#[trigger] r.1[i]).1 < g.spec_num_vertices() by {
                assert(r.1[i] == q[i + 1]);
            }
        }
        lemma_bfs_ends(g, r.0, r.1, r.2);
        let n1 = choose|n1: nat| (#[trigger] bfs_go(g, r.0, r.1, r.2, n1)).1.len() == 0;
        assert(bfs_go(g, c, q, k, n1 + 1).1 == bfs_go(g, r.0, r.1, r.2, n1).1);
    }
}

proof fn lemma_bfs_steps_grow(g: &Static, c: Seq<Color>, q: Seq<(Option<usize>, usize)>, n: nat, m: nat)
    requires
        n <= m,
    ensures
        bfs_steps(g, c, q, n).3.is_prefix_of(bfs_steps(g, c, q, m).3),
    decreases m,
{
    if m == n {
        lemma_prefix_self(bfs_steps(g, c, q, n).3, Seq::<TraverseEvent>::empty());
        assert(bfs_steps(g, c, q, n).3 + Seq::<TraverseEvent>::empty() =~= bfs_steps(g, c, q, n).3);
    } else {
        lemma_bfs_steps_grow(g, c, q, n, (m - 1) as nat);
        let p = bfs_steps(g, c, q, (m - 1) as nat);
        let r = bfs_step(g, p.0, p.1, p.2);
        lemma_prefix_self(p.3, r.3);
        lemma_prefix_trans(bfs_steps(g, c, q, n).3, p.3, bfs_steps(g, c, q, m).3);
    }
}

/// What a breadth-first search has told after any number of steps is a prefix of all it
/// tells.
pub proof fn lemma_bfs_prefix_full(g: &Static, c: Seq<Color>, q: Seq<(Option<usize>, usize)>, n: nat)
    requires
        g.wf(),
        bfs_frames_ok(g, c, q, 0),
    ensures
        bfs_steps(g, c, q, n).3.is_prefix_of(bfs_full(g, c, q).3),
{
    lemma_bfs_ends(g, c, q, 0);
    let m = choose|m: nat| (#[trigger] bfs_go(g, c, q, 0, m)).1.len() == 0;
    lemma_bfs_steps_go(g, c, q, m);
    lemma_bfs_full(g, c, q, m);
    if n <= m {
        lemma_bfs_steps_grow(g, c, q, n, m);
    } else {
        lemma_bfs_steps_stay(g, c, q, m, n);
        lemma_bfs_steps_grow(g, c, q, n, n);
    }
}

/// What a search from the roots told, up to the point where the search from `rs[0]` stopped,
/// is a prefix of all the events of the breadth-first search from `roots`.
pub proof fn lemma_bfs_run_prefix(
    g: &Static,
    ci: Seq<Color>,
    roots: Seq<usize>,
    c1: Seq<Color>,
    rs: Seq<usize>,
    t1: Seq<TraverseEvent>,
    x: Seq<TraverseEvent>,
)
    requires
        rs.len() > 0,
        c1[rs[0] as int] == Color::White,
        t1 + bfs_roots_trace(g, c1, rs).1 == bfs_roots_trace(g, ci, roots).1,
        x.is_prefix_of(
            seq![TraverseEvent::DiscoverRootVertex(rs[0]), TraverseEvent::DiscoverVertex(rs[0])] + bfs_full(
                g,
                c1.update(rs[0] as int, Color::Gray),
                seq![(None::<usize>, rs[0])],
            ).3 + seq![TraverseEvent::FinishRootVertex(rs[0])],
        ),
    ensures
        (t1 + x).is_prefix_of(bfs_roots_trace(g, ci, roots).1),
{
    let v = rs[0];
    let p = bfs_full(g, c1.update(v as int, Color::Gray), seq![(None::<usize>, v)]);
    let y = seq![TraverseEvent::DiscoverRootVertex(v), TraverseEvent::DiscoverVertex(v)] + p.3 + seq![
        TraverseEvent::FinishRootVertex(v),
    ];
    let q = bfs_roots_trace(g, p.0, rs.skip(1));
    assert(bfs_roots_trace(g, c1, rs).1 == y + q.1);
    assert(bfs_roots_trace(g, ci, roots).1 =~= t1 + y + q.1);
    lemma_prefix_in(t1, y, x, q.1);
}

/// `a` steps and then `b` more are `a + b` steps.
pub proof fn lemma_dfs_steps_add(g: &Static, c: Seq<Color>, t: Seq<(Option<usize>, usize, usize)>, a: nat, b: nat)
    ensures
        ({
            let p = dfs_steps(g, c, t, a);
            let q = dfs_steps(g, p.0, p.1, b);
            dfs_steps(g, c, t, a + b) == (q.0, q.1, p.2 + q.2)
        }),
    decreases b,
{
    let p = dfs_steps(g, c, t, a);
    if b == 0 {
        assert(p.2 + Seq::<TraverseEvent>::empty() =~= p.2);
    } else {
        lemma_dfs_steps_add(g, c, t, a, (b - 1) as nat);
        let q1 = dfs_steps(g, p.0, p.1, (b - 1) as nat);
        let r = dfs_step(g, q1.0, q1.1);
        assert((a + b - 1) as nat == a + (b - 1) as nat);
        assert(p.2 + q1.2 + r.2 =~= p.2 + (q1.2 + r.2));
    }
}

/// Frames below the stack are left alone by steps that never empty the stack above them.
pub proof fn lemma_dfs_steps_frame(
    g: &Static,
    c: Seq<Color>,
    s: Seq<(Option<usize>, usize, usize)>,
    t: Seq<(Option<usize>, usize, usize)>,
    n: nat,
)
    requires
        forall|m: nat| m < n ==> (#[trigger] dfs_steps(g, c, t, m)).1.len() > 0,
    ensures
        ({
            let p = dfs_steps(g, c, t, n);
            dfs_steps(g, c, s + t, n) == (p.0, s + p.1, p.2)
        }),
    decreases n,
{
    if n == 0 {
    } else {
        lemma_dfs_steps_frame(g, c, s, t, (n - 1) as nat);
        let p = dfs_steps(g, c, t, (n - 1) as nat);
        assert(p.1.len() > 0);
        let st = s + p.1;
        assert(st.last() == p.1.last());
        assert(st.drop_last() =~= s + p.1.drop_last());
        let q = dfs_step(g, p.0, p.1);
        let (from, u, k) = p.1.last();
        assert(s + p.1.drop_last().push((from, u, (k + 1) as usize)) =~= (s + p.1.drop_last()).push(
            (from, u, (k + 1) as usize),
        ));
        assert(s + p.1.drop_last().push((from, u, (k + 1) as usize)).push((Some(g.spec_out_edges(u as int)[k as int]), g.spec_target(g.spec_out_edges(u as int)[k as int] as int), 0usize))
            =~= (s + p.1.drop_last()).push((from, u, (k + 1) as usize)).push((Some(g.spec_out_edges(u as int)[k as int]), g.spec_target(g.spec_out_edges(u as int)[k as int] as int), 0usize)));
        assert(dfs_step(g, p.0, st) == (q.0, s + q.1, q.2));
    }
}

/// The events after which a search finishes the edge `from` by which a vertex was reached.
pub open spec fn finish_tail(from: Option<usize>) -> Seq<TraverseEvent> {
    match from {
        Some(f) => seq![TraverseEvent::FinishTreeEdge(f), TraverseEvent::FinishEdge(f)],
        None => Seq::empty(),
    }
}

/// `n` steps from the colors `c` and the one frame `x` empty the stack for the first time,
/// ending with the colors `c1` and the events `ev`.
pub open spec fn dfs_frame_run(
    g: &Static,
    c: Seq<Color>,
    x: (Option<usize>, usize, usize),
    n: nat,
    c1: Seq<Color>,
    ev: Seq<TraverseEvent>,
) -> bool {
    &&& dfs_steps(g, c, seq![x], n).1.len() == 0
    &&& forall|m: nat| m < n ==> (#[trigger] dfs_steps(g, c, seq![x], m)).1.len() > 0
    &&& dfs_steps(g, c, seq![x], n).0 == c1
    &&& dfs_steps(g, c, seq![x], n).2 == ev
}

/// The edges by which the vertices on the stack `s` above its bottom were reached, from the
/// bottom up.
pub open spec fn stack_edges(s: Seq<(Option<usize>, usize, usize)>) -> Seq<usize> {
    Seq::new((s.len() - 1) as nat, |i: int| s[i + 1].0->0)
}

/// A depth-first search from `u` alone, on a graph with `nv` vertices, discovers `v` at its
/// `n`-th step.
pub open spec fn dfs_discovers_at(g: &Static, nv: nat, u: usize, v: usize, n: nat) -> bool {
    let c0 = all_white(nv).update(u as int, Color::Gray);
    let s0 = seq![(None::<usize>, u, 0usize)];
    &&& forall|m: nat| m < n ==> (#[trigger] dfs_steps(g, c0, s0, m)).0[v as int] == Color::White
    &&& dfs_steps(g, c0, s0, n).0[v as int] == Color::Gray
}

/// Each frame of the stack `s` names a vertex and looks at no more than its out-edges.
pub open spec fn frames_ok(g: &Static, c: Seq<Color>, s: Seq<(Option<usize>, usize, usize)>) -> bool {
    &&& c.len() == g.spec_num_vertices()
    &&& forall|i: int|
        0 <= i < s.len() ==> (#[trigger] s[i]).1 < g.spec_num_vertices() && s[i].2 <= g.spec_out_edges(
            s[i].1 as int,
        ).len()
}

/// The out-edges still to look at on the stack `s`, and one more for each frame.
pub open spec fn pending(g: &Static, s: Seq<(Option<usize>, usize, usize)>) -> nat
    decreases s.len(),
{
    if s.len() == 0 {
        0
    } else {
        pending(g, s.drop_last()) + (g.spec_out_edges(s.last().1 as int).len() - s.last().2) as nat + 1
    }
}

/// A depth-first search empties its stack.
pub proof fn lemma_dfs_ends(g: &Static, c: Seq<Color>, s: Seq<(Option<usize>, usize, usize)>)
    requires
        g.wf(),
        frames_ok(g, c, s),
    ensures
        exists|n: nat| (#[trigger] dfs_steps(g, c, s, n)).1.len() == 0,
    decreases num_white(c), pending(g, s),
{
    if s.len() == 0 {
        assert(dfs_steps(g, c, s, 0).1.len() == 0);
    } else {
        let q = dfs_step(g, c, s);
        let (from, u, k) = s.last();
        assert(s[s.len() - 1] == s.last());
        g.lemma_out_targets(u as int);
        let d = g.spec_out_edges(u as int).len();
        let rest = s.drop_last();
        assert forall|i: int| 0 <= i < rest.len() implies (#[trigger] rest[i]).1 < g.spec_num_vertices()
            && rest[i].2 <= g.spec_out_edges(rest[i].1 as int).len() by {
            assert(rest[i] == s[i]);
        }
        if k < d {
            let e = g.spec_out_edges(u as int)[k as int];
            let v = g.spec_target(e as int);
            let s1 = rest.push((from, u, (k + 1) as usize));
            assert(s1.drop_last() =~= rest);
            assert(pending(g, s1) + 1 == pending(g, s));
            if !dfs_skips(g, c, from, e) && c[v as int] == Color::White {
                lemma_num_white_update(c, v as int, Color::Gray);
                let s2 = s1.push((Some(e), v, 0usize));
                assert forall|i: int| 0 <= i < s2.len() implies (#[trigger] s2[i]).1 < g.spec_num_vertices()
                    && s2[i].2 <= g.spec_out_edges(s2[i].1 as int).len() by {
                    if i < rest.len() {
                        assert(s2[i] == rest[i]);
                    }
                }
            } else {
                assert forall|i: int| 0 <= i < s1.len() implies (#[trigger] s1[i]).1 < g.spec_num_vertices()
                    && s1[i].2 <= g.spec_out_edges(s1[i].1 as int).len() by {
                    if i < rest.len() {
                        assert(s1[i] == rest[i]);
                    }
                }
            }
        } else {
            lemma_num_white_update(c, u as int, Color::Black);
            assert(pending(g, rest) + 1 == pending(g, s));
        }
        lemma_dfs_ends(g, q.0, q.1);
        let n1 = choose|n1: nat| (#[trigger] dfs_steps(g, q.0, q.1, n1)).1.len() == 0;
        lemma_dfs_steps_add(g, c, s, 1, n1);
        assert(dfs_steps(g, c, s, 0) == (c, s, Seq::<TraverseEvent>::empty()));
        assert(dfs_steps(g, c, s, 1).1 == q.1);
        assert(dfs_steps(g, c, s, 1).0 == q.0);
        assert(dfs_steps(g, c, s, 1 + n1).1.len() == 0);
    }
}

/// What a depth-first search has told after any number of steps is a prefix of all it
/// tells.
pub proof fn lemma_dfs_prefix_full(g: &Static, c: Seq<Color>, s: Seq<(Option<usize>, usize, usize)>, n: nat)
    requires
        g.wf(),
        frames_ok(g, c, s),
    ensures
        dfs_steps(g, c, s, n).2.is_prefix_of(dfs_full(g, c, s).2),
{
    lemma_dfs_ends(g, c, s);
    let m = choose|m: nat| (#[trigger] dfs_steps(g, c, s, m)).1.len() == 0;
    lemma_dfs_full(g, c, s, m);
    if n <= m {
        lemma_dfs_steps_add(g, c, s, n, (m - n) as nat);
        assert((n + (m - n) as nat) as nat == m);
        let a = dfs_steps(g, c, s, n).2;
        let b = dfs_steps(g, c, s, m).2;
        assert(b.subrange(0, a.len() as int) =~= a);
    } else {
        lemma_dfs_steps_stay(g, c, s, m, n);
        let a = dfs_steps(g, c, s, n).2;
        assert(a.subrange(0, a.len() as int) =~= a);
    }
}

/// A prefix of `b`, after `a`, is a prefix of `a + b + c`.
pub proof fn lemma_prefix_in(a: Seq<TraverseEvent>, b: Seq<TraverseEvent>, x: Seq<TraverseEvent>, c: Seq<TraverseEvent>)
    requires
        x.is_prefix_of(b),
    ensures
        (a + x).is_prefix_of(a + b + c),
{
    assert forall|i: int| 0 <= i < x.len() implies x[i] == b[i] by {
        assert(b.subrange(0, x.len() as int)[i] == b[i]);
    }
    assert((a + b + c).subrange(0, (a + x).len() as int) =~= a + x);
}

/// What a search from the roots told, up to the point where the search from `rs[0]` stopped,
/// is a prefix of all the events of the search from `roots`.
pub proof fn lemma_run_prefix(
    g: &Static,
    ci: Seq<Color>,
    roots: Seq<usize>,
    c1: Seq<Color>,
    rs: Seq<usize>,
    t1: Seq<TraverseEvent>,
    x: Seq<TraverseEvent>,
)
    requires
        rs.len() > 0,
        c1[rs[0] as int] == Color::White,
        t1 + roots_trace(g, c1, rs).1 == seq![TraverseEvent::Start] + roots_trace(g, ci, roots).1,
        x.is_prefix_of(
            seq![TraverseEvent::DiscoverRootVertex(rs[0]), TraverseEvent::DiscoverVertex(rs[0])] + dfs_full(
                g,
                c1.update(rs[0] as int, Color::Gray),
                seq![(None::<usize>, rs[0], 0usize)],
            ).2 + seq![TraverseEvent::FinishRootVertex(rs[0])],
        ),
    ensures
        (t1 + x).is_prefix_of(dfs_trace(g, ci, roots)),
{
    let v = rs[0];
    let p = dfs_full(g, c1.update(v as int, Color::Gray), seq![(None::<usize>, v, 0usize)]);
    let y = seq![TraverseEvent::DiscoverRootVertex(v), TraverseEvent::DiscoverVertex(v)] + p.2 + seq![
        TraverseEvent::FinishRootVertex(v),
    ];
    let q = roots_trace(g, p.0, rs.skip(1));
    assert(roots_trace(g, c1, rs).1 == y + q.1);
    let all = dfs_trace(g, ci, roots);
    assert(all =~= t1 + y + (q.1 + seq![TraverseEvent::Finish]));
    lemma_prefix_in(t1, y, x, q.1 + seq![TraverseEvent::Finish]);
}

/// Every sequence is a prefix of itself followed by more.
pub proof fn lemma_prefix_self(a: Seq<TraverseEvent>, b: Seq<TraverseEvent>)
    ensures
        a.is_prefix_of(a + b),
{
    assert((a + b).subrange(0, a.len() as int) =~= a);
}

pub proof fn lemma_prefix_trans(a: Seq<TraverseEvent>, b: Seq<TraverseEvent>, c: Seq<TraverseEvent>)
    requires
        a.is_prefix_of(b),
        b.is_prefix_of(c),
    ensures
        a.is_prefix_of(c),
{
    assert forall|i: int| 0 <= i < a.len() implies a[i] == c[i] by {
        assert(b.subrange(0, a.len() as int)[i] == b[i]);
        assert(c.subrange(0, b.len() as int)[i] == c[i]);
    }
    assert(c.subrange(0, a.len() as int) =~= a);
}

/// The events of a search from the roots that stopped inside the search from `rs[0]`: `x0`
/// told before it, and a prefix of what `n` steps of it told, are a prefix of all the events
/// of the search from `roots`.
pub proof fn lemma_run_prefix_inside(
    g: &Static,
    ci: Seq<Color>,
    roots: Seq<usize>,
    c1: Seq<Color>,
    rs: Seq<usize>,
    t1: Seq<TraverseEvent>,
    tp: Seq<TraverseEvent>,
    n: nat,
)
    requires
        g.wf(),
        rs.len() > 0,
        rs[0] < g.spec_num_vertices(),
        c1.len() == g.spec_num_vertices(),
        c1[rs[0] as int] == Color::White,
        t1 + roots_trace(g, c1, rs).1 == seq![TraverseEvent::Start] + roots_trace(g, ci, roots).1,
        tp.is_prefix_of(dfs_steps(g, c1.update(rs[0] as int, Color::Gray), seq![(None::<usize>, rs[0], 0usize)], n).2),
    ensures
        (t1 + (seq![TraverseEvent::DiscoverRootVertex(rs[0]), TraverseEvent::DiscoverVertex(rs[0])] + tp)).is_prefix_of(
            dfs_trace(g, ci, roots),
        ),
{
    let v = rs[0];
    let c2 = c1.update(v as int, Color::Gray);
    let sb = seq![(None::<usize>, v, 0usize)];
    assert(frames_ok(g, c2, sb));
    lemma_dfs_prefix_full(g, c2, sb, n);
    let p = dfs_full(g, c2, sb);
    lemma_prefix_trans(tp, dfs_steps(g, c2, sb, n).2, p.2);
    let x0 = seq![TraverseEvent::DiscoverRootVertex(v), TraverseEvent::DiscoverVertex(v)];
    lemma_prefix_in(x0, p.2, tp, seq![TraverseEvent::FinishRootVertex(v)]);
    lemma_run_prefix(g, ci, roots, c1, rs, t1, x0 + tp);
}

/// The same at the first events of the search from `rs[0]`: the first `j` of its
/// `DiscoverRootVertex`, `DiscoverVertex` and, when it ends, all its events and
/// `FinishRootVertex`.
pub proof fn lemma_run_prefix_edge(
    g: &Static,
    ci: Seq<Color>,
    roots: Seq<usize>,
    c1: Seq<Color>,
    rs: Seq<usize>,
    t1: Seq<TraverseEvent>,
    j: int,
)
    requires
        rs.len() > 0,
        0 <= j <= 2,
        c1[rs[0] as int] == Color::White,
        t1 + roots_trace(g, c1, rs).1 == seq![TraverseEvent::Start] + roots_trace(g, ci, roots).1,
    ensures
        (t1 + seq![TraverseEvent::DiscoverRootVertex(rs[0]), TraverseEvent::DiscoverVertex(rs[0])].subrange(0, j)).is_prefix_of(
            dfs_trace(g, ci, roots),
        ),
        (t1 + (seq![TraverseEvent::DiscoverRootVertex(rs[0]), TraverseEvent::DiscoverVertex(rs[0])] + dfs_full(
            g,
            c1.update(rs[0] as int, Color::Gray),
            seq![(None::<usize>, rs[0], 0usize)],
        ).2 + seq![TraverseEvent::FinishRootVertex(rs[0])])).is_prefix_of(dfs_trace(g, ci, roots)),
{
    let v = rs[0];
    let p = dfs_full(g, c1.update(v as int, Color::Gray), seq![(None::<usize>, v, 0usize)]);
    let y = seq![TraverseEvent::DiscoverRootVertex(v), TraverseEvent::DiscoverVertex(v)] + p.2 + seq![
        TraverseEvent::FinishRootVertex(v),
    ];
    let x = seq![TraverseEvent::DiscoverRootVertex(v), TraverseEvent::DiscoverVertex(v)].subrange(0, j);
    assert(y.subrange(0, j) =~= x);
    lemma_run_prefix(g, ci, roots, c1, rs, t1, x);
    assert(y.subrange(0, y.len() as int) =~= y);
    lemma_run_prefix(g, ci, roots, c1, rs, t1, y);
}

/// The number of roots discovered among the events `evs`.
pub open spec fn count_roots(evs: Seq<TraverseEvent>) -> nat
    decreases evs.len(),
{
    if evs.len() == 0 {
        0
    } else {
        count_roots(evs.drop_last()) + if evs.last() is DiscoverRootVertex {
            1nat
        } else {
            0nat
        }
    }
}

pub proof fn lemma_count_roots_push(evs: Seq<TraverseEvent>, e: TraverseEvent)
    ensures
        count_roots(evs.push(e)) == count_roots(evs) + if e is DiscoverRootVertex {
            1nat
        } else {
            0nat
        },
{
    assert(evs.push(e).drop_last() =~= evs);
}

/// `n` white vertices.
pub open spec fn all_white(n: nat) -> Seq<Color> {
    Seq::new(n, |i: int| Color::White)
}

/// The vertices `0..n` in order.
pub open spec fn vertex_seq(n: nat) -> Seq<usize> {
    Seq::new(n, |i: int| i as usize)
}

} // verus!
