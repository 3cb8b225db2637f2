//! Breadth-first search on a static graph, reporting its events to a visitor.
use vstd::prelude::*;
use std::collections::VecDeque;
use crate::control::Control;
use crate::dfs::{tell, passed_on, lemma_passed_on_refl, lemma_passed_on_trans, 
    Color, TraverseEvent, Visitor, adjacent, closed_black, grown_by_reach, lemma_closed_reach,
    lemma_num_white_update, lemma_reach_self, lemma_walk_extend, lemma_walk_one, monotone,
    num_white, rank, reachable, reached, reached_from, vec_of,
};
use crate::graph::{Static, index_of};
use crate::trace::{
    all_white, vertex_seq, told, lemma_told_none, lemma_told_prefix, lemma_told_trans, bfs_step, bfs_steps,
    bfs_full, bfs_roots_trace, lemma_bfs_full, lemma_bfs_roots_white, lemma_bfs_roots_seen, lemma_bfs_run_prefix,
    lemma_bfs_prefix_full, bfs_frames_ok, lemma_prefix_in, lemma_prefix_trans,
};

verus! {

/// The queue of a breadth-first search: for each vertex waiting to be explored, the edge by
/// which it was reached and the vertex.
pub type BfsQueue = VecDeque<(Option<usize>, usize)>;

/// Makes the queue of a breadth-first search.
pub struct NewBfsQueue;

impl NewBfsQueue {
    /// An empty queue.
    pub fn build(&self) -> (q: BfsQueue)
        ensures
            q@ == Seq::<(Option<usize>, usize)>::empty(),
    {
        VecDeque::new()
    }
}

/// One entry of the queue: a gray vertex, reached by an edge that leaves a non-white vertex.
pub open spec fn queued_ok(g: &Static, c: Seq<Color>, x: (Option<usize>, usize)) -> bool {
    let (f, u) = x;
    &&& u < g.spec_num_vertices()
    &&& c[u as int] == Color::Gray
    &&& f is Some ==> g.has_edge(f->0 as int) && g.spec_target(f->0 as int) == u && c[g.spec_source(
        f->0 as int,
    ) as int] != Color::White
}

/// `v` waits in the queue.
#[verifier::opaque]
pub open spec fn in_queue(q: Seq<(Option<usize>, usize)>, v: int) -> bool {
    exists|i: int| 0 <= i < q.len() && q[i].1 == v
}

/// The queue is consistent with the colors: its entries are gray and distinct, and every
/// gray vertex but `cur`, the one being explored, waits in it.
pub open spec fn queue_ok(g: &Static, c: Seq<Color>, q: Seq<(Option<usize>, usize)>, cur: int) -> bool {
    &&& forall|i: int| 0 <= i < q.len() ==> #[trigger] queued_ok(g, c, q[i])
    &&& forall|i: int, j: int| 0 <= i < j < q.len() ==> #[trigger] q[i].1 != #[trigger] q[j].1
    &&& forall|i: int| 0 <= i < q.len() ==> (#[trigger] q[i]).1 != cur
    &&& forall|v: int| 0 <= v < c.len() && c[v] == Color::Gray && v != cur ==> #[trigger] in_queue(q, v)
}

/// An entry stays consistent when colors only leave white and its vertex stays gray.
proof fn lemma_queued_mono(g: &Static, c1: Seq<Color>, c2: Seq<Color>, x: (Option<usize>, usize))
    requires
        g.wf(),
        c1.len() == g.spec_num_vertices(),
        c2.len() == c1.len(),
        queued_ok(g, c1, x),
        forall|y: int| 0 <= y < c1.len() && c1[y] != Color::White ==> #[trigger] c2[y] != Color::White,
        c2[x.1 as int] == Color::Gray,
    ensures
        queued_ok(g, c2, x),
{
    if x.0 is Some {
        g.lemma_target_range(x.0->0 as int);
    }
}

/// Taking the first entry out of the queue makes its vertex the one being explored.
proof fn lemma_pop(g: &Static, c: Seq<Color>, q: Seq<(Option<usize>, usize)>)
    requires
        queue_ok(g, c, q, -1),
        q.len() > 0,
    ensures
        queued_ok(g, c, q[0]),
        queue_ok(g, c, q.subrange(1, q.len() as int), q[0].1 as int),
{
    let r = q.subrange(1, q.len() as int);
    assert(queued_ok(g, c, q[0]));
    assert forall|i: int| 0 <= i < r.len() implies #[trigger] queued_ok(g, c, r[i]) by {
        assert(r[i] == q[i + 1]);
        assert(queued_ok(g, c, q[i + 1]));
    }
    assert forall|i: int, j: int| 0 <= i < j < r.len() implies #[trigger] r[i].1 != #[trigger] r[j].1 by {
        assert(r[i] == q[i + 1] && r[j] == q[j + 1]);
        assert(q[i + 1].1 != q[j + 1].1);
    }
    assert forall|i: int| 0 <= i < r.len() implies (#[trigger] r[i]).1 != q[0].1 as int by {
        assert(r[i] == q[i + 1]);
        assert(q[0].1 != q[i + 1].1);
    }
    assert forall|v: int| 0 <= v < c.len() && c[v] == Color::Gray && v != q[0].1 as int implies #[trigger] in_queue(
        r,
        v,
    ) by {
        assert(in_queue(q, v));
        reveal(in_queue);
        let i = choose|i: int| 0 <= i < q.len() && q[i].1 == v;
        assert(i != 0);
        assert(r[i - 1] == q[i]);
    }
}

/// A white target of an out-edge of the vertex being explored turns gray and joins the queue.
proof fn lemma_enqueue(
    g: &Static,
    c0: Seq<Color>,
    c1: Seq<Color>,
    c2: Seq<Color>,
    q: Seq<(Option<usize>, usize)>,
    u: usize,
    e: usize,
    v: usize,
)
    requires
        g.wf(),
        c1.len() == g.spec_num_vertices(),
        c0.len() == g.spec_num_vertices(),
        queue_ok(g, c1, q, u as int),
        u < g.spec_num_vertices(),
        c1[u as int] == Color::Gray,
        g.has_edge(e as int),
        g.spec_source(e as int) == u,
        v == g.spec_target(e as int),
        v < g.spec_num_vertices(),
        c1[v as int] == Color::White,
        c2 == c1.update(v as int, Color::Gray),
        closed_black(g, c1),
        monotone(c0, c1),
        grown_by_reach(g, c0, c1),
    ensures
        queue_ok(g, c2, q.push((Some(e), v)), u as int),
        closed_black(g, c2),
        monotone(c0, c2),
        grown_by_reach(g, c0, c2),
{
    let q2 = q.push((Some(e), v));
    assert forall|y: int| 0 <= y < c1.len() && c1[y] != Color::White implies #[trigger] c2[y] != Color::White by {
    }
    assert forall|i: int| 0 <= i < q2.len() implies #[trigger] queued_ok(g, c2, q2[i]) by {
        if i < q.len() {
            assert(q2[i] == q[i]);
            assert(queued_ok(g, c1, q[i]));
            lemma_queued_mono(g, c1, c2, q[i]);
        } else {
            assert(q2[i] == (Some(e), v));
        }
    }
    assert forall|i: int, j: int| 0 <= i < j < q2.len() implies #[trigger] q2[i].1 != #[trigger] q2[j].1 by {
        if j < q.len() {
            assert(q2[i] == q[i] && q2[j] == q[j]);
        } else {
            assert(q2[i] == q[i]);
            assert(queued_ok(g, c1, q[i]));
        }
    }
    assert forall|i: int| 0 <= i < q2.len() implies (#[trigger] q2[i]).1 != u as int by {
        if i < q.len() {
            assert(q2[i] == q[i]);
        }
    }
    assert forall|w: int| 0 <= w < c2.len() && c2[w] == Color::Gray && w != u as int implies #[trigger] in_queue(
        q2,
        w,
    ) by {
        reveal(in_queue);
        if w == v {
            assert(q2[q.len() as int].1 == v);
        } else {
            assert(in_queue(q, w));
            let i = choose|i: int| 0 <= i < q.len() && q[i].1 == w;
            assert(q2[i].1 == w);
        }
    }
    assert forall|x: int, j: int|
        0 <= x < c2.len() && c2[x] == Color::Black && 0 <= j < g.spec_out_edges(x).len() implies c2[g.spec_target(
        #[trigger] g.spec_out_edges(x)[j] as int,
    ) as int] != Color::White by {
        assert(c1[x] == Color::Black);
        g.lemma_out_targets(x);
        assert(c1[g.spec_target(g.spec_out_edges(x)[j] as int) as int] != Color::White);
    }
    assert forall|x: int| 0 <= x < c0.len() implies rank(#[trigger] c2[x]) >= rank(c0[x]) by {
        if x == v {
            assert(rank(c1[x]) >= rank(c0[x]));
        }
    }
    assert forall|x: int| 0 <= x < c0.len() && c0[x] == Color::White && #[trigger] c2[x] != Color::White implies reached(
        g,
        c0,
        x,
    ) by {
        if x == v {
            assert(adjacent(g, u as int, v as int)) by {
                reveal(adjacent);
            }
            if c0[u as int] == Color::White {
                assert(reached(g, c0, u as int));
                reveal(reached);
                let w = choose|w: int| 0 <= w < c0.len() && c0[w] == Color::Gray && reachable(g, w, u as int);
                lemma_walk_extend(g, w, u as int, v as int);
            } else {
                assert(rank(c1[u as int]) >= rank(c0[u as int]));
                lemma_walk_one(g, u as int, v as int);
                reveal(reached);
            }
        } else {
            assert(c2[x] == c1[x]);
        }
    }
}

/// The vertex being explored, all of whose out-edges enter non-white vertices, turns black.
proof fn lemma_blacken(
    g: &Static,
    c0: Seq<Color>,
    c2: Seq<Color>,
    c3: Seq<Color>,
    q: Seq<(Option<usize>, usize)>,
    u: usize,
)
    requires
        g.wf(),
        c2.len() == g.spec_num_vertices(),
        c0.len() == g.spec_num_vertices(),
        queue_ok(g, c2, q, u as int),
        u < g.spec_num_vertices(),
        c2[u as int] == Color::Gray,
        forall|j: int|
            0 <= j < g.spec_out_edges(u as int).len() ==> c2[g.spec_target(
                #[trigger] g.spec_out_edges(u as int)[j] as int,
            ) as int] != Color::White,
        c3 == c2.update(u as int, Color::Black),
        closed_black(g, c2),
        monotone(c0, c2),
        grown_by_reach(g, c0, c2),
    ensures
        queue_ok(g, c3, q, -1),
        closed_black(g, c3),
        monotone(c0, c3),
        grown_by_reach(g, c0, c3),
{
    assert forall|y: int| 0 <= y < c2.len() && c2[y] != Color::White implies #[trigger] c3[y] != Color::White by {
    }
    assert forall|i: int| 0 <= i < q.len() implies #[trigger] queued_ok(g, c3, q[i]) by {
        assert(queued_ok(g, c2, q[i]));
        assert(q[i].1 != u as int);
        lemma_queued_mono(g, c2, c3, q[i]);
    }
    assert forall|i: int| 0 <= i < q.len() implies (#[trigger] q[i]).1 != -1int by {
    }
    assert forall|w: int| 0 <= w < c3.len() && c3[w] == Color::Gray && w != -1 implies #[trigger] in_queue(q, w) by {
        assert(w != u as int);
    }
    assert forall|x: int, j: int|
        0 <= x < c3.len() && c3[x] == Color::Black && 0 <= j < g.spec_out_edges(x).len() implies c3[g.spec_target(
        #[trigger] g.spec_out_edges(x)[j] as int,
    ) as int] != Color::White by {
        g.lemma_out_targets(x);
        if x != u {
            assert(c2[x] == Color::Black);
        }
        assert(c2[g.spec_target(g.spec_out_edges(x)[j] as int) as int] != Color::White);
    }
    assert forall|x: int| 0 <= x < c0.len() implies rank(#[trigger] c3[x]) >= rank(c0[x]) by {
        assert(rank(c2[x]) >= rank(c0[x]));
    }
    assert forall|x: int| 0 <= x < c0.len() && c0[x] == Color::White && #[trigger] c3[x] != Color::White implies reached(
        g,
        c0,
        x,
    ) by {
        if x == u {
            assert(c2[x] != Color::White);
        } else {
            assert(c3[x] == c2[x]);
        }
    }
}

/// Explores the vertices of the queue in order until the queue is empty or the visitor stops
/// the search. Each vertex found white turns gray and joins the queue; a vertex turns black
/// when all its out-edges have been looked at.
pub fn bfs_visit<V: Visitor>(g: &Static, color: &mut Vec<Color>, queue: &mut BfsQueue, vis: &mut V) -> (r: Control)
    requires
        g.wf(),
        old(color)@.len() == g.spec_num_vertices(),
        queue_ok(g, old(color)@, old(queue)@, -1),
        closed_black(g, old(color)@),
    ensures
        monotone(old(color)@, final(color)@),
        grown_by_reach(g, old(color)@, final(color)@),
        r == Control::Continue ==> final(queue)@.len() == 0 && closed_black(g, final(color)@) && forall|v: int|
            0 <= v < final(color)@.len() ==> #[trigger] final(color)@[v] != Color::Gray,
        old(vis).never_breaks() ==> r == Control::Continue && final(vis).never_breaks(),
        passed_on(old(vis).log(), final(vis).log(), r),
        old(queue)@.len() == 0 ==> r == Control::Continue && final(vis).log() == old(vis).log(),
        r == Control::Continue ==> exists|n: nat|
            #[trigger] bfs_steps(g, old(color)@, old(queue)@, n) == (
                final(color)@,
                final(queue)@,
                0nat,
                told(old(vis).log(), final(vis).log()),
            ),
        r == Control::Break ==> exists|n: nat|
            told(old(vis).log(), final(vis).log()).is_prefix_of(#[trigger] bfs_steps(g, old(color)@, old(queue)@, n).3),
{
    let ghost c0 = color@;
    let ghost nb = vis.never_breaks();
    let ghost l0 = vis.log();
    let ghost q0 = queue@;
    let ghost mut n: nat = 0;
    proof {
        lemma_passed_on_refl(l0);
        lemma_told_none(l0);
    }
    while queue.len() > 0
        invariant
            l0 == old(vis).log(),
            passed_on(l0, vis.log(), Control::Continue),
            old(queue)@.len() == 0 ==> queue@.len() == 0 && vis.log() == l0,
            q0 == old(queue)@,
            bfs_steps(g, c0, q0, n) == (color@, queue@, 0nat, told(l0, vis.log())),
            g.wf(),
            color@.len() == g.spec_num_vertices(),
            c0.len() == g.spec_num_vertices(),
            c0 == old(color)@,
            nb == old(vis).never_breaks(),
            nb ==> vis.never_breaks(),
            queue_ok(g, color@, queue@, -1),
            closed_black(g, color@),
            monotone(c0, color@),
            grown_by_reach(g, c0, color@),
        decreases num_white(color@), queue@.len(),
    {
        let ghost w0 = num_white(color@);
        let ghost n0 = queue@.len();
        let ghost qb = queue@;
        proof {
            lemma_pop(g, color@, queue@);
        }
        let (from, u) = queue.pop_front().unwrap();
        proof {
            assert(seq![(from, u)] + queue@ =~= qb);
        }
        let d = g.out_degree(u);
        let mut k: usize = 0;
        while k < d
            invariant
                g.wf(),
                color@.len() == g.spec_num_vertices(),
                c0.len() == g.spec_num_vertices(),
                c0 == old(color)@,
                nb == old(vis).never_breaks(),
                nb ==> vis.never_breaks(),
                l0 == old(vis).log(),
                passed_on(l0, vis.log(), Control::Continue),
                old(queue)@.len() != 0,
                q0 == old(queue)@,
                bfs_steps(g, c0, q0, n) == (color@, seq![(from, u)] + queue@, k as nat, told(l0, vis.log())),
                u < g.spec_num_vertices(),
                k <= d,
                d == g.spec_out_edges(u as int).len(),
                queued_ok(g, color@, (from, u)),
                queue_ok(g, color@, queue@, u as int),
                forall|j: int|
                    0 <= j < k ==> color@[g.spec_target(#[trigger] g.spec_out_edges(u as int)[j] as int) as int]
                        != Color::White,
                num_white(color@) <= w0,
                num_white(color@) + queue@.len() == w0 + n0 - 1,
                closed_black(g, color@),
                monotone(c0, color@),
                grown_by_reach(g, c0, color@),
            decreases d - k,
        {
            let ghost c1 = color@;
            let ghost aq = seq![(from, u)] + queue@;
            let ghost t0 = told(l0, vis.log());
            let ghost st = bfs_step(g, c1, aq, k as nat);
            proof {
                assert(aq[0] == (from, u));
                assert(bfs_steps(g, c0, q0, n + 1) == (st.0, st.1, st.2, t0 + st.3));
            }
            let e = g.out_edge(u, k);
            let v = g.target(e);
            proof {
                g.lemma_out_targets(u as int);
            }
            k = k + 1;
            let skip = (g.is_undirected_edge(e) && color[v] == Color::Black) || match from {
                Some(f) => g.edge_index(f) == g.edge_index(e),
                None => false,
            };
            if skip {
                proof {
                    if !(!g.spec_directed() && c1[v as int] == Color::Black) {
                        let f = from->0;
                        g.lemma_same_index(e as int, f as int);
                    }
                    assert(t0 + st.3 =~= t0);
                    n = n + 1;
                }
            } else {
                if tell(vis, g, TraverseEvent::DiscoverEdge(e), Ghost(l0)) == Control::Break {
                    proof {
                        lemma_told_prefix(told(l0, vis.log()), t0, st.3, 1);
                        assert(told(l0, vis.log()).is_prefix_of(bfs_steps(g, c0, q0, n + 1).3));
                    }
                    return Control::Break;
                }
                let cv = color[v];
                if cv == Color::White {
                    color.set(v, Color::Gray);
                    proof {
                        lemma_num_white_update(c1, v as int, Color::Gray);
                        lemma_enqueue(g, c0, c1, color@, queue@, u, e, v);
                        lemma_queued_mono(g, c1, color@, (from, u));
                        assert forall|j: int|
                            0 <= j < k implies color@[g.spec_target(
                            #[trigger] g.spec_out_edges(u as int)[j] as int,
                        ) as int] != Color::White by {
                            if j < k - 1 {
                                assert(c1[g.spec_target(g.spec_out_edges(u as int)[j] as int) as int] != Color::White);
                            }
                        }
                    }
                    queue.push_back((Some(e), v));
                    if tell(vis, g, TraverseEvent::DiscoverTreeEdge(e), Ghost(l0)) == Control::Break {
                        proof {
                            lemma_told_prefix(told(l0, vis.log()), t0, st.3, 2);
                            assert(told(l0, vis.log()).is_prefix_of(bfs_steps(g, c0, q0, n + 1).3));
                        }
                        return Control::Break;
                    }
                    if tell(vis, g, TraverseEvent::DiscoverVertex(v), Ghost(l0)) == Control::Break {
                        proof {
                            lemma_told_prefix(told(l0, vis.log()), t0, st.3, 3);
                            assert(told(l0, vis.log()).is_prefix_of(bfs_steps(g, c0, q0, n + 1).3));
                        }
                        return Control::Break;
                    }
                    proof {
                        assert(told(l0, vis.log()) =~= t0 + st.3);
                        assert(seq![(from, u)] + queue@ =~= st.1);
                        n = n + 1;
                    }
                    continue;
                } else if cv == Color::Gray {
                    if tell(vis, g, TraverseEvent::DiscoverBackEdge(e), Ghost(l0)) == Control::Break {
                        proof {
                            lemma_told_prefix(told(l0, vis.log()), t0, st.3, 2);
                            assert(told(l0, vis.log()).is_prefix_of(bfs_steps(g, c0, q0, n + 1).3));
                        }
                        return Control::Break;
                    }
                } else {
                    if tell(vis, g, TraverseEvent::DiscoverCrossOrForwardEdge(e), Ghost(l0)) == Control::Break {
                        proof {
                            lemma_told_prefix(told(l0, vis.log()), t0, st.3, 2);
                            assert(told(l0, vis.log()).is_prefix_of(bfs_steps(g, c0, q0, n + 1).3));
                        }
                        return Control::Break;
                    }
                }
                if tell(vis, g, TraverseEvent::FinishEdge(e), Ghost(l0)) == Control::Break {
                    proof {
                        lemma_told_prefix(told(l0, vis.log()), t0, st.3, 3);
                        assert(told(l0, vis.log()).is_prefix_of(bfs_steps(g, c0, q0, n + 1).3));
                    }
                    return Control::Break;
                }
                proof {
                    assert(told(l0, vis.log()) =~= t0 + st.3);
                    n = n + 1;
                }
            }
        }
        let ghost c2 = color@;
        let ghost t0 = told(l0, vis.log());
        let ghost st = bfs_step(g, c2, seq![(from, u)] + queue@, k as nat);
        proof {
            assert((seq![(from, u)] + queue@)[0] == (from, u));
            assert((seq![(from, u)] + queue@).skip(1) =~= queue@);
            assert(bfs_steps(g, c0, q0, n + 1) == (st.0, st.1, st.2, t0 + st.3));
        }
        color.set(u, Color::Black);
        proof {
            lemma_num_white_update(c2, u as int, Color::Black);
            lemma_blacken(g, c0, c2, color@, queue@, u);
        }
        if tell(vis, g, TraverseEvent::FinishVertex(u), Ghost(l0)) == Control::Break {
            proof {
                lemma_told_prefix(told(l0, vis.log()), t0, st.3, 1);
                assert(told(l0, vis.log()).is_prefix_of(bfs_steps(g, c0, q0, n + 1).3));
            }
            return Control::Break;
        }
        if let Some(f) = from {
            if tell(vis, g, TraverseEvent::FinishTreeEdge(f), Ghost(l0)) == Control::Break {
                proof {
                    lemma_told_prefix(told(l0, vis.log()), t0, st.3, 2);
                    assert(told(l0, vis.log()).is_prefix_of(bfs_steps(g, c0, q0, n + 1).3));
                }
                return Control::Break;
            }
            if tell(vis, g, TraverseEvent::FinishEdge(f), Ghost(l0)) == Control::Break {
                proof {
                    lemma_told_prefix(told(l0, vis.log()), t0, st.3, 3);
                    assert(told(l0, vis.log()).is_prefix_of(bfs_steps(g, c0, q0, n + 1).3));
                }
                return Control::Break;
            }
        }
        proof {
            assert(told(l0, vis.log()) =~= t0 + st.3);
            n = n + 1;
        }
    }
    proof {
        assert forall|v: int| 0 <= v < color@.len() implies #[trigger] color@[v] != Color::Gray by {
            if color@[v] == Color::Gray {
                assert(in_queue(queue@, v));
                reveal(in_queue);
            }
        }
    }
    Control::Continue
}

/// Searches from each root in turn that is still white, telling the visitor what happens.
/// When the search runs to its end, the black vertices are exactly those reachable from a
/// A fresh root, alone in the queue, makes a consistent start.
proof fn lemma_root_queued(g: &Static, c1: Seq<Color>, c2: Seq<Color>, q: Seq<(Option<usize>, usize)>, v: usize)
    requires
        g.wf(),
        c1.len() == g.spec_num_vertices(),
        closed_black(g, c1),
        forall|w: int| 0 <= w < c1.len() ==> #[trigger] c1[w] != Color::Gray,
        v < c1.len(),
        c1[v as int] == Color::White,
        c2 == c1.update(v as int, Color::Gray),
        q == seq![(None::<usize>, v)],
    ensures
        queue_ok(g, c2, q, -1),
        closed_black(g, c2),
{
    assert(queued_ok(g, c2, q[0]));
    assert forall|w: int| 0 <= w < c2.len() && c2[w] == Color::Gray && w != -1 implies #[trigger] in_queue(q, w) by {
        reveal(in_queue);
        assert(q[0].1 == w);
    }
    assert forall|x: int, j: int|
        0 <= x < c2.len() && c2[x] == Color::Black && 0 <= j < g.spec_out_edges(x).len() implies c2[g.spec_target(
        #[trigger] g.spec_out_edges(x)[j] as int,
    ) as int] != Color::White by {
        g.lemma_out_targets(x);
        assert(c1[g.spec_target(g.spec_out_edges(x)[j] as int) as int] != Color::White);
    }
}

/// A breadth-first search from the roots stopped at the root `rs[0]`: having told `t1`, then
/// the first `j` of its `DiscoverRootVertex`, `DiscoverVertex` and, when `j` is 3, all the
/// events of the search from it and its `FinishRootVertex`. What it told is a prefix of all
/// the events of the search from `roots`.
proof fn lemma_bfs_edge_break(
    g: &Static,
    ci: Seq<Color>,
    roots: Seq<usize>,
    c1: Seq<Color>,
    rs: Seq<usize>,
    t1: Seq<TraverseEvent>,
    t: Seq<TraverseEvent>,
    j: int,
)
    requires
        rs.len() > 0,
        c1[rs[0] as int] == Color::White,
        t1 + bfs_roots_trace(g, c1, rs).1 == bfs_roots_trace(g, ci, roots).1,
        1 <= j <= 3,
        j == 1 ==> t == t1.push(TraverseEvent::DiscoverRootVertex(rs[0])),
        j == 2 ==> t == t1.push(TraverseEvent::DiscoverRootVertex(rs[0])).push(TraverseEvent::DiscoverVertex(rs[0])),
        j == 3 ==> t == t1.push(TraverseEvent::DiscoverRootVertex(rs[0])).push(TraverseEvent::DiscoverVertex(rs[0]))
            + bfs_full(g, c1.update(rs[0] as int, Color::Gray), seq![(None::<usize>, rs[0])]).3.push(
            TraverseEvent::FinishRootVertex(rs[0]),
        ),
    ensures
        t.is_prefix_of(bfs_roots_trace(g, ci, roots).1),
{
    let v = rs[0];
    let y = seq![TraverseEvent::DiscoverRootVertex(v), TraverseEvent::DiscoverVertex(v)] + bfs_full(
        g,
        c1.update(v as int, Color::Gray),
        seq![(None::<usize>, v)],
    ).3 + seq![TraverseEvent::FinishRootVertex(v)];
    let x = if j == 3 {
        y
    } else {
        y.subrange(0, j)
    };
    assert(y.subrange(0, x.len() as int) =~= x);
    assert(t =~= t1 + x);
    lemma_bfs_run_prefix(g, ci, roots, c1, rs, t1, x);
}

/// A breadth-first search from the roots stopped inside the search from `rs[0]`, having told
/// `t1`, its `DiscoverRootVertex` and `DiscoverVertex`, and then `tp`, within `n` steps of it.
/// What it told is a prefix of all the events of the search from `roots`.
proof fn lemma_bfs_visit_break(
    g: &Static,
    ci: Seq<Color>,
    roots: Seq<usize>,
    c1: Seq<Color>,
    rs: Seq<usize>,
    t1: Seq<TraverseEvent>,
    tp: Seq<TraverseEvent>,
    n: nat,
)
    requires
        g.wf(),
        rs.len() > 0,
        rs[0] < g.spec_num_vertices(),
        c1.len() == g.spec_num_vertices(),
        c1[rs[0] as int] == Color::White,
        t1 + bfs_roots_trace(g, c1, rs).1 == bfs_roots_trace(g, ci, roots).1,
        tp.is_prefix_of(bfs_steps(g, c1.update(rs[0] as int, Color::Gray), seq![(None::<usize>, rs[0])], n).3),
    ensures
        (t1 + (seq![TraverseEvent::DiscoverRootVertex(rs[0]), TraverseEvent::DiscoverVertex(rs[0])] + tp)).is_prefix_of(
            bfs_roots_trace(g, ci, roots).1,
        ),
{
    let v = rs[0];
    let c2 = c1.update(v as int, Color::Gray);
    let qb = seq![(None::<usize>, v)];
    assert(bfs_frames_ok(g, c2, qb, 0));
    lemma_bfs_prefix_full(g, c2, qb, n);
    let p = bfs_full(g, c2, qb);
    lemma_prefix_trans(tp, bfs_steps(g, c2, qb, n).3, p.3);
    let x0 = seq![TraverseEvent::DiscoverRootVertex(v), TraverseEvent::DiscoverVertex(v)];
    lemma_prefix_in(x0, p.3, tp, seq![TraverseEvent::FinishRootVertex(v)]);
    lemma_bfs_run_prefix(g, ci, roots, c1, rs, t1, x0 + tp);
}

/// root, and no vertex is left gray.
#[verifier::rlimit(50)]
#[verifier::spinoff_prover]
pub fn bfs_run<V: Visitor>(g: &Static, vis: &mut V, roots: &Vec<usize>, color: &mut Vec<Color>) -> (r: Control)
    requires
        g.wf(),
        old(color)@.len() == g.spec_num_vertices(),
        forall|v: int| 0 <= v < old(color)@.len() ==> #[trigger] old(color)@[v] == Color::White,
        forall|i: int| 0 <= i < roots@.len() ==> #[trigger] roots@[i] < g.spec_num_vertices(),
    ensures
        final(color)@.len() == g.spec_num_vertices(),
        r == Control::Continue ==> forall|v: int|
            0 <= v < g.spec_num_vertices() ==> (#[trigger] final(color)@[v] == Color::Black <==> reached_from(
                g,
                roots@,
                v,
            )),
        r == Control::Continue ==> forall|v: int| 0 <= v < g.spec_num_vertices() ==> #[trigger] final(color)@[v] != Color::Gray,
        old(vis).never_breaks() ==> r == Control::Continue,
        roots@.len() > 0 && V::must_break(g, TraverseEvent::DiscoverRootVertex(roots@[0])) ==> r == Control::Break,
        passed_on(old(vis).log(), final(vis).log(), r),
        r == Control::Continue ==> told(old(vis).log(), final(vis).log()) == bfs_roots_trace(g, old(color)@, roots@).1,
        r == Control::Continue ==> final(color)@ == bfs_roots_trace(g, old(color)@, roots@).0,
        r == Control::Break ==> told(old(vis).log(), final(vis).log()).is_prefix_of(bfs_roots_trace(g, old(color)@, roots@).1),
{
    let ghost nb = vis.never_breaks();
    let ghost l0 = vis.log();
    let ghost ci = color@;
    proof {
        lemma_passed_on_refl(l0);
        lemma_told_none(l0);
        assert(roots@.skip(0) =~= roots@);
        assert(Seq::<TraverseEvent>::empty() + bfs_roots_trace(g, ci, roots@).1 =~= bfs_roots_trace(g, ci, roots@).1);
    }
    let mut queue = NewBfsQueue.build();
    let mut i: usize = 0;
    while i < roots.len()
        invariant
            ci == old(color)@,
            told(l0, vis.log()) + bfs_roots_trace(g, color@, roots@.skip(i as int)).1 == bfs_roots_trace(g, ci, roots@).1,
            bfs_roots_trace(g, color@, roots@.skip(i as int)).0 == bfs_roots_trace(g, ci, roots@).0,
            i == 0 ==> forall|v: int| 0 <= v < color@.len() ==> #[trigger] color@[v] == Color::White,
            i > 0 && roots@.len() > 0 ==> !V::must_break(g, TraverseEvent::DiscoverRootVertex(roots@[0])),
            g.wf(),
            nb == old(vis).never_breaks(),
            nb ==> vis.never_breaks(),
            l0 == old(vis).log(),
            passed_on(l0, vis.log(), Control::Continue),
            color@.len() == g.spec_num_vertices(),
            forall|k: int| 0 <= k < roots@.len() ==> #[trigger] roots@[k] < g.spec_num_vertices(),
            i <= roots@.len(),
            queue@.len() == 0,
            closed_black(g, color@),
            forall|v: int| 0 <= v < color@.len() ==> #[trigger] color@[v] != Color::Gray,
            forall|k: int| 0 <= k < i ==> color@[#[trigger] roots@[k] as int] == Color::Black,
            forall|v: int| 0 <= v < color@.len() && #[trigger] color@[v] == Color::Black ==> reached_from(g, roots@.take(i as int), v),
        decreases roots@.len() - i,
    {
        let v = roots[i];
        let ghost c1 = color@;
        let ghost rs = roots@.skip(i as int);
        let ghost t1 = told(l0, vis.log());
        proof {
            assert(rs[0] == v);
            assert(rs.skip(1) =~= roots@.skip(i + 1));
        }
        if color[v] == Color::White {
            color.set(v, Color::Gray);
            queue.push_back((None, v));
            let ghost c2 = color@;
            proof {
                assert(queue@ =~= seq![(None::<usize>, v)]);
                lemma_root_queued(g, c1, c2, queue@, v);
                assert(c2 == c1.update(v as int, Color::Gray));
            }
            if tell(vis, g, TraverseEvent::DiscoverRootVertex(v), Ghost(l0)) == Control::Break {
                proof {
                    lemma_bfs_edge_break(g, ci, roots@, c1, rs, t1, told(l0, vis.log()), 1);
                }
                return Control::Break;
            }
            if tell(vis, g, TraverseEvent::DiscoverVertex(v), Ghost(l0)) == Control::Break {
                proof {
                    lemma_bfs_edge_break(g, ci, roots@, c1, rs, t1, told(l0, vis.log()), 2);
                }
                return Control::Break;
            }
            let ghost lb = vis.log();
            let ghost qb = queue@;
            let c = bfs_visit(g, color, &mut queue, vis);
            proof {
                lemma_passed_on_trans(l0, lb, vis.log(), c);
            }
            if c == Control::Break {
                proof {
                    lemma_told_trans(l0, lb, vis.log());
                    let nn = choose|nn: nat| told(lb, vis.log()).is_prefix_of(#[trigger] bfs_steps(g, c2, qb, nn).3);
                    lemma_bfs_visit_break(g, ci, roots@, c1, rs, t1, told(lb, vis.log()), nn);
                    assert(told(l0, lb) =~= t1 + seq![TraverseEvent::DiscoverRootVertex(v), TraverseEvent::DiscoverVertex(v)]);
                    assert(told(l0, vis.log()) =~= t1 + (seq![TraverseEvent::DiscoverRootVertex(v), TraverseEvent::DiscoverVertex(v)] + told(lb, vis.log())));
                }
                return Control::Break;
            }
            let ghost tb = told(lb, vis.log());
            proof {
                lemma_told_trans(l0, lb, vis.log());
                let nn = choose|nn: nat| #[trigger] bfs_steps(g, c2, qb, nn) == (color@, queue@, 0nat, tb);
                lemma_bfs_full(g, c2, qb, nn);
                assert(c2 == c1.update(v as int, Color::Gray));
            }
            proof {
                let c3 = color@;
                assert forall|w: int| 0 <= w < c3.len() && #[trigger] c3[w] == Color::Black implies reached_from(
                    g,
                    roots@.take(i + 1),
                    w,
                ) by {
                    assert(roots@.take(i + 1)[i as int] == v);
                    if c2[w] == Color::White {
                        assert(reached(g, c2, w));
                        reveal(reached);
                        let x = choose|x: int| 0 <= x < c2.len() && c2[x] == Color::Gray && reachable(g, x, w);
                        assert(x == v);
                        assert(reachable(g, roots@.take(i + 1)[i as int] as int, w));
                    } else {
                        assert(rank(c3[w]) >= rank(c2[w]));
                        if w == v {
                            lemma_reach_self(g, w);
                            assert(reachable(g, roots@.take(i + 1)[i as int] as int, w));
                        } else {
                            assert(c1[w] == Color::Black);
                            assert(reached_from(g, roots@.take(i as int), w));
                            let k = choose|k: int| 0 <= k < i && #[trigger] reachable(g, roots@.take(i as int)[k] as int, w);
                            assert(roots@.take(i + 1)[k] == roots@.take(i as int)[k]);
                        }
                    }
                }
                assert forall|k: int| 0 <= k < i + 1 implies c3[#[trigger] roots@[k] as int] == Color::Black by {
                    if k < i {
                        assert(rank(c3[roots@[k] as int]) >= rank(c2[roots@[k] as int]));
                    } else {
                        assert(rank(c3[v as int]) >= rank(c2[v as int]));
                    }
                }
            }
            if tell(vis, g, TraverseEvent::FinishRootVertex(v), Ghost(l0)) == Control::Break {
                proof {
                    lemma_bfs_edge_break(g, ci, roots@, c1, rs, t1, told(l0, vis.log()), 3);
                }
                return Control::Break;
            }
            proof {
                lemma_bfs_roots_white(g, c1, rs, t1, tb, told(l0, vis.log()), color@);
            }
        } else {
            proof {
                lemma_bfs_roots_seen(g, c1, rs);
                assert(color@[v as int] == Color::Black);
                assert forall|w: int| 0 <= w < color@.len() && #[trigger] color@[w] == Color::Black implies reached_from(
                    g,
                    roots@.take(i + 1),
                    w,
                ) by {
                    assert(reached_from(g, roots@.take(i as int), w));
                    let k = choose|k: int| 0 <= k < i && #[trigger] reachable(g, roots@.take(i as int)[k] as int, w);
                    assert(roots@.take(i + 1)[k] == roots@.take(i as int)[k]);
                }
            }
        }
        i += 1;
    }
    proof {
        assert(roots@.skip(i as int) =~= Seq::<usize>::empty());
        assert(told(l0, vis.log()) + Seq::<TraverseEvent>::empty() =~= told(l0, vis.log()));
        assert(roots@.take(roots@.len() as int) =~= roots@);
        assert forall|v: int| 0 <= v < g.spec_num_vertices() && reached_from(g, roots@, v) implies #[trigger] color@[v]
            == Color::Black by {
            let k = choose|k: int| 0 <= k < roots@.len() && #[trigger] reachable(g, roots@[k] as int, v);
            assert(color@[roots@[k] as int] == Color::Black);
            lemma_closed_reach(g, color@, roots@[k] as int, v);
        }
    }
    Control::Continue
}

/// Searches the whole graph, from each vertex in turn. When the search runs to its end, every
/// vertex is black.
pub fn bfs<V: Visitor>(g: &Static, vis: &mut V) -> (r: Control)
    requires
        g.wf(),
    ensures
        old(vis).never_breaks() ==> r == Control::Continue,
        g.spec_num_vertices() > 0 && V::must_break(g, TraverseEvent::DiscoverRootVertex(0)) ==> r == Control::Break,
        passed_on(old(vis).log(), final(vis).log(), r),
        r == Control::Continue ==> told(old(vis).log(), final(vis).log()) == bfs_roots_trace(
            g,
            all_white(g.spec_num_vertices()),
            vertex_seq(g.spec_num_vertices()),
        ).1,
        r == Control::Break ==> told(old(vis).log(), final(vis).log()).is_prefix_of(
            bfs_roots_trace(g, all_white(g.spec_num_vertices()), vertex_seq(g.spec_num_vertices())).1,
        ),
{
    let roots = g.vertices();
    let mut color = vec_of(Color::White, g.num_vertices());
    proof {
        assert(color@ =~= all_white(g.spec_num_vertices()));
        assert(roots@ =~= vertex_seq(g.spec_num_vertices()));
    }
    bfs_run(g, vis, &roots, &mut color)
}

/// Searches from `root`.
pub fn bfs_with_root<V: Visitor>(g: &Static, root: usize, vis: &mut V) -> (r: Control)
    requires
        g.wf(),
        root < g.spec_num_vertices(),
    ensures
        old(vis).never_breaks() ==> r == Control::Continue,
        V::must_break(g, TraverseEvent::DiscoverRootVertex(root)) ==> r == Control::Break,
        passed_on(old(vis).log(), final(vis).log(), r),
        r == Control::Continue ==> told(old(vis).log(), final(vis).log()) == bfs_roots_trace(
            g,
            all_white(g.spec_num_vertices()),
            seq![root],
        ).1,
        r == Control::Break ==> told(old(vis).log(), final(vis).log()).is_prefix_of(
            bfs_roots_trace(g, all_white(g.spec_num_vertices()), seq![root]).1,
        ),
{
    let mut roots: Vec<usize> = Vec::new();
    roots.push(root);
    let mut color = vec_of(Color::White, g.num_vertices());
    proof {
        assert(color@ =~= all_white(g.spec_num_vertices()));
        assert(roots@ =~= seq![root]);
    }
    bfs_run(g, vis, &roots, &mut color)
}

} // verus!
