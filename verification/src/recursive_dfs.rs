//! Depth-first search written as a recursion, reporting its events to a visitor.
use vstd::prelude::*;
use crate::control::Control;
use crate::dfs::{tell, passed_on, lemma_passed_on_refl, lemma_passed_on_trans, 
    Color, TraverseEvent, Visitor, adjacent, closed_black, lemma_closed_reach, lemma_num_white_update,
    lemma_reach_self, lemma_reach_trans, lemma_walk_one, monotone, num_white, rank, reachable, reached_from,
    vec_of,
};
use crate::graph::Static;
use crate::trace::{
    all_white, vertex_seq, told, lemma_told_none, lemma_told_trans, dfs_step, dfs_steps, dfs_trace,
    roots_trace, lemma_dfs_steps_add, lemma_dfs_steps_frame, lemma_dfs_full, dfs_frame_run, finish_tail,
    lemma_roots_white, lemma_roots_seen, lemma_told_prefix, lemma_prefix_in, lemma_prefix_self, lemma_prefix_trans,
    lemma_run_prefix_edge, lemma_run_prefix_inside,
};

verus! {

/// Every vertex that was white in `c0` and is not in `c1` is reachable from `u`.
pub open spec fn grown_from(g: &Static, c0: Seq<Color>, c1: Seq<Color>, u: int) -> bool {
    forall|v: int| 0 <= v < c0.len() && c0[v] == Color::White && #[trigger] c1[v] != Color::White ==> reachable(g, u, v)
}

/// Colors that only go up leave no more white vertices.
pub proof fn lemma_num_white_mono(c0: Seq<Color>, c1: Seq<Color>)
    requires
        monotone(c0, c1),
    ensures
        num_white(c1) <= num_white(c0),
    decreases c0.len(),
{
    if c0.len() > 0 {
        assert(monotone(c0.drop_last(), c1.drop_last())) by {
            assert forall|v: int| 0 <= v < c0.drop_last().len() implies rank(#[trigger] c1.drop_last()[v]) >= rank(
                c0.drop_last()[v],
            ) by {
                assert(rank(c1[v]) >= rank(c0[v]));
            }
        }
        lemma_num_white_mono(c0.drop_last(), c1.drop_last());
        assert(rank(c1[c0.len() - 1]) >= rank(c0[c0.len() - 1]));
    }
}

/// What a search from `u` has done after one from `v`, an out-neighbor of `u`, returns.
proof fn lemma_after_child(g: &Static, c0: Seq<Color>, c1: Seq<Color>, c2: Seq<Color>, u: int, v: int)
    requires
        monotone(c0, c1),
        grown_from(g, c0, c1, u),
        monotone(c1, c2),
        grown_from(g, c1, c2, v),
        adjacent(g, u, v),
        0 <= u <= usize::MAX,
        0 <= v <= usize::MAX,
    ensures
        monotone(c0, c2),
        grown_from(g, c0, c2, u),
{
    assert forall|x: int| 0 <= x < c0.len() implies rank(#[trigger] c2[x]) >= rank(c0[x]) by {
        assert(rank(c2[x]) >= rank(c1[x]));
        assert(rank(c1[x]) >= rank(c0[x]));
    }
    assert forall|x: int| 0 <= x < c0.len() && c0[x] == Color::White && #[trigger] c2[x] != Color::White implies reachable(
        g,
        u,
        x,
    ) by {
        if c1[x] != Color::White {
        } else {
            assert(reachable(g, v, x));
            lemma_walk_one(g, u, v);
            lemma_reach_trans(g, u, v, x);
        }
    }
}

/// The events `t` are `DiscoverVertex(u)` and a prefix of what some number `m` of steps of a
/// search from the colors `c` and the stack `s` told, the stack not emptied before `m`.
pub open spec fn told_within(g: &Static, c: Seq<Color>, s: Seq<(Option<usize>, usize, usize)>, u: usize, t: Seq<TraverseEvent>) -> bool {
    exists|m: nat|
        t.is_prefix_of(seq![TraverseEvent::DiscoverVertex(u)] + #[trigger] dfs_steps(g, c, s, m).2) && forall|j: nat|
            j < m ==> (#[trigger] dfs_steps(g, c, s, j)).1.len() > 0
}

/// Events told part way through the step after `n` steps lie within `n + 1` steps.
proof fn lemma_within_step(
    g: &Static,
    c: Seq<Color>,
    s: Seq<(Option<usize>, usize, usize)>,
    u: usize,
    n: nat,
    t: Seq<TraverseEvent>,
    j: int,
)
    requires
        forall|m: nat| m <= n ==> (#[trigger] dfs_steps(g, c, s, m)).1.len() > 0,
        0 <= j <= dfs_step(g, dfs_steps(g, c, s, n).0, dfs_steps(g, c, s, n).1).2.len(),
        t =~= seq![TraverseEvent::DiscoverVertex(u)] + dfs_steps(g, c, s, n).2 + dfs_step(
            g,
            dfs_steps(g, c, s, n).0,
            dfs_steps(g, c, s, n).1,
        ).2.subrange(0, j),
    ensures
        told_within(g, c, s, u, t),
{
    let p = dfs_steps(g, c, s, n);
    let q = dfs_step(g, p.0, p.1);
    lemma_told_prefix(t, seq![TraverseEvent::DiscoverVertex(u)] + p.2, q.2, j);
    assert(dfs_steps(g, c, s, n + 1).2 == p.2 + q.2);
    assert(seq![TraverseEvent::DiscoverVertex(u)] + p.2 + q.2 =~= seq![TraverseEvent::DiscoverVertex(u)] + dfs_steps(
        g,
        c,
        s,
        n + 1,
    ).2);
    assert(t.is_prefix_of(seq![TraverseEvent::DiscoverVertex(u)] + dfs_steps(g, c, s, (n + 1) as nat).2));
    assert forall|m: nat| m < n + 1 implies (#[trigger] dfs_steps(g, c, s, m)).1.len() > 0 by {
        assert(m <= n);
    }
}

/// Events told up to a tree edge, then within the search from its target, lie within the
/// search from `u`: the steps of the child run above the frame of `u`.
proof fn lemma_child_break(
    g: &Static,
    cu: Seq<Color>,
    su: Seq<(Option<usize>, usize, usize)>,
    u: usize,
    n: nat,
    c1: Seq<Color>,
    top: Seq<(Option<usize>, usize, usize)>,
    e: usize,
    v: usize,
    ta: Seq<TraverseEvent>,
    tc: Seq<TraverseEvent>,
)
    requires
        forall|m: nat| m <= n ==> (#[trigger] dfs_steps(g, cu, su, m)).1.len() > 0,
        top.len() > 0,
        dfs_step(g, dfs_steps(g, cu, su, n).0, dfs_steps(g, cu, su, n).1).0 == c1.update(v as int, Color::Gray),
        dfs_step(g, dfs_steps(g, cu, su, n).0, dfs_steps(g, cu, su, n).1).1 == top + seq![(Some(e), v, 0usize)],
        dfs_step(g, dfs_steps(g, cu, su, n).0, dfs_steps(g, cu, su, n).1).2 == seq![
            TraverseEvent::DiscoverEdge(e),
            TraverseEvent::DiscoverTreeEdge(e),
            TraverseEvent::DiscoverVertex(v),
        ],
        ta == seq![TraverseEvent::DiscoverVertex(u)] + dfs_steps(g, cu, su, n).2 + seq![
            TraverseEvent::DiscoverEdge(e),
            TraverseEvent::DiscoverTreeEdge(e),
        ],
        told_within(g, c1.update(v as int, Color::Gray), seq![(Some(e), v, 0usize)], v, tc),
    ensures
        told_within(g, cu, su, u, ta + tc),
{
    let p = dfs_steps(g, cu, su, n);
    let q = dfs_step(g, p.0, p.1);
    let cv = c1.update(v as int, Color::Gray);
    let cf = seq![(Some(e), v, 0usize)];
    let m1 = choose|m1: nat|
        tc.is_prefix_of(seq![TraverseEvent::DiscoverVertex(v)] + #[trigger] dfs_steps(g, cv, cf, m1).2) && forall|j: nat|
            j < m1 ==> (#[trigger] dfs_steps(g, cv, cf, j)).1.len() > 0;
    assert(dfs_steps(g, cu, su, n + 1) == (q.0, q.1, p.2 + q.2));
    lemma_dfs_steps_frame(g, cv, top, cf, m1);
    lemma_dfs_steps_add(g, cu, su, n + 1, m1);
    let pc = dfs_steps(g, cv, cf, m1);
    assert(dfs_steps(g, cu, su, n + 1 + m1).2 == p.2 + q.2 + pc.2);
    lemma_prefix_in(ta, seq![TraverseEvent::DiscoverVertex(v)] + pc.2, tc, Seq::<TraverseEvent>::empty());
    assert(ta + (seq![TraverseEvent::DiscoverVertex(v)] + pc.2) + Seq::<TraverseEvent>::empty() =~= seq![
        TraverseEvent::DiscoverVertex(u),
    ] + dfs_steps(g, cu, su, (n + 1 + m1) as nat).2);
    assert forall|j: nat| j < n + 1 + m1 implies (#[trigger] dfs_steps(g, cu, su, j)).1.len() > 0 by {
        if j > n {
            let j1 = (j - (n + 1)) as nat;
            assert forall|i: nat| i < j1 implies (#[trigger] dfs_steps(g, cv, cf, i)).1.len() > 0 by {
                assert(i < m1);
            }
            lemma_dfs_steps_frame(g, cv, top, cf, j1);
            lemma_dfs_steps_add(g, cu, su, n + 1, j1);
            assert((n + 1 + j1) as nat == j);
        }
    }
    assert(told_within(g, cu, su, u, ta + tc)) by {
        assert((ta + tc).is_prefix_of(seq![TraverseEvent::DiscoverVertex(u)] + dfs_steps(g, cu, su, (n + 1 + m1) as nat).2));
    }
}

/// Searches from `u`, which must be white: `u` turns gray, each out-edge of `u` is looked at
/// in turn, searching from its target when it is white, and `u` turns black. When the visitor
/// lets the search run to its end, `u` is black, no other vertex changed from or to gray, and
/// no black vertex has a white out-neighbor.
#[verifier::rlimit(60)]
#[verifier::spinoff_prover]
pub fn recursive_dfs_visit<V: Visitor>(
    g: &Static,
    from: Option<usize>,
    u: usize,
    color: &mut Vec<Color>,
    vis: &mut V,
) -> (r: Control)
    requires
        g.wf(),
        old(color)@.len() == g.spec_num_vertices(),
        u < g.spec_num_vertices(),
        old(color)@[u as int] == Color::White,
        closed_black(g, old(color)@),
        from matches Some(f) ==> g.has_edge(f as int) && g.spec_target(f as int) == u && old(color)@[g.spec_source(
            f as int,
        ) as int] == Color::Gray,
    ensures
        final(color)@.len() == old(color)@.len(),
        monotone(old(color)@, final(color)@),
        grown_from(g, old(color)@, final(color)@, u as int),
        r == Control::Continue ==> {
            &&& final(color)@[u as int] == Color::Black
            &&& closed_black(g, final(color)@)
            &&& forall|v: int|
                0 <= v < old(color)@.len() && v != u ==> (#[trigger] final(color)@[v] == Color::Gray <==> old(
                    color,
                )@[v] == Color::Gray)
        },
        old(vis).never_breaks() ==> r == Control::Continue && final(vis).never_breaks(),
        passed_on(old(vis).log(), final(vis).log(), r),
        r == Control::Continue ==> exists|n: nat, ev: Seq<TraverseEvent>|
            #[trigger] dfs_frame_run(g, old(color)@.update(u as int, Color::Gray), (from, u, 0usize), n, final(color)@, ev)
                && seq![TraverseEvent::DiscoverVertex(u)] + ev == told(old(vis).log(), final(vis).log()) + finish_tail(from),
        r == Control::Break ==> told_within(
            g,
            old(color)@.update(u as int, Color::Gray),
            seq![(from, u, 0usize)],
            u,
            told(old(vis).log(), final(vis).log()),
        ),
    decreases num_white(old(color)@),
{
    let ghost c0 = color@;
    let ghost nb = vis.never_breaks();
    let ghost l0 = vis.log();
    let ghost cu = c0.update(u as int, Color::Gray);
    let ghost su = seq![(from, u, 0usize)];
    let ghost mut n: nat = 0;
    proof {
        lemma_passed_on_refl(l0);
        lemma_told_none(l0);
    }
    color.set(u, Color::Gray);
    proof {
        if from is Some {
            g.lemma_target_range(from->0 as int);
        }
        lemma_num_white_update(c0, u as int, Color::Gray);
        lemma_reach_self(g, u as int);
        assert forall|x: int, j: int|
            0 <= x < color@.len() && color@[x] == Color::Black && 0 <= j < g.spec_out_edges(x).len() implies color@[g.spec_target(
            #[trigger] g.spec_out_edges(x)[j] as int,
        ) as int] != Color::White by {
            g.lemma_out_targets(x);
            assert(c0[g.spec_target(g.spec_out_edges(x)[j] as int) as int] != Color::White);
        }
    }
    if tell(vis, g, TraverseEvent::DiscoverVertex(u), Ghost(l0)) == Control::Break {
        proof {
            assert(told(l0, vis.log()) =~= seq![TraverseEvent::DiscoverVertex(u)]);
            lemma_prefix_self(seq![TraverseEvent::DiscoverVertex(u)], dfs_steps(g, cu, su, 0).2);
            assert(told(l0, vis.log()).is_prefix_of(seq![TraverseEvent::DiscoverVertex(u)] + dfs_steps(g, cu, su, 0).2));
        }
        return Control::Break;
    }
    proof {
        assert(told(l0, vis.log()) =~= seq![TraverseEvent::DiscoverVertex(u)] + dfs_steps(g, cu, su, n).2);
    }
    let d = g.out_degree(u);
    let mut k: usize = 0;
    while k < d
        invariant
            cu == c0.update(u as int, Color::Gray),
            su == seq![(from, u, 0usize)],
            dfs_steps(g, cu, su, n).0 == color@,
            dfs_steps(g, cu, su, n).1 == seq![(from, u, k)],
            forall|m: nat| m <= n ==> (#[trigger] dfs_steps(g, cu, su, m)).1.len() > 0,
            told(l0, vis.log()) == seq![TraverseEvent::DiscoverVertex(u)] + dfs_steps(g, cu, su, n).2,
            g.wf(),
            color@.len() == g.spec_num_vertices(),
            c0.len() == g.spec_num_vertices(),
            c0 == old(color)@,
            c0[u as int] == Color::White,
            nb == old(vis).never_breaks(),
            nb ==> vis.never_breaks(),
            l0 == old(vis).log(),
            passed_on(l0, vis.log(), Control::Continue),
            u < g.spec_num_vertices(),
            k <= d,
            d == g.spec_out_edges(u as int).len(),
            color@[u as int] == Color::Gray,
            from matches Some(f) ==> g.has_edge(f as int) && g.spec_target(f as int) == u && color@[g.spec_source(
                f as int,
            ) as int] == Color::Gray,
            closed_black(g, color@),
            monotone(c0, color@),
            grown_from(g, c0, color@, u as int),
            forall|v: int| 0 <= v < c0.len() && v != u ==> (#[trigger] color@[v] == Color::Gray <==> c0[v] == Color::Gray),
            forall|j: int|
                0 <= j < k ==> color@[g.spec_target(#[trigger] g.spec_out_edges(u as int)[j] as int) as int]
                    != Color::White,
            num_white(color@) < num_white(c0),
        decreases d - k,
    {
        let ghost c1 = color@;
        let ghost t0 = dfs_steps(g, cu, su, n).2;
        let ghost q = dfs_step(g, c1, seq![(from, u, k)]);
        proof {
            assert(seq![(from, u, k)].drop_last() =~= Seq::<(Option<usize>, usize, usize)>::empty());
            assert(dfs_steps(g, cu, su, n + 1) == (q.0, q.1, t0 + q.2));
        }
        let e = g.out_edge(u, k);
        let v = g.target(e);
        proof {
            g.lemma_out_targets(u as int);
            if from is Some {
                g.lemma_target_range(from->0 as int);
            }
        }
        k = k + 1;
        let skip = (g.is_undirected_edge(e) && color[v] == Color::Black) || match from {
            Some(f) => g.edge_index(f) == g.edge_index(e),
            None => false,
        };
        if skip {
            proof {
                if !(!g.spec_directed() && c1[v as int] == Color::Black) {
                    let f = from->0;
                    g.lemma_same_index(e as int, f as int);
                }
                assert(q.1 =~= seq![(from, u, k)]);
                assert(t0 + q.2 =~= t0);
                assert forall|m: nat| m <= n + 1 implies (#[trigger] dfs_steps(g, cu, su, m)).1.len() > 0 by {
                    if m <= n {
                    }
                }
                n = n + 1;
            }
        } else {
            if tell(vis, g, TraverseEvent::DiscoverEdge(e), Ghost(l0)) == Control::Break {
                proof {
                    lemma_within_step(g, cu, su, u, n, told(l0, vis.log()), 1);
                }
                return Control::Break;
            }
            let cv = color[v];
            if cv == Color::White {
                if tell(vis, g, TraverseEvent::DiscoverTreeEdge(e), Ghost(l0)) == Control::Break {
                    proof {
                        lemma_within_step(g, cu, su, u, n, told(l0, vis.log()), 2);
                    }
                    return Control::Break;
                }
                proof {
                    assert(adjacent(g, u as int, v as int)) by {
                        reveal(adjacent);
                    }
                }
                let ghost lb = vis.log();
                let ghost ta = told(l0, lb);
                proof {
                    assert(ta =~= seq![TraverseEvent::DiscoverVertex(u)] + t0 + seq![
                        TraverseEvent::DiscoverEdge(e),
                        TraverseEvent::DiscoverTreeEdge(e),
                    ]);
                }
                let child = recursive_dfs_visit(g, Some(e), v, color, vis);
                proof {
                    lemma_passed_on_trans(l0, lb, vis.log(), child);
                    lemma_after_child(g, c0, c1, color@, u as int, v as int);
                }
                if child == Control::Break {
                    proof {
                        lemma_told_trans(l0, lb, vis.log());
                        assert(q.1 =~= seq![(from, u, k)] + seq![(Some(e), v, 0usize)]);
                        lemma_child_break(g, cu, su, u, n, c1, seq![(from, u, k)], e, v, ta, told(lb, vis.log()));
                        assert(told(l0, vis.log()) == ta + told(lb, vis.log()));
                    }
                    return Control::Break;
                }
                let ghost tc = told(lb, vis.log());
                let ghost nc: nat;
                let ghost evc: Seq<TraverseEvent>;
                proof {
                    lemma_told_trans(l0, lb, vis.log());
                    let (n1, e1) = choose|n1: nat, e1: Seq<TraverseEvent>|
                        #[trigger] dfs_frame_run(g, c1.update(v as int, Color::Gray), (Some(e), v, 0usize), n1, color@, e1)
                            && seq![TraverseEvent::DiscoverVertex(v)] + e1 == tc + finish_tail(Some(e));
                    nc = n1;
                    evc = e1;
                    let top = seq![(from, u, k)];
                    let child_frame = seq![(Some(e), v, 0usize)];
                    assert(q.1 =~= top + child_frame);
                    lemma_dfs_steps_frame(g, q.0, top, child_frame, nc);
                    lemma_dfs_steps_add(g, cu, su, n + 1, nc);
                    assert(top + Seq::<(Option<usize>, usize, usize)>::empty() =~= top);
                    assert forall|m: nat| m <= n + 1 + nc implies (#[trigger] dfs_steps(g, cu, su, m)).1.len() > 0 by {
                        if m > n + 1 {
                            let m1 = (m - (n + 1)) as nat;
                            assert forall|j: nat| j < m1 implies (#[trigger] dfs_steps(g, q.0, child_frame, j)).1.len() > 0 by {
                            }
                            lemma_dfs_steps_frame(g, q.0, top, child_frame, m1);
                            lemma_dfs_steps_add(g, cu, su, n + 1, m1);
                            assert((n + 1 + m1) as nat == m);
                        }
                    }
                }
                proof {
                    lemma_num_white_mono(c1, color@);
                    assert forall|j: int|
                        0 <= j < k implies color@[g.spec_target(
                        #[trigger] g.spec_out_edges(u as int)[j] as int,
                    ) as int] != Color::White by {
                        let w = g.spec_target(g.spec_out_edges(u as int)[j] as int) as int;
                        if j < k - 1 {
                            assert(c1[w] != Color::White);
                            assert(rank(color@[w]) >= rank(c1[w]));
                        }
                    }
                    assert forall|w: int| 0 <= w < c0.len() && w != u implies (#[trigger] color@[w] == Color::Gray
                        <==> c0[w] == Color::Gray) by {
                        if w != v {
                            assert(color@[w] == Color::Gray <==> c1[w] == Color::Gray);
                        } else {
                            assert(rank(c1[w]) >= rank(c0[w]));
                        }
                    }
                }
                if tell(vis, g, TraverseEvent::FinishTreeEdge(e), Ghost(l0)) == Control::Break {
                    proof {
                        let whole = seq![TraverseEvent::DiscoverVertex(u)] + (t0 + q.2 + evc);
                        assert(whole =~= ta + (tc + finish_tail(Some(e))));
                        assert(told(l0, vis.log()) =~= ta + tc + seq![TraverseEvent::FinishTreeEdge(e)]);
                        assert(whole.subrange(0, told(l0, vis.log()).len() as int) =~= told(l0, vis.log()));
                        assert(dfs_steps(g, cu, su, n + 1 + nc).2 == t0 + q.2 + evc);
                        assert(told(l0, vis.log()).is_prefix_of(seq![TraverseEvent::DiscoverVertex(u)] + dfs_steps(g, cu, su, (n + 1 + nc) as nat).2));
                        assert forall|m: nat| m < n + 1 + nc implies (#[trigger] dfs_steps(g, cu, su, m)).1.len() > 0 by {
                            assert(m <= n + 1 + nc);
                        }
                    }
                    return Control::Break;
                }
                if tell(vis, g, TraverseEvent::FinishEdge(e), Ghost(l0)) == Control::Break {
                    proof {
                        let whole = seq![TraverseEvent::DiscoverVertex(u)] + (t0 + q.2 + evc);
                        assert(whole =~= ta + (tc + finish_tail(Some(e))));
                        assert(told(l0, vis.log()) =~= whole);
                        lemma_prefix_self(whole, Seq::<TraverseEvent>::empty());
                        assert(whole + Seq::<TraverseEvent>::empty() =~= whole);
                        assert(dfs_steps(g, cu, su, n + 1 + nc).2 == t0 + q.2 + evc);
                        assert(told(l0, vis.log()).is_prefix_of(seq![TraverseEvent::DiscoverVertex(u)] + dfs_steps(g, cu, su, (n + 1 + nc) as nat).2));
                        assert forall|m: nat| m < n + 1 + nc implies (#[trigger] dfs_steps(g, cu, su, m)).1.len() > 0 by {
                            assert(m <= n + 1 + nc);
                        }
                    }
                    return Control::Break;
                }
                proof {
                    assert(told(l0, vis.log()) =~= ta + (tc + finish_tail(Some(e))));
                    assert(told(l0, vis.log()) =~= ta + (seq![TraverseEvent::DiscoverVertex(v)] + evc));
                    assert(told(l0, vis.log()) =~= seq![TraverseEvent::DiscoverVertex(u)] + (t0 + q.2 + evc));
                    n = n + 1 + nc;
                }
                continue;
            } else if cv == Color::Gray {
                if tell(vis, g, TraverseEvent::DiscoverBackEdge(e), Ghost(l0)) == Control::Break {
                    proof {
                        lemma_within_step(g, cu, su, u, n, told(l0, vis.log()), 2);
                    }
                    return Control::Break;
                }
            } else {
                if tell(vis, g, TraverseEvent::DiscoverCrossOrForwardEdge(e), Ghost(l0)) == Control::Break {
                    proof {
                        lemma_within_step(g, cu, su, u, n, told(l0, vis.log()), 2);
                    }
                    return Control::Break;
                }
            }
            if tell(vis, g, TraverseEvent::FinishEdge(e), Ghost(l0)) == Control::Break {
                proof {
                    lemma_within_step(g, cu, su, u, n, told(l0, vis.log()), 3);
                }
                return Control::Break;
            }
            proof {
                assert(told(l0, vis.log()) =~= seq![TraverseEvent::DiscoverVertex(u)] + (t0 + q.2));
                assert forall|m: nat| m <= n + 1 implies (#[trigger] dfs_steps(g, cu, su, m)).1.len() > 0 by {
                    if m <= n {
                    }
                }
                n = n + 1;
            }
        }
    }
    let ghost c2 = color@;
    let ghost t0 = dfs_steps(g, cu, su, n).2;
    let ghost q = dfs_step(g, c2, seq![(from, u, k)]);
    proof {
        assert(seq![(from, u, k)].drop_last() =~= Seq::<(Option<usize>, usize, usize)>::empty());
        assert(dfs_steps(g, cu, su, n + 1) == (q.0, q.1, t0 + q.2));
    }
    color.set(u, Color::Black);
    proof {
        assert forall|x: int, j: int|
            0 <= x < color@.len() && color@[x] == Color::Black && 0 <= j < g.spec_out_edges(x).len() implies color@[g.spec_target(
            #[trigger] g.spec_out_edges(x)[j] as int,
        ) as int] != Color::White by {
            g.lemma_out_targets(x);
            if x != u {
                assert(c2[x] == Color::Black);
            }
            assert(c2[g.spec_target(g.spec_out_edges(x)[j] as int) as int] != Color::White);
        }
        assert forall|x: int| 0 <= x < c0.len() implies rank(#[trigger] color@[x]) >= rank(c0[x]) by {
            assert(rank(c2[x]) >= rank(c0[x]));
        }
        assert forall|x: int| 0 <= x < c0.len() && c0[x] == Color::White && #[trigger] color@[x] != Color::White implies reachable(
            g,
            u as int,
            x,
        ) by {
            if x != u {
                assert(c2[x] == color@[x]);
            }
        }
    }
    let r = tell(vis, g, TraverseEvent::FinishVertex(u), Ghost(l0));
    proof {
        lemma_within_step(g, cu, su, u, n, told(l0, vis.log()), 1);
        assert(seq![TraverseEvent::DiscoverVertex(u)] + (t0 + q.2) =~= told(l0, vis.log()) + finish_tail(from));
        assert(dfs_frame_run(g, cu, (from, u, 0usize), n + 1, color@, t0 + q.2));
    }
    r
}

/// The events of a search from the roots that stopped inside the recursive search from
/// `rs[0]`: `t1`, its `DiscoverRootVertex`, and what the recursion told, are a prefix of all
/// the events of the search from `roots`.
proof fn lemma_root_break(
    g: &Static,
    ci: Seq<Color>,
    roots: Seq<usize>,
    c1: Seq<Color>,
    rs: Seq<usize>,
    t1: Seq<TraverseEvent>,
    tc: Seq<TraverseEvent>,
)
    requires
        g.wf(),
        rs.len() > 0,
        rs[0] < g.spec_num_vertices(),
        c1.len() == g.spec_num_vertices(),
        c1[rs[0] as int] == Color::White,
        t1 + roots_trace(g, c1, rs).1 == seq![TraverseEvent::Start] + roots_trace(g, ci, roots).1,
        told_within(g, c1.update(rs[0] as int, Color::Gray), seq![(None::<usize>, rs[0], 0usize)], rs[0], tc),
    ensures
        (t1 + seq![TraverseEvent::DiscoverRootVertex(rs[0])] + tc).is_prefix_of(dfs_trace(g, ci, roots)),
{
    let v = rs[0];
    let cv = c1.update(v as int, Color::Gray);
    let sb = seq![(None::<usize>, v, 0usize)];
    let m = choose|m: nat|
        tc.is_prefix_of(seq![TraverseEvent::DiscoverVertex(v)] + #[trigger] dfs_steps(g, cv, sb, m).2) && forall|j: nat|
            j < m ==> (#[trigger] dfs_steps(g, cv, sb, j)).1.len() > 0;
    let st = dfs_steps(g, cv, sb, m).2;
    lemma_prefix_self(st, Seq::<TraverseEvent>::empty());
    assert(st + Seq::<TraverseEvent>::empty() =~= st);
    lemma_run_prefix_inside(g, ci, roots, c1, rs, t1, st, m);
    let a = t1 + seq![TraverseEvent::DiscoverRootVertex(v)];
    lemma_prefix_in(a, seq![TraverseEvent::DiscoverVertex(v)] + st, tc, Seq::<TraverseEvent>::empty());
    assert(a + (seq![TraverseEvent::DiscoverVertex(v)] + st) + Seq::<TraverseEvent>::empty() =~= t1 + (seq![
        TraverseEvent::DiscoverRootVertex(v),
        TraverseEvent::DiscoverVertex(v),
    ] + st));
    lemma_prefix_trans(a + tc, t1 + (seq![TraverseEvent::DiscoverRootVertex(v), TraverseEvent::DiscoverVertex(v)] + st), dfs_trace(g, ci, roots));
}

/// Searches from each root in turn that is still white, telling the visitor what happens.
/// When the search runs to its end, the black vertices are exactly those reachable from a
/// root, and no vertex is left gray.
#[verifier::rlimit(100)]
#[verifier::spinoff_prover]
pub fn recursive_dfs_run<V: Visitor>(g: &Static, vis: &mut V, roots: &Vec<usize>, color: &mut Vec<Color>) -> (r: Control)
    requires
        g.wf(),
        old(color)@.len() == g.spec_num_vertices(),
        forall|v: int| 0 <= v < old(color)@.len() ==> #[trigger] old(color)@[v] == Color::White,
        forall|i: int| 0 <= i < roots@.len() ==> #[trigger] roots@[i] < g.spec_num_vertices(),
    ensures
        final(color)@.len() == g.spec_num_vertices(),
        r == Control::Continue ==> forall|v: int|
            0 <= v < g.spec_num_vertices() ==> (#[trigger] final(color)@[v] == Color::Black <==> reached_from(
                g,
                roots@,
                v,
            )),
        r == Control::Continue ==> forall|v: int| 0 <= v < g.spec_num_vertices() ==> #[trigger] final(color)@[v] != Color::Gray,
        old(vis).never_breaks() ==> r == Control::Continue,
        roots@.len() > 0 && V::must_break(g, TraverseEvent::DiscoverRootVertex(roots@[0])) ==> r == Control::Break,
        V::must_break(g, TraverseEvent::Start) ==> r == Control::Break,
        V::must_break(g, TraverseEvent::Finish) ==> r == Control::Break,
        passed_on(old(vis).log(), final(vis).log(), r),
        r == Control::Continue ==> told(old(vis).log(), final(vis).log()) == dfs_trace(g, old(color)@, roots@),
        r == Control::Continue ==> final(color)@ == roots_trace(g, old(color)@, roots@).0,
        r == Control::Break ==> told(old(vis).log(), final(vis).log()).is_prefix_of(dfs_trace(g, old(color)@, roots@)),
{
    let ghost nb = vis.never_breaks();
    let ghost l0 = vis.log();
    let ghost ci = color@;
    proof {
        lemma_passed_on_refl(l0);
        lemma_told_none(l0);
    }
    if tell(vis, g, TraverseEvent::Start, Ghost(l0)) == Control::Break {
        proof {
            lemma_prefix_self(seq![TraverseEvent::Start], roots_trace(g, ci, roots@).1 + seq![TraverseEvent::Finish]);
            assert(told(l0, vis.log()) =~= seq![TraverseEvent::Start]);
            assert(dfs_trace(g, ci, roots@) =~= seq![TraverseEvent::Start] + (roots_trace(g, ci, roots@).1 + seq![
                TraverseEvent::Finish,
            ]));
        }
        return Control::Break;
    }
    let mut i: usize = 0;
    proof {
        assert(roots@.skip(0) =~= roots@);
        assert(told(l0, vis.log()) =~= seq![TraverseEvent::Start]);
    }
    while i < roots.len()
        invariant
            ci == old(color)@,
            told(l0, vis.log()) + roots_trace(g, color@, roots@.skip(i as int)).1 == seq![TraverseEvent::Start]
                + roots_trace(g, ci, roots@).1,
            roots_trace(g, color@, roots@.skip(i as int)).0 == roots_trace(g, ci, roots@).0,
            i == 0 ==> forall|v: int| 0 <= v < color@.len() ==> #[trigger] color@[v] == Color::White,
            i > 0 && roots@.len() > 0 ==> !V::must_break(g, TraverseEvent::DiscoverRootVertex(roots@[0])),
            !V::must_break(g, TraverseEvent::Start),
            g.wf(),
            nb == old(vis).never_breaks(),
            nb ==> vis.never_breaks(),
            l0 == old(vis).log(),
            passed_on(l0, vis.log(), Control::Continue),
            color@.len() == g.spec_num_vertices(),
            forall|k: int| 0 <= k < roots@.len() ==> #[trigger] roots@[k] < g.spec_num_vertices(),
            i <= roots@.len(),
            closed_black(g, color@),
            forall|v: int| 0 <= v < color@.len() ==> #[trigger] color@[v] != Color::Gray,
            forall|k: int| 0 <= k < i ==> color@[#[trigger] roots@[k] as int] == Color::Black,
            forall|v: int| 0 <= v < color@.len() && #[trigger] color@[v] == Color::Black ==> reached_from(g, roots@.take(i as int), v),
        decreases roots@.len() - i,
    {
        let v = roots[i];
        let ghost c1 = color@;
        let ghost rs = roots@.skip(i as int);
        let ghost t1 = told(l0, vis.log());
        proof {
            assert(rs[0] == v);
            assert(rs.skip(1) =~= roots@.skip(i + 1));
        }
        if color[v] == Color::White {
            if tell(vis, g, TraverseEvent::DiscoverRootVertex(v), Ghost(l0)) == Control::Break {
                proof {
                    lemma_run_prefix_edge(g, ci, roots@, c1, rs, t1, 1);
                    assert(told(l0, vis.log()) =~= t1 + seq![
                        TraverseEvent::DiscoverRootVertex(v),
                        TraverseEvent::DiscoverVertex(v),
                    ].subrange(0, 1));
                }
                return Control::Break;
            }
            let ghost lb = vis.log();
            proof {
                assert(told(l0, lb) =~= t1 + seq![TraverseEvent::DiscoverRootVertex(v)]);
            }
            let c = recursive_dfs_visit(g, None, v, color, vis);
            proof {
                lemma_passed_on_trans(l0, lb, vis.log(), c);
            }
            if c == Control::Break {
                proof {
                    lemma_told_trans(l0, lb, vis.log());
                    lemma_root_break(g, ci, roots@, c1, rs, t1, told(lb, vis.log()));
                }
                return Control::Break;
            }
            let ghost tc = told(lb, vis.log());
            let ghost ev: Seq<TraverseEvent>;
            proof {
                lemma_told_trans(l0, lb, vis.log());
                let (n1, e1) = choose|n1: nat, e1: Seq<TraverseEvent>|
                    #[trigger] dfs_frame_run(g, c1.update(v as int, Color::Gray), (None::<usize>, v, 0usize), n1, color@, e1)
                        && seq![TraverseEvent::DiscoverVertex(v)] + e1 == tc + finish_tail(None);
                ev = e1;
                lemma_dfs_full(g, c1.update(v as int, Color::Gray), seq![(None::<usize>, v, 0usize)], n1);
                assert(tc + finish_tail(None) =~= tc);
            }
            proof {
                let c3 = color@;
                assert forall|w: int| 0 <= w < c3.len() implies #[trigger] c3[w] != Color::Gray by {
                    if w != v {
                        assert(c3[w] == Color::Gray <==> c1[w] == Color::Gray);
                    }
                }
                assert forall|w: int| 0 <= w < c3.len() && #[trigger] c3[w] == Color::Black implies reached_from(
                    g,
                    roots@.take(i + 1),
                    w,
                ) by {
                    assert(roots@.take(i + 1)[i as int] == v);
                    if c1[w] == Color::White {
                        assert(reachable(g, v as int, w));
                        assert(reachable(g, roots@.take(i + 1)[i as int] as int, w));
                    } else {
                        assert(c1[w] == Color::Black);
                        assert(reached_from(g, roots@.take(i as int), w));
                        let k = choose|k: int| 0 <= k < i && #[trigger] reachable(g, roots@.take(i as int)[k] as int, w);
                        assert(roots@.take(i + 1)[k] == roots@.take(i as int)[k]);
                    }
                }
                assert forall|k: int| 0 <= k < i + 1 implies c3[#[trigger] roots@[k] as int] == Color::Black by {
                    if k < i {
                        assert(rank(c3[roots@[k] as int]) >= rank(c1[roots@[k] as int]));
                    }
                }
            }
            if tell(vis, g, TraverseEvent::FinishRootVertex(v), Ghost(l0)) == Control::Break {
                proof {
                    lemma_run_prefix_edge(g, ci, roots@, c1, rs, t1, 0);
                    assert(told(l0, vis.log()) =~= t1 + (seq![
                        TraverseEvent::DiscoverRootVertex(v),
                        TraverseEvent::DiscoverVertex(v),
                    ] + ev + seq![TraverseEvent::FinishRootVertex(v)]));
                }
                return Control::Break;
            }
            proof {
                assert(told(l0, vis.log()) =~= t1.push(TraverseEvent::DiscoverRootVertex(v)).push(
                    TraverseEvent::DiscoverVertex(v),
                ) + ev.push(TraverseEvent::FinishRootVertex(v)));
                lemma_roots_white(g, c1, rs, t1, ev, told(l0, vis.log()), color@);
            }
        } else {
            proof {
                lemma_roots_seen(g, c1, rs);
                assert(color@[v as int] == Color::Black);
                assert forall|w: int| 0 <= w < color@.len() && #[trigger] color@[w] == Color::Black implies reached_from(
                    g,
                    roots@.take(i + 1),
                    w,
                ) by {
                    assert(reached_from(g, roots@.take(i as int), w));
                    let k = choose|k: int| 0 <= k < i && #[trigger] reachable(g, roots@.take(i as int)[k] as int, w);
                    assert(roots@.take(i + 1)[k] == roots@.take(i as int)[k]);
                }
            }
        }
        i += 1;
    }
    proof {
        assert(roots@.take(roots@.len() as int) =~= roots@);
        assert forall|v: int| 0 <= v < g.spec_num_vertices() && reached_from(g, roots@, v) implies #[trigger] color@[v]
            == Color::Black by {
            let k = choose|k: int| 0 <= k < roots@.len() && #[trigger] reachable(g, roots@[k] as int, v);
            assert(color@[roots@[k] as int] == Color::Black);
            lemma_closed_reach(g, color@, roots@[k] as int, v);
        }
    }
    proof {
        assert(roots@.skip(i as int) =~= Seq::<usize>::empty());
        assert(told(l0, vis.log()) =~= seq![TraverseEvent::Start] + roots_trace(g, ci, roots@).1);
    }
    let r = tell(vis, g, TraverseEvent::Finish, Ghost(l0));
    proof {
        assert(told(l0, vis.log()) =~= dfs_trace(g, ci, roots@));
        lemma_prefix_self(dfs_trace(g, ci, roots@), Seq::<TraverseEvent>::empty());
        assert(dfs_trace(g, ci, roots@) + Seq::<TraverseEvent>::empty() =~= dfs_trace(g, ci, roots@));
    }
    r
}

/// Searches the whole graph, from each vertex in turn.
pub fn recursive_dfs<V: Visitor>(g: &Static, vis: &mut V) -> (r: Control)
    requires
        g.wf(),
    ensures
        old(vis).never_breaks() ==> r == Control::Continue,
        g.spec_num_vertices() > 0 && V::must_break(g, TraverseEvent::DiscoverRootVertex(0)) ==> r == Control::Break,
        V::must_break(g, TraverseEvent::Start) ==> r == Control::Break,
        V::must_break(g, TraverseEvent::Finish) ==> r == Control::Break,
        passed_on(old(vis).log(), final(vis).log(), r),
        r == Control::Continue ==> told(old(vis).log(), final(vis).log()) == dfs_trace(
            g,
            all_white(g.spec_num_vertices()),
            vertex_seq(g.spec_num_vertices()),
        ),
        r == Control::Break ==> told(old(vis).log(), final(vis).log()).is_prefix_of(
            dfs_trace(g, all_white(g.spec_num_vertices()), vertex_seq(g.spec_num_vertices())),
        ),
{
    let roots = g.vertices();
    let mut color = vec_of(Color::White, g.num_vertices());
    proof {
        assert(color@ =~= all_white(g.spec_num_vertices()));
        assert(roots@ =~= vertex_seq(g.spec_num_vertices()));
    }
    recursive_dfs_run(g, vis, &roots, &mut color)
}

/// Searches from `root`.
pub fn recursive_dfs_with_root<V: Visitor>(g: &Static, root: usize, vis: &mut V) -> (r: Control)
    requires
        g.wf(),
        root < g.spec_num_vertices(),
    ensures
        old(vis).never_breaks() ==> r == Control::Continue,
        V::must_break(g, TraverseEvent::DiscoverRootVertex(root)) ==> r == Control::Break,
        V::must_break(g, TraverseEvent::Start) ==> r == Control::Break,
        V::must_break(g, TraverseEvent::Finish) ==> r == Control::Break,
        passed_on(old(vis).log(), final(vis).log(), r),
        r == Control::Continue ==> told(old(vis).log(), final(vis).log()) == dfs_trace(
            g,
            all_white(g.spec_num_vertices()),
            seq![root],
        ),
        r == Control::Break ==> told(old(vis).log(), final(vis).log()).is_prefix_of(
            dfs_trace(g, all_white(g.spec_num_vertices()), seq![root]),
        ),
{
    let mut roots: Vec<usize> = Vec::new();
    roots.push(root);
    let mut color = vec_of(Color::White, g.num_vertices());
    proof {
        assert(color@ =~= all_white(g.spec_num_vertices()));
        assert(roots@ =~= seq![root]);
    }
    recursive_dfs_run(g, vis, &roots, &mut color)
}

} // verus!
