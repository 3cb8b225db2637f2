//! Depth-first search on a static graph, reporting its events to a visitor.
use vstd::prelude::*;
use crate::control::Control;
use crate::graph::{Static, index_of};
use crate::trace::{lemma_prefix_self, all_white, vertex_seq, told, lemma_told_push, lemma_told_none, lemma_told_trans, lemma_dfs_full, dfs_step, dfs_steps, dfs_full, roots_trace, dfs_trace};

verus! {

/// The state of a vertex during a traversal: not seen, being explored, done.
#[derive(PartialEq, Eq, Structural, Clone, Copy, Debug)]
pub enum Color {
    White,
    Gray,
    Black,
}

/// What happens during a traversal, in the order in which it happens.
#[derive(PartialEq, Eq, Structural, Clone, Copy, Debug)]
pub enum TraverseEvent {
    Start,
    DiscoverRootVertex(usize),
    FinishRootVertex(usize),
    DiscoverVertex(usize),
    FinishVertex(usize),
    DiscoverEdge(usize),
    DiscoverTreeEdge(usize),
    FinishTreeEdge(usize),
    DiscoverBackEdge(usize),
    DiscoverCrossOrForwardEdge(usize),
    FinishEdge(usize),
    Finish,
}

/// Receives the events of a traversal; answering `Break` stops it.
pub trait Visitor {
    /// The visitor answers `Continue` to every event.
    open spec fn never_breaks(&self) -> bool {
        false
    }

    /// A state from which the visitor answers `Break` only to the events of `may_break`.
    open spec fn steady(&self) -> bool {
        true
    }

    /// The events to which a steady visitor may answer `Break`.
    open spec fn may_break(g: &Static, evt: TraverseEvent) -> bool {
        true
    }

    /// The events to which the visitor always answers `Break`.
    open spec fn must_break(g: &Static, evt: TraverseEvent) -> bool {
        false
    }

    /// The events the visitor was told of, each with its answer, in order. A visitor of this
    /// library keeps it in a ghost field; one that keeps the empty default cannot meet the
    /// contract of `visit`.
    open spec fn log(&self) -> Seq<(TraverseEvent, Control)> {
        Seq::empty()
    }

    fn visit(&mut self, g: &Static, evt: TraverseEvent) -> (r: Control)
        ensures
            final(self).log() == old(self).log().push((evt, r)),
            old(self).never_breaks() ==> r == Control::Continue && final(self).never_breaks(),
            old(self).steady() && r == Control::Break ==> Self::may_break(g, evt),
            Self::must_break(g, evt) ==> r == Control::Break,
            old(self).steady() && r == Control::Continue ==> final(self).steady(),
    ;
}

/// From the log `l0` on, the log grew to `l1` by calls that all answered `Continue`, but
/// the last when `r` is `Break`: then the last answered `Break`. So a traversal stops only
/// when, and as soon as, the visitor answers `Break`.
pub open spec fn passed_on(l0: Seq<(TraverseEvent, Control)>, l1: Seq<(TraverseEvent, Control)>, r: Control) -> bool {
    &&& l0.len() <= l1.len()
    &&& l1.subrange(0, l0.len() as int) == l0
    &&& forall|i: int|
        l0.len() <= i < l1.len() && !(r == Control::Break && i == l1.len() - 1) ==> (#[trigger] l1[i]).1
            == Control::Continue
    &&& r == Control::Break ==> l0.len() < l1.len() && l1.last().1 == Control::Break
}

pub proof fn lemma_passed_on_refl(l0: Seq<(TraverseEvent, Control)>)
    ensures
        passed_on(l0, l0, Control::Continue),
{
    assert(l0.subrange(0, l0.len() as int) =~= l0);
}

pub proof fn lemma_passed_on_push(
    l0: Seq<(TraverseEvent, Control)>,
    l1: Seq<(TraverseEvent, Control)>,
    evt: TraverseEvent,
    r: Control,
)
    requires
        passed_on(l0, l1, Control::Continue),
    ensures
        passed_on(l0, l1.push((evt, r)), r),
{
    let l2 = l1.push((evt, r));
    assert(l2.subrange(0, l0.len() as int) =~= l1.subrange(0, l0.len() as int));
    assert forall|i: int|
        l0.len() <= i < l2.len() && !(r == Control::Break && i == l2.len() - 1) implies (#[trigger] l2[i]).1
        == Control::Continue by {
        if i < l1.len() {
            assert(l2[i] == l1[i]);
        }
    }
}

pub proof fn lemma_passed_on_trans(
    l0: Seq<(TraverseEvent, Control)>,
    l1: Seq<(TraverseEvent, Control)>,
    l2: Seq<(TraverseEvent, Control)>,
    r: Control,
)
    requires
        passed_on(l0, l1, Control::Continue),
        passed_on(l1, l2, r),
    ensures
        passed_on(l0, l2, r),
{
    assert forall|i: int| 0 <= i < l1.len() implies l2[i] == l1[i] by {
        assert(l2.subrange(0, l1.len() as int)[i] == l2[i]);
    }
    assert forall|i: int| 0 <= i < l0.len() implies l2[i] == l0[i] by {
        assert(l1.subrange(0, l0.len() as int)[i] == l1[i]);
    }
    assert(l2.subrange(0, l0.len() as int) =~= l0);
    assert forall|i: int|
        l0.len() <= i < l2.len() && !(r == Control::Break && i == l2.len() - 1) implies (#[trigger] l2[i]).1
        == Control::Continue by {
        if i < l1.len() {
            assert(l2.subrange(0, l1.len() as int)[i] == l2[i]);
            assert(l1[i].1 == Control::Continue);
        }
    }
}

/// Tells the visitor of `evt`; the log since `l0` keeps the answers.
pub fn tell<V: Visitor>(vis: &mut V, g: &Static, evt: TraverseEvent, Ghost(l0): Ghost<Seq<(TraverseEvent, Control)>>) -> (r: Control)
    requires
        passed_on(l0, old(vis).log(), Control::Continue),
    ensures
        final(vis).log() == old(vis).log().push((evt, r)),
        passed_on(l0, final(vis).log(), r),
        told(l0, final(vis).log()) == told(l0, old(vis).log()).push(evt),
        old(vis).never_breaks() ==> r == Control::Continue && final(vis).never_breaks(),
        old(vis).steady() && r == Control::Break ==> V::may_break(g, evt),
        V::must_break(g, evt) ==> r == Control::Break,
        old(vis).steady() && r == Control::Continue ==> final(vis).steady(),
{
    let ghost l1 = vis.log();
    let r = vis.visit(g, evt);
    proof {
        lemma_passed_on_push(l0, l1, evt, r);
        lemma_told_push(l0, l1, (evt, r));
    }
    r
}

/// What a depth-first search knows of an event when it reports it: a back edge closes a
/// cycle.
pub open spec fn dfs_event_ok(g: &Static, evt: TraverseEvent) -> bool {
    match evt {
        TraverseEvent::DiscoverBackEdge(_) => has_cycle(g),
        TraverseEvent::DiscoverEdge(e) => g.has_edge(e as int),
        _ => true,
    }
}

/// A search stopped on an event to which the visitor may answer `Break`.
pub open spec fn dfs_broke<V: Visitor>(g: &Static) -> bool {
    exists|evt: TraverseEvent| V::may_break(g, evt) && #[trigger] dfs_event_ok(g, evt)
}

/// A visitor that lets the traversal run to its end.
pub struct EmptyVisitor {
    log: Ghost<Seq<(TraverseEvent, Control)>>,
}

impl EmptyVisitor {
    /// A visitor told of nothing yet.
    pub fn new() -> (v: Self)
        ensures
            v.log() == Seq::<(TraverseEvent, Control)>::empty(),
    {
        EmptyVisitor { log: Ghost(Seq::empty()) }
    }
}

impl Visitor for EmptyVisitor {
    open spec fn never_breaks(&self) -> bool {
        true
    }

    closed spec fn log(&self) -> Seq<(TraverseEvent, Control)> {
        self.log@
    }

    fn visit(&mut self, g: &Static, evt: TraverseEvent) -> (r: Control) {
        self.log = Ghost(self.log@.push((evt, Control::Continue)));
        Control::Continue
    }
}

/// The stack of a depth-first search: for each vertex being explored, the edge by which it
/// was reached, the vertex, and how many of its out-edges were looked at.
pub type DfsStack = Vec<(Option<usize>, usize, usize)>;

/// Makes the stack of a depth-first search.
pub struct NewDfsStack;

impl NewDfsStack {
    /// An empty stack.
    pub fn build(&self) -> (s: DfsStack)
        ensures
            s@ == Seq::<(Option<usize>, usize, usize)>::empty(),
    {
        Vec::new()
    }
}

/// Some edge goes from `a` to `b`.
#[verifier::opaque]
pub open spec fn adjacent(g: &Static, a: int, b: int) -> bool {
    exists|h: int| g.has_edge(h) && g.spec_source(h) == a && g.spec_target(h) == b
}

/// `s` is a walk: each vertex is adjacent to the next one.
pub open spec fn is_walk(g: &Static, s: Seq<usize>) -> bool {
    &&& s.len() > 0
    &&& forall|i: int| 0 <= i < s.len() - 1 ==> #[trigger] adjacent(g, s[i] as int, s[i + 1] as int)
}

/// Some walk goes from `u` to `v`.
pub open spec fn reachable(g: &Static, u: int, v: int) -> bool {
    exists|s: Seq<usize>| #[trigger] is_walk(g, s) && s[0] == u && s.last() == v
}

/// `es` is a cycle: a closed walk along edges of which no two are the same edge.
pub open spec fn is_cycle(g: &Static, es: Seq<usize>) -> bool {
    &&& es.len() > 0
    &&& forall|i: int| 0 <= i < es.len() ==> #[trigger] g.has_edge(es[i] as int)
    &&& forall|i: int, j: int|
        0 <= i && j == i + 1 && j < es.len() ==> g.spec_target(#[trigger] es[i] as int) == g.spec_source(
            #[trigger] es[j] as int,
        )
    &&& g.spec_target(es.last() as int) == g.spec_source(es[0] as int)
    &&& forall|i: int, j: int|
        0 <= i < j < es.len() ==> index_of(g.spec_directed(), #[trigger] es[i] as int) != index_of(
            g.spec_directed(),
            #[trigger] es[j] as int,
        )
}

/// The graph has a cycle.
pub open spec fn has_cycle(g: &Static) -> bool {
    exists|es: Seq<usize>| #[trigger] is_cycle(g, es)
}

/// The entry `above` was reached by an edge from the vertex of the entry `below`.
pub open spec fn linked(g: &Static, below: (Option<usize>, usize, usize), above: (Option<usize>, usize, usize)) -> bool {
    match above.0 {
        Some(f) => g.spec_source(f as int) == below.1,
        None => false,
    }
}

/// Each entry of the stack above the first was reached by an edge from the vertex of the
/// entry below it.
pub open spec fn stack_path(g: &Static, s: Seq<(Option<usize>, usize, usize)>) -> bool {
    forall|i: int, j: int| 0 <= i && j == i + 1 && j < s.len() ==> linked(g, #[trigger] s[i], #[trigger] s[j])
}

/// The edge by which `x` was discovered is the edge of `h`, in one direction or the other.
pub open spec fn parent_edge_is(g: &Static, pf: Seq<Option<usize>>, x: int, h: int) -> bool {
    match pf[x] {
        Some(f) => index_of(g.spec_directed(), f as int) == index_of(g.spec_directed(), h),
        None => false,
    }
}

/// `h` joins a vertex to the vertex from which it was discovered.
pub open spec fn tree_like(g: &Static, pf: Seq<Option<usize>>, h: int) -> bool {
    parent_edge_is(g, pf, g.spec_target(h) as int, h) || parent_edge_is(g, pf, g.spec_source(h) as int, h)
}

/// The discovered vertex `x`, if it was discovered by an edge, was discovered from a
/// discovered vertex one level up.
pub open spec fn discovered_ok(g: &Static, c: Seq<Color>, pf: Seq<Option<usize>>, depth: Seq<nat>, x: int) -> bool {
    match pf[x] {
        Some(f) => {
            &&& g.has_edge(f as int)
            &&& g.spec_target(f as int) == x
            &&& c[g.spec_source(f as int) as int] != Color::White
            &&& depth[x] == depth[g.spec_source(f as int) as int] + 1
        },
        None => true,
    }
}

/// The search so far has grown a forest: `pf` holds the edge by which each discovered
/// vertex was discovered, the stack agrees with it, and each edge looked at joins a vertex
/// to the vertex from which it was discovered.
pub open spec fn forest_ok(
    g: &Static,
    c: Seq<Color>,
    s: Seq<(Option<usize>, usize, usize)>,
    pf: Seq<Option<usize>>,
    depth: Seq<nat>,
) -> bool {
    &&& pf.len() == c.len()
    &&& depth.len() == c.len()
    &&& forall|x: int| 0 <= x < c.len() && c[x] != Color::White ==> #[trigger] discovered_ok(g, c, pf, depth, x)
    &&& forall|i: int| 0 <= i < s.len() ==> pf[(#[trigger] s[i]).1 as int] == s[i].0
    &&& forall|x: int, j: int|
        0 <= x < c.len() && c[x] == Color::Black && 0 <= j < g.spec_out_edges(x).len() ==> tree_like(
            g,
            pf,
            #[trigger] g.spec_out_edges(x)[j] as int,
        )
    &&& forall|i: int, j: int|
        0 <= i < s.len() && 0 <= j < s[i].2 ==> tree_like(g, pf, #[trigger] g.spec_out_edges((#[trigger] s[i]).1 as int)[j] as int)
}

/// Some record of discoveries shows that the search so far has grown a forest.
pub open spec fn forest_grown(g: &Static, c: Seq<Color>, s: Seq<(Option<usize>, usize, usize)>) -> bool {
    exists|pf: Seq<Option<usize>>, depth: Seq<nat>| #[trigger] forest_ok(g, c, s, pf, depth)
}

/// The visitor answers `Break` to every back edge.
pub open spec fn breaks_on_back_edges<V: Visitor>(g: &Static) -> bool {
    forall|e: usize| #[trigger] V::must_break(g, TraverseEvent::DiscoverBackEdge(e))
}

/// Before any search, nothing was discovered.
pub proof fn lemma_forest_init(g: &Static, c: Seq<Color>)
    requires
        forall|x: int| 0 <= x < c.len() ==> #[trigger] c[x] == Color::White,
    ensures
        forest_ok(
            g,
            c,
            Seq::<(Option<usize>, usize, usize)>::empty(),
            Seq::new(c.len(), |x: int| None::<usize>),
            Seq::new(c.len(), |x: int| 0nat),
        ),
        forest_grown(g, c, Seq::<(Option<usize>, usize, usize)>::empty()),
{
    let pf0 = Seq::new(c.len(), |x: int| None::<usize>);
    let d0 = Seq::new(c.len(), |x: int| 0nat);
    assert(forest_ok(g, c, Seq::<(Option<usize>, usize, usize)>::empty(), pf0, d0));
}

/// A new root is discovered by no edge, at level zero.
pub proof fn lemma_forest_root(
    g: &Static,
    c1: Seq<Color>,
    c2: Seq<Color>,
    pf: Seq<Option<usize>>,
    depth: Seq<nat>,
    v: usize,
)
    requires
        g.wf(),
        c1.len() == g.spec_num_vertices(),
        forest_ok(g, c1, Seq::<(Option<usize>, usize, usize)>::empty(), pf, depth),
        closed_black(g, c1),
        v < c1.len(),
        c1[v as int] == Color::White,
        c2 == c1.update(v as int, Color::Gray),
    ensures
        forest_ok(g, c2, seq![(None::<usize>, v, 0usize)], pf.update(v as int, None), depth.update(v as int, 0)),
{
    let pf2 = pf.update(v as int, None);
    let d2 = depth.update(v as int, 0);
    let st = seq![(None::<usize>, v, 0usize)];
    assert forall|x: int| 0 <= x < c2.len() && c2[x] != Color::White implies #[trigger] discovered_ok(g, c2, pf2, d2, x) by {
        if x != v {
            assert(discovered_ok(g, c1, pf, depth, x));
            if pf[x] is Some {
                let f = pf[x]->0 as int;
                g.lemma_target_range(f);
                assert(c1[g.spec_source(f) as int] != Color::White);
                assert(g.spec_source(f) != v);
            }
        }
    }
    assert forall|i: int| 0 <= i < st.len() implies pf2[(#[trigger] st[i]).1 as int] == st[i].0 by {
    }
    assert forall|x: int, j: int|
        0 <= x < c2.len() && c2[x] == Color::Black && 0 <= j < g.spec_out_edges(x).len() implies tree_like(
        g,
        pf2,
        #[trigger] g.spec_out_edges(x)[j] as int,
    ) by {
        g.lemma_out_targets(x);
        assert(tree_like(g, pf, g.spec_out_edges(x)[j] as int));
        assert(c1[g.spec_target(g.spec_out_edges(x)[j] as int) as int] != Color::White);
    }
}

/// Looking at an edge that the search passes over keeps the forest: it is the edge of the
/// top's discovery, or the reverse of an edge of a finished vertex.
pub proof fn lemma_forest_skip(
    g: &Static,
    c: Seq<Color>,
    st: Seq<(Option<usize>, usize, usize)>,
    pf: Seq<Option<usize>>,
    depth: Seq<nat>,
    from: Option<usize>,
    u: usize,
    k: usize,
    e: usize,
    v: usize,
)
    requires
        g.wf(),
        c.len() == g.spec_num_vertices(),
        stack_ok(g, c, st.push((from, u, (k - 1) as usize))),
        forest_ok(g, c, st.push((from, u, (k - 1) as usize)), pf, depth),
        1 <= k <= g.spec_out_edges(u as int).len(),
        e == g.spec_out_edges(u as int)[k - 1],
        g.has_edge(e as int),
        g.spec_source(e as int) == u,
        v == g.spec_target(e as int),
        (!g.spec_directed() && c[v as int] == Color::Black) || (from is Some && index_of(g.spec_directed(), from->0 as int)
            == index_of(g.spec_directed(), e as int)),
    ensures
        forest_ok(g, c, st.push((from, u, k)), pf, depth),
{
    let s0 = st.push((from, u, (k - 1) as usize));
    let s1 = st.push((from, u, k));
    assert(entry_ok(g, c, s0[st.len() as int]));
    assert(pf[s0[st.len() as int].1 as int] == s0[st.len() as int].0);
    assert(tree_like(g, pf, e as int)) by {
        if !(from is Some && index_of(g.spec_directed(), from->0 as int) == index_of(g.spec_directed(), e as int)) {
            g.lemma_target_range(e as int);
            lemma_reverse_handle(g, e as int);
            let r = reverse_handle(e as int);
            g.lemma_out_edges(v as int, r);
            let j = choose|j: int| 0 <= j < g.spec_out_edges(v as int).len() && g.spec_out_edges(v as int)[j] == r as usize;
            assert(tree_like(g, pf, g.spec_out_edges(v as int)[j] as int));
        }
    }
    assert forall|i: int| 0 <= i < s1.len() implies pf[(#[trigger] s1[i]).1 as int] == s1[i].0 by {
        assert(pf[s0[i].1 as int] == s0[i].0);
    }
    assert forall|i: int, j: int|
        0 <= i < s1.len() && 0 <= j < s1[i].2 implies tree_like(g, pf, #[trigger] g.spec_out_edges((#[trigger] s1[i]).1 as int)[j] as int) by {
        if i < st.len() || j < k - 1 {
            assert(s0[i].1 == s1[i].1);
            assert(tree_like(g, pf, g.spec_out_edges(s0[i].1 as int)[j] as int));
        }
    }
}

/// Discovering `v` by the edge `e` from the top `u` adds `e` to the forest, one level below
/// `u`.
pub proof fn lemma_forest_discover(
    g: &Static,
    c1: Seq<Color>,
    c2: Seq<Color>,
    st: Seq<(Option<usize>, usize, usize)>,
    pf: Seq<Option<usize>>,
    depth: Seq<nat>,
    from: Option<usize>,
    u: usize,
    k: usize,
    e: usize,
    v: usize,
)
    requires
        g.wf(),
        c1.len() == g.spec_num_vertices(),
        stack_ok(g, c1, st.push((from, u, (k - 1) as usize))),
        forest_ok(g, c1, st.push((from, u, (k - 1) as usize)), pf, depth),
        closed_black(g, c1),
        1 <= k <= g.spec_out_edges(u as int).len(),
        e == g.spec_out_edges(u as int)[k - 1],
        g.has_edge(e as int),
        g.spec_source(e as int) == u,
        v == g.spec_target(e as int),
        v < c1.len(),
        c1[v as int] == Color::White,
        c2 == c1.update(v as int, Color::Gray),
    ensures
        forest_ok(
            g,
            c2,
            st.push((from, u, k)).push((Some(e), v, 0)),
            pf.update(v as int, Some(e)),
            depth.update(v as int, depth[u as int] + 1),
        ),
{
    let s0 = st.push((from, u, (k - 1) as usize));
    let s2 = st.push((from, u, k)).push((Some(e), v, 0));
    let pf2 = pf.update(v as int, Some(e));
    let d2 = depth.update(v as int, depth[u as int] + 1);
    assert(entry_ok(g, c1, s0[st.len() as int]));
    assert(c1[u as int] == Color::Gray);
    g.lemma_out_targets(u as int);
    assert forall|x: int| 0 <= x < c2.len() && c2[x] != Color::White implies #[trigger] discovered_ok(g, c2, pf2, d2, x) by {
        if x != v {
            assert(discovered_ok(g, c1, pf, depth, x));
            if pf[x] is Some {
                let f = pf[x]->0 as int;
                g.lemma_target_range(f);
                assert(c1[g.spec_source(f) as int] != Color::White);
                assert(g.spec_source(f) != v);
            }
        } else {
            g.lemma_target_range(e as int);
            assert(u != v);
        }
    }
    assert forall|i: int| 0 <= i < s2.len() implies pf2[(#[trigger] s2[i]).1 as int] == s2[i].0 by {
        if i < st.len() {
            assert(s2[i] == s0[i]);
            assert(pf[s0[i].1 as int] == s0[i].0);
            assert(entry_ok(g, c1, s0[i]));
        } else if i == st.len() {
            assert(pf[s0[i].1 as int] == s0[i].0);
        }
    }
    assert forall|x: int, j: int|
        0 <= x < c2.len() && c2[x] == Color::Black && 0 <= j < g.spec_out_edges(x).len() implies tree_like(
        g,
        pf2,
        #[trigger] g.spec_out_edges(x)[j] as int,
    ) by {
        g.lemma_out_targets(x);
        assert(tree_like(g, pf, g.spec_out_edges(x)[j] as int));
        assert(c1[g.spec_target(g.spec_out_edges(x)[j] as int) as int] != Color::White);
    }
    assert forall|i: int, j: int|
        0 <= i < s2.len() && 0 <= j < s2[i].2 implies tree_like(g, pf2, #[trigger] g.spec_out_edges((#[trigger] s2[i]).1 as int)[j] as int) by {
        if i < st.len() || (i == st.len() && j < k - 1) {
            assert(s0[i].1 == s2[i].1);
            assert(entry_ok(g, c1, s0[i]));
            let y = s0[i].1 as int;
            g.lemma_out_targets(y);
            assert(tree_like(g, pf, g.spec_out_edges(y)[j] as int));
            assert(c1[g.spec_target(g.spec_out_edges(y)[j] as int) as int] != Color::White);
        } else if i == st.len() {
            assert(j == k - 1);
            assert(parent_edge_is(g, pf2, v as int, e as int));
        }
    }
}

/// Finishing the top keeps the forest: all of its edges were looked at.
pub proof fn lemma_forest_finish(
    g: &Static,
    c2: Seq<Color>,
    c3: Seq<Color>,
    st: Seq<(Option<usize>, usize, usize)>,
    pf: Seq<Option<usize>>,
    depth: Seq<nat>,
    from: Option<usize>,
    u: usize,
    k: usize,
)
    requires
        g.wf(),
        c2.len() == g.spec_num_vertices(),
        stack_ok(g, c2, st.push((from, u, k))),
        forest_ok(g, c2, st.push((from, u, k)), pf, depth),
        k == g.spec_out_edges(u as int).len(),
        c3 == c2.update(u as int, Color::Black),
    ensures
        forest_ok(g, c3, st, pf, depth),
{
    let s0 = st.push((from, u, k));
    assert(entry_ok(g, c2, s0[st.len() as int]));
    assert forall|x: int| 0 <= x < c3.len() && c3[x] != Color::White implies #[trigger] discovered_ok(g, c3, pf, depth, x) by {
        assert(discovered_ok(g, c2, pf, depth, x));
        if pf[x] is Some {
            let f = pf[x]->0 as int;
            g.lemma_target_range(f);
        }
    }
    assert forall|i: int| 0 <= i < st.len() implies pf[(#[trigger] st[i]).1 as int] == st[i].0 by {
        assert(pf[s0[i].1 as int] == s0[i].0);
    }
    assert forall|x: int, j: int|
        0 <= x < c3.len() && c3[x] == Color::Black && 0 <= j < g.spec_out_edges(x).len() implies tree_like(
        g,
        pf,
        #[trigger] g.spec_out_edges(x)[j] as int,
    ) by {
        if x == u {
            assert(s0[st.len() as int].1 == u);
            assert(tree_like(g, pf, g.spec_out_edges(s0[st.len() as int].1 as int)[j] as int));
        }
    }
    assert forall|i: int, j: int|
        0 <= i < st.len() && 0 <= j < st[i].2 implies tree_like(g, pf, #[trigger] g.spec_out_edges((#[trigger] st[i]).1 as int)[j] as int) by {
        assert(s0[i] == st[i]);
    }
}

/// When the search has finished every vertex growing a forest, each edge joins a vertex to
/// the one from which it was discovered, and the graph has no cycle.
pub proof fn lemma_forest_done(g: &Static, c: Seq<Color>, pf: Seq<Option<usize>>, depth: Seq<nat>)
    requires
        g.wf(),
        !g.spec_directed(),
        c.len() == g.spec_num_vertices(),
        forall|x: int| 0 <= x < c.len() ==> #[trigger] c[x] == Color::Black,
        forest_ok(g, c, Seq::<(Option<usize>, usize, usize)>::empty(), pf, depth),
    ensures
        !has_cycle(g),
{
    assert forall|h: int| #[trigger] g.has_edge(h) implies tree_like(g, pf, h) by {
        g.lemma_target_range(h);
        let x = g.spec_source(h) as int;
        g.lemma_out_edges(x, h);
        let j = choose|j: int| 0 <= j < g.spec_out_edges(x).len() && g.spec_out_edges(x)[j] == h as usize;
        assert(c[x] == Color::Black);
        assert(tree_like(g, pf, g.spec_out_edges(x)[j] as int));
    }
    assert forall|x: int| 0 <= x < c.len() implies #[trigger] c[x] != Color::White by {
        assert(c[x] == Color::Black);
    }
    lemma_forest_no_cycle(g, c, pf, depth);
}

/// The `j`-th out-edge of the vertex of entry `i` enters a vertex finished before `clock`,
/// or it is the last edge looked at and enters the vertex of the entry above.
pub open spec fn looked_ok(
    g: &Static,
    c: Seq<Color>,
    s: Seq<(Option<usize>, usize, usize)>,
    fin: Seq<nat>,
    clock: nat,
    i: int,
    j: int,
) -> bool {
    let t = g.spec_target(g.spec_out_edges(s[i].1 as int)[j] as int) as int;
    (c[t] == Color::Black && fin[t] < clock) || (j == s[i].2 - 1 && i + 1 < s.len() && s[i + 1].1 == t)
}

/// The search so far finished vertices in an order that every edge looked at goes down:
/// `fin` holds the time at which each black vertex was finished, all before `clock`, and an
/// edge leaving a black vertex enters a vertex finished earlier.
pub open spec fn order_ok(
    g: &Static,
    c: Seq<Color>,
    s: Seq<(Option<usize>, usize, usize)>,
    fin: Seq<nat>,
    clock: nat,
) -> bool {
    &&& fin.len() == c.len()
    &&& s.len() > 0 ==> s[0].0 is None
    &&& forall|x: int| 0 <= x < c.len() && #[trigger] c[x] == Color::Black ==> fin[x] < clock
    &&& forall|x: int, j: int|
        0 <= x < c.len() && c[x] == Color::Black && 0 <= j < g.spec_out_edges(x).len() ==> {
            let t = g.spec_target(#[trigger] g.spec_out_edges(x)[j] as int) as int;
            c[t] == Color::Black && fin[t] < fin[x]
        }
    &&& forall|i: int, j: int|
        0 <= i < s.len() && 0 <= j < s[i].2 ==> #[trigger] looked_ok(g, c, s, fin, clock, i, j)
}

/// Some record of finishing times shows that every edge looked at goes down.
pub open spec fn order_grown(g: &Static, c: Seq<Color>, s: Seq<(Option<usize>, usize, usize)>) -> bool {
    exists|fin: Seq<nat>, clock: nat| #[trigger] order_ok(g, c, s, fin, clock)
}

pub proof fn lemma_order_init(g: &Static, c: Seq<Color>)
    requires
        forall|x: int| 0 <= x < c.len() ==> #[trigger] c[x] == Color::White,
    ensures
        order_grown(g, c, Seq::<(Option<usize>, usize, usize)>::empty()),
{
    let fin = Seq::new(c.len(), |x: int| 0nat);
    assert(order_ok(g, c, Seq::<(Option<usize>, usize, usize)>::empty(), fin, 0));
}

pub proof fn lemma_order_root(g: &Static, c1: Seq<Color>, c2: Seq<Color>, fin: Seq<nat>, clock: nat, v: usize)
    requires
        g.wf(),
        c1.len() == g.spec_num_vertices(),
        order_ok(g, c1, Seq::<(Option<usize>, usize, usize)>::empty(), fin, clock),
        v < c1.len(),
        c1[v as int] == Color::White,
        c2 == c1.update(v as int, Color::Gray),
    ensures
        order_ok(g, c2, seq![(None::<usize>, v, 0usize)], fin, clock),
{
    assert forall|x: int, j: int|
        0 <= x < c2.len() && c2[x] == Color::Black && 0 <= j < g.spec_out_edges(x).len() implies {
        let t = g.spec_target(#[trigger] g.spec_out_edges(x)[j] as int) as int;
        c2[t] == Color::Black && fin[t] < fin[x]
    } by {
        g.lemma_out_targets(x);
        assert(c1[x] == Color::Black);
    }
    assert forall|x: int| 0 <= x < c2.len() && #[trigger] c2[x] == Color::Black implies fin[x] < clock by {
        assert(c1[x] == Color::Black);
    }
}

/// Discovering `v` from the top `u` keeps the order: the edge enters the entry above.
pub proof fn lemma_order_discover(
    g: &Static,
    c1: Seq<Color>,
    c2: Seq<Color>,
    st: Seq<(Option<usize>, usize, usize)>,
    fin: Seq<nat>,
    clock: nat,
    from: Option<usize>,
    u: usize,
    k: usize,
    e: usize,
    v: usize,
)
    requires
        g.wf(),
        c1.len() == g.spec_num_vertices(),
        stack_ok(g, c1, st.push((from, u, (k - 1) as usize))),
        order_ok(g, c1, st.push((from, u, (k - 1) as usize)), fin, clock),
        closed_black(g, c1),
        1 <= k <= g.spec_out_edges(u as int).len(),
        e == g.spec_out_edges(u as int)[k - 1],
        v == g.spec_target(e as int),
        v < c1.len(),
        c1[v as int] == Color::White,
        c2 == c1.update(v as int, Color::Gray),
    ensures
        order_ok(g, c2, st.push((from, u, k)).push((Some(e), v, 0)), fin, clock),
{
    let s0 = st.push((from, u, (k - 1) as usize));
    let s2 = st.push((from, u, k)).push((Some(e), v, 0));
    assert(entry_ok(g, c1, s0[st.len() as int]));
    assert forall|x: int, j: int|
        0 <= x < c2.len() && c2[x] == Color::Black && 0 <= j < g.spec_out_edges(x).len() implies {
        let t = g.spec_target(#[trigger] g.spec_out_edges(x)[j] as int) as int;
        c2[t] == Color::Black && fin[t] < fin[x]
    } by {
        g.lemma_out_targets(x);
        assert(c1[x] == Color::Black);
    }
    assert forall|x: int| 0 <= x < c2.len() && #[trigger] c2[x] == Color::Black implies fin[x] < clock by {
        assert(c1[x] == Color::Black);
    }
    assert forall|i: int, j: int| 0 <= i < s2.len() && 0 <= j < s2[i].2 implies #[trigger] looked_ok(g, c2, s2, fin, clock, i, j) by {
        assert(s2[i].1 == s0[i].1);
        let y = s0[i].1 as int;
        assert(entry_ok(g, c1, s0[i]));
        g.lemma_out_targets(y);
        if i < st.len() || j < k - 1 {
            assert(looked_ok(g, c1, s0, fin, clock, i, j));
            assert(c1[g.spec_target(g.spec_out_edges(y)[j] as int) as int] != Color::White);
            if i + 1 < s0.len() {
                assert(s2[i + 1].1 == s0[i + 1].1);
            }
        } else {
            assert(s2[i + 1].1 == v);
        }
    }
}

/// Looking at an edge into a finished vertex keeps the order.
pub proof fn lemma_order_seen(
    g: &Static,
    c: Seq<Color>,
    st: Seq<(Option<usize>, usize, usize)>,
    fin: Seq<nat>,
    clock: nat,
    from: Option<usize>,
    u: usize,
    k: usize,
    e: usize,
    v: usize,
)
    requires
        g.wf(),
        c.len() == g.spec_num_vertices(),
        order_ok(g, c, st.push((from, u, (k - 1) as usize)), fin, clock),
        1 <= k <= g.spec_out_edges(u as int).len(),
        e == g.spec_out_edges(u as int)[k - 1],
        v == g.spec_target(e as int),
        v < c.len(),
        c[v as int] == Color::Black,
    ensures
        order_ok(g, c, st.push((from, u, k)), fin, clock),
{
    let s0 = st.push((from, u, (k - 1) as usize));
    let s1 = st.push((from, u, k));
    assert forall|i: int, j: int| 0 <= i < s1.len() && 0 <= j < s1[i].2 implies #[trigger] looked_ok(g, c, s1, fin, clock, i, j) by {
        assert(s1[i].1 == s0[i].1);
        if i < st.len() || j < k - 1 {
            assert(looked_ok(g, c, s0, fin, clock, i, j));
            if i + 1 < s0.len() {
                assert(s1[i + 1].1 == s0[i + 1].1);
            }
        }
    }
}

/// In a directed graph the search passes over no edge.
pub proof fn lemma_order_no_skip(
    g: &Static,
    c: Seq<Color>,
    st: Seq<(Option<usize>, usize, usize)>,
    fin: Seq<nat>,
    clock: nat,
    from: Option<usize>,
    u: usize,
    k: usize,
    e: usize,
)
    requires
        g.wf(),
        g.spec_directed(),
        c.len() == g.spec_num_vertices(),
        stack_ok(g, c, st.push((from, u, (k - 1) as usize))),
        stack_path(g, st.push((from, u, (k - 1) as usize))),
        order_ok(g, c, st.push((from, u, (k - 1) as usize)), fin, clock),
        g.spec_source(e as int) == u,
    ensures
        !(from is Some && index_of(g.spec_directed(), from->0 as int) == index_of(g.spec_directed(), e as int)),
{
    let s0 = st.push((from, u, (k - 1) as usize));
    let top = st.len() as int;
    if from is Some {
        if top == 0 {
            assert(s0[0].0 is None);
        } else {
            assert(linked(g, s0[top - 1], s0[top]));
            assert(s0[top - 1].1 != s0[top].1);
        }
    }
}

/// Finishing the top stamps it with the clock, after every vertex its edges enter.
pub proof fn lemma_order_finish(
    g: &Static,
    c2: Seq<Color>,
    c3: Seq<Color>,
    st: Seq<(Option<usize>, usize, usize)>,
    fin: Seq<nat>,
    clock: nat,
    from: Option<usize>,
    u: usize,
    k: usize,
)
    requires
        g.wf(),
        c2.len() == g.spec_num_vertices(),
        stack_ok(g, c2, st.push((from, u, k))),
        order_ok(g, c2, st.push((from, u, k)), fin, clock),
        k == g.spec_out_edges(u as int).len(),
        c3 == c2.update(u as int, Color::Black),
    ensures
        order_ok(g, c3, st, fin.update(u as int, clock), clock + 1),
{
    let s0 = st.push((from, u, k));
    let fin3 = fin.update(u as int, clock);
    let top = st.len() as int;
    assert(entry_ok(g, c2, s0[top]));
    assert(c2[u as int] == Color::Gray);
    g.lemma_out_targets(u as int);
    assert forall|x: int| 0 <= x < c3.len() && #[trigger] c3[x] == Color::Black implies fin3[x] < clock + 1 by {
        if x != u {
            assert(c2[x] == Color::Black);
        }
    }
    assert forall|x: int, j: int|
        0 <= x < c3.len() && c3[x] == Color::Black && 0 <= j < g.spec_out_edges(x).len() implies {
        let t = g.spec_target(#[trigger] g.spec_out_edges(x)[j] as int) as int;
        c3[t] == Color::Black && fin3[t] < fin3[x]
    } by {
        g.lemma_out_targets(x);
        let t = g.spec_target(g.spec_out_edges(x)[j] as int) as int;
        if x == u {
            assert(s0[top].1 == u);
            assert(looked_ok(g, c2, s0, fin, clock, top, j));
            assert(c2[t] == Color::Black);
        } else {
            assert(c2[x] == Color::Black);
            assert(c2[t] == Color::Black);
        }
    }
    assert forall|i: int, j: int| 0 <= i < st.len() && 0 <= j < st[i].2 implies #[trigger] looked_ok(g, c3, st, fin3, clock + 1, i, j) by {
        assert(st[i] == s0[i]);
        assert(looked_ok(g, c2, s0, fin, clock, i, j));
        let y = st[i].1 as int;
        assert(entry_ok(g, c2, s0[i]));
        g.lemma_out_targets(y);
        let t = g.spec_target(g.spec_out_edges(y)[j] as int) as int;
        if c2[t] == Color::Black {
            assert(t != u);
        } else if i + 1 < st.len() {
            assert(st[i + 1] == s0[i + 1]);
        } else {
            assert(s0[i + 1].1 == u);
        }
    }
}

/// Along a walk of edges that each go down in `fin`, the finishing times fall by at least
/// one at each step.
proof fn lemma_order_walk(g: &Static, es: Seq<usize>, fin: Seq<nat>, i: int)
    requires
        is_cycle(g, es),
        forall|h: int| #[trigger] g.has_edge(h) ==> fin[g.spec_target(h) as int] < fin[g.spec_source(h) as int],
        0 <= i < es.len(),
    ensures
        fin[g.spec_target(es[i] as int) as int] + i < fin[g.spec_source(es[0] as int) as int],
    decreases i,
{
    assert(g.has_edge(es[i] as int));
    if i > 0 {
        lemma_order_walk(g, es, fin, i - 1);
        assert(es[i - 1] == es[i - 1] && es[i] == es[i]);
    }
}

/// When every edge goes down in `fin`, the graph has no cycle.
pub proof fn lemma_order_no_cycle(g: &Static, fin: Seq<nat>)
    requires
        forall|h: int| #[trigger] g.has_edge(h) ==> fin[g.spec_target(h) as int] < fin[g.spec_source(h) as int],
    ensures
        !has_cycle(g),
{
    if has_cycle(g) {
        let es = choose|es: Seq<usize>| #[trigger] is_cycle(g, es);
        lemma_order_walk(g, es, fin, es.len() - 1);
    }
}

/// When the search has finished every vertex with every edge going down, the graph has no
/// cycle.
pub proof fn lemma_order_done(g: &Static, c: Seq<Color>, fin: Seq<nat>, clock: nat)
    requires
        g.wf(),
        c.len() == g.spec_num_vertices(),
        forall|x: int| 0 <= x < c.len() ==> #[trigger] c[x] == Color::Black,
        order_ok(g, c, Seq::<(Option<usize>, usize, usize)>::empty(), fin, clock),
    ensures
        !has_cycle(g),
{
    assert forall|h: int| #[trigger] g.has_edge(h) implies fin[g.spec_target(h) as int] < fin[g.spec_source(h) as int] by {
        g.lemma_target_range(h);
        let x = g.spec_source(h) as int;
        g.lemma_out_edges(x, h);
        let j = choose|j: int| 0 <= j < g.spec_out_edges(x).len() && g.spec_out_edges(x)[j] == h as usize;
        assert(c[x] == Color::Black);
        assert(g.spec_target(g.spec_out_edges(x)[j] as int) == g.spec_target(h));
    }
    lemma_order_no_cycle(g, fin);
}

/// The visitor answers `Break` to every edge discovered.
pub open spec fn breaks_on_edges<V: Visitor>(g: &Static) -> bool {
    forall|e: usize| #[trigger] V::must_break(g, TraverseEvent::DiscoverEdge(e))
}

/// No edge was looked at yet: the black vertices have no out-edges, and the stack holds
/// roots that have looked at none.
pub open spec fn nothing_looked_at(g: &Static, c: Seq<Color>, s: Seq<(Option<usize>, usize, usize)>) -> bool {
    &&& forall|x: int| 0 <= x < c.len() && #[trigger] c[x] == Color::Black ==> g.spec_out_edges(x).len() == 0
    &&& forall|i: int| 0 <= i < s.len() ==> (#[trigger] s[i]).2 == 0 && s[i].0 is None
}

/// In an undirected graph the target of an edge has an out-edge: its reverse.
pub proof fn lemma_target_has_out_edge(g: &Static, e: int)
    requires
        g.wf(),
        !g.spec_directed(),
        g.has_edge(e),
    ensures
        g.spec_out_edges(g.spec_target(e) as int).len() > 0,
{
    g.lemma_target_range(e);
    lemma_reverse_handle(g, e);
    g.lemma_out_edges(g.spec_target(e) as int, reverse_handle(e));
}

/// A graph whose vertices have no out-edges has no edges.
pub proof fn lemma_no_out_edges(g: &Static)
    requires
        g.wf(),
        forall|x: int| 0 <= x < g.spec_num_vertices() ==> #[trigger] g.spec_out_edges(x).len() == 0,
    ensures
        g.spec_num_edges() == 0,
{
    if g.spec_num_edges() > 0 {
        assert(g.has_edge(0));
        g.lemma_target_range(0);
        g.lemma_out_edges(g.spec_source(0) as int, 0);
        assert(g.spec_out_edges(g.spec_source(0) as int).len() == 0);
    }
}

/// In an undirected graph each handle has a reverse, of the same edge.
pub open spec fn reverse_handle(h: int) -> int {
    if h % 2 == 0 {
        h + 1
    } else {
        h - 1
    }
}

pub proof fn lemma_reverse_handle(g: &Static, h: int)
    requires
        g.wf(),
        !g.spec_directed(),
        g.has_edge(h),
    ensures
        g.has_edge(reverse_handle(h)),
        g.spec_source(reverse_handle(h)) == g.spec_target(h),
        g.spec_target(reverse_handle(h)) == g.spec_source(h),
        index_of(g.spec_directed(), reverse_handle(h)) == index_of(g.spec_directed(), h),
{
}

/// The index of the deepest source among the first `k` edges of `es`.
pub open spec fn deepest(g: &Static, es: Seq<usize>, depth: Seq<nat>, k: nat) -> int
    decreases k,
{
    if k <= 1 {
        0
    } else {
        let m = deepest(g, es, depth, (k - 1) as nat);
        if depth[g.spec_source(es[k - 1] as int) as int] > depth[g.spec_source(es[m] as int) as int] {
            k - 1
        } else {
            m
        }
    }
}

pub proof fn lemma_deepest(g: &Static, es: Seq<usize>, depth: Seq<nat>, k: nat)
    requires
        1 <= k <= es.len(),
    ensures
        0 <= deepest(g, es, depth, k) < k,
        forall|i: int| 0 <= i < k ==> depth[g.spec_source(#[trigger] es[i] as int) as int] <= depth[g.spec_source(
            es[deepest(g, es, depth, k)] as int,
        ) as int],
    decreases k,
{
    if k > 1 {
        lemma_deepest(g, es, depth, (k - 1) as nat);
    }
}

/// An edge between `x` and a vertex no deeper than `x` is the edge by which `x` was
/// discovered.
proof fn lemma_edge_at(g: &Static, c: Seq<Color>, pf: Seq<Option<usize>>, depth: Seq<nat>, x: int, h: int, z: int)
    requires
        g.wf(),
        c.len() == g.spec_num_vertices(),
        depth.len() == c.len(),
        forall|v: int| 0 <= v < c.len() ==> #[trigger] c[v] != Color::White,
        forall|v: int| 0 <= v < c.len() && c[v] != Color::White ==> #[trigger] discovered_ok(g, c, pf, depth, v),
        forall|e: int| #[trigger] g.has_edge(e) ==> tree_like(g, pf, e),
        g.has_edge(h),
        (g.spec_source(h) == x && g.spec_target(h) == z) || (g.spec_target(h) == x && g.spec_source(h) == z),
        0 <= x < c.len(),
        0 <= z < c.len(),
        depth[z] <= depth[x],
    ensures
        parent_edge_is(g, pf, x, h),
{
    assert(tree_like(g, pf, h));
    if !parent_edge_is(g, pf, x, h) {
        assert(parent_edge_is(g, pf, z, h));
        assert(c[z] != Color::White);
        assert(discovered_ok(g, c, pf, depth, z));
        let f = pf[z]->0 as int;
        g.lemma_same_index(f, h);
        assert(g.spec_target(f) == z);
        assert(c[x] != Color::White);
        if z == x {
            assert(depth[z] == depth[g.spec_source(f) as int] + 1);
        } else {
            assert(g.spec_source(f) == x);
        }
    }
}

/// In an undirected graph, when every vertex was discovered from one a level up and every
/// edge joins a vertex to the one from which it was discovered, there is no cycle: at the
/// deepest vertex of a cycle both of its edges would be the edge of its discovery.
pub proof fn lemma_forest_no_cycle(g: &Static, c: Seq<Color>, pf: Seq<Option<usize>>, depth: Seq<nat>)
    requires
        g.wf(),
        !g.spec_directed(),
        c.len() == g.spec_num_vertices(),
        pf.len() == c.len(),
        depth.len() == c.len(),
        forall|x: int| 0 <= x < c.len() ==> #[trigger] c[x] != Color::White,
        forall|x: int| 0 <= x < c.len() && c[x] != Color::White ==> #[trigger] discovered_ok(g, c, pf, depth, x),
        forall|h: int| #[trigger] g.has_edge(h) ==> tree_like(g, pf, h),
    ensures
        !has_cycle(g),
{
    if has_cycle(g) {
        let es = choose|es: Seq<usize>| #[trigger] is_cycle(g, es);
        let n = es.len();
        lemma_deepest(g, es, depth, n);
        let i0 = deepest(g, es, depth, n);
        let x = g.spec_source(es[i0] as int) as int;
        let out = es[i0] as int;
        let ip = if i0 == 0 { n - 1 } else { i0 - 1 };
        let inc = es[ip] as int;
        assert(g.has_edge(out));
        assert(g.has_edge(inc));
        g.lemma_target_range(out);
        g.lemma_target_range(inc);
        // the other ends of the two edges are vertices of the cycle, no deeper than x
        let y = g.spec_target(out) as int;
        let w = g.spec_source(inc) as int;
        assert(g.spec_target(inc) == x) by {
            if i0 > 0 {
                assert(es[i0 - 1] == es[i0 - 1] && es[i0] == es[i0]);
            }
        }
        assert(depth[y] <= depth[x]) by {
            if i0 + 1 < n {
                assert(es[i0] == es[i0] && es[i0 + 1] == es[i0 + 1]);
                assert(depth[g.spec_source(es[i0 + 1] as int) as int] <= depth[x]);
            } else {
                assert(depth[g.spec_source(es[0] as int) as int] <= depth[x]);
            }
        }
        assert(depth[w] <= depth[x]);
        // each edge at x is the edge by which x was discovered
        lemma_edge_at(g, c, pf, depth, x, out, y);
        lemma_edge_at(g, c, pf, depth, x, inc, w);
        assert(parent_edge_is(g, pf, x, out));
        assert(parent_edge_is(g, pf, x, inc));
        if n == 1 {
            assert(inc == out);
            assert(discovered_ok(g, c, pf, depth, x));
            let f = pf[x]->0 as int;
            g.lemma_same_index(f, out);
        } else {
            assert(index_of(g.spec_directed(), inc) == index_of(g.spec_directed(), out));
            if ip < i0 {
                assert(index_of(g.spec_directed(), es[ip] as int) != index_of(g.spec_directed(), es[i0] as int));
            } else {
                assert(index_of(g.spec_directed(), es[i0] as int) != index_of(g.spec_directed(), es[ip] as int));
            }
        }
    }
}

/// The number of white vertices.
pub open spec fn num_white(c: Seq<Color>) -> nat
    decreases c.len(),
{
    if c.len() == 0 {
        0
    } else {
        num_white(c.drop_last()) + if c.last() == Color::White {
            1nat
        } else {
            0nat
        }
    }
}

/// The order of the colors.
pub open spec fn rank(c: Color) -> int {
    match c {
        Color::White => 0,
        Color::Gray => 1,
        Color::Black => 2,
    }
}

pub proof fn lemma_num_white_update(c: Seq<Color>, i: int, x: Color)
    requires
        0 <= i < c.len(),
    ensures
        num_white(c.update(i, x)) == num_white(c) - (if c[i] == Color::White { 1int } else { 0int }) + (if x
            == Color::White {
            1int
        } else {
            0int
        }),
    decreases c.len(),
{
    let d = c.update(i, x);
    if i == c.len() - 1 {
        assert(d.drop_last() =~= c.drop_last());
    } else {
        assert(d.drop_last() =~= c.drop_last().update(i, x));
        lemma_num_white_update(c.drop_last(), i, x);
    }
}

/// Every black vertex has no white out-neighbor.
pub open spec fn closed_black(g: &Static, c: Seq<Color>) -> bool {
    forall|u: int, j: int|
        0 <= u < c.len() && c[u] == Color::Black && 0 <= j < g.spec_out_edges(u).len() ==> c[g.spec_target(
            #[trigger] g.spec_out_edges(u)[j] as int,
        ) as int] != Color::White
}

/// `v` is on the stack.
#[verifier::opaque]
pub open spec fn on_stack(s: Seq<(Option<usize>, usize, usize)>, v: int) -> bool {
    exists|i: int| 0 <= i < s.len() && s[i].1 == v
}

/// The stack of a search is consistent with the colors.
pub open spec fn stack_ok(g: &Static, c: Seq<Color>, s: Seq<(Option<usize>, usize, usize)>) -> bool {
    &&& forall|i: int| 0 <= i < s.len() ==> #[trigger] entry_ok(g, c, s[i])
    &&& forall|i: int, j: int| 0 <= i < j < s.len() ==> #[trigger] s[i].1 != #[trigger] s[j].1
    &&& forall|v: int| 0 <= v < c.len() && c[v] == Color::Gray ==> #[trigger] on_stack(s, v)
}

/// One entry of the stack: a gray vertex whose first `k` out-edges enter non-white vertices,
/// reached by an edge that leaves a non-white vertex.
pub open spec fn entry_ok(g: &Static, c: Seq<Color>, x: (Option<usize>, usize, usize)) -> bool {
    let (f, u, k) = x;
    &&& u < g.spec_num_vertices()
    &&& c[u as int] == Color::Gray
    &&& k <= g.spec_out_edges(u as int).len()
    &&& forall|j: int| 0 <= j < k ==> c[g.spec_target(#[trigger] g.spec_out_edges(u as int)[j] as int) as int] != Color::White
    &&& f is Some ==> g.has_edge(f->0 as int) && g.spec_target(f->0 as int) == u && c[g.spec_source(f->0 as int) as int]
        != Color::White
}

/// `v` is reachable from a vertex gray in `c0`.
#[verifier::opaque]
pub open spec fn reached(g: &Static, c0: Seq<Color>, v: int) -> bool {
    exists|w: int| 0 <= w < c0.len() && c0[w] == Color::Gray && reachable(g, w, v)
}

/// Colors only go up.
pub open spec fn monotone(c0: Seq<Color>, c1: Seq<Color>) -> bool {
    &&& c1.len() == c0.len()
    &&& forall|v: int| 0 <= v < c0.len() ==> rank(#[trigger] c1[v]) >= rank(c0[v])
}

/// Every vertex that became non-white is reachable from one that was gray.
pub open spec fn grown_by_reach(g: &Static, c0: Seq<Color>, c1: Seq<Color>) -> bool {
    forall|v: int| 0 <= v < c0.len() && c0[v] == Color::White && #[trigger] c1[v] != Color::White ==> reached(g, c0, v)
}

pub proof fn lemma_walk_one(g: &Static, u: int, v: int)
    requires
        adjacent(g, u, v),
        0 <= u <= usize::MAX,
        0 <= v <= usize::MAX,
    ensures
        reachable(g, u, v),
{
    let s = seq![u as usize, v as usize];
    assert(s[0] == u as usize);
    assert(adjacent(g, s[0] as int, s[1] as int));
    assert(is_walk(g, s));
}

pub proof fn lemma_walk_extend(g: &Static, w: int, u: int, v: int)
    requires
        reachable(g, w, u),
        adjacent(g, u, v),
        0 <= v <= usize::MAX,
    ensures
        reachable(g, w, v),
{
    let s = choose|s: Seq<usize>| #[trigger] is_walk(g, s) && s[0] == w && s.last() == u;
    let t = s.push(v as usize);
    assert(t[s.len() as int] == v);
    assert(t[0] == s[0]);
    assert forall|i: int| 0 <= i < t.len() - 1 implies #[trigger] adjacent(g, t[i] as int, t[i + 1] as int) by {
        if i < s.len() - 1 {
            assert(t[i] == s[i] && t[i + 1] == s[i + 1]);
        }
    }
    assert(is_walk(g, t));
}

/// An edge from the vertex on top of the stack to a gray vertex, other than the edge by
/// which the top was reached, closes a cycle with the edges of the stack.
pub proof fn lemma_back_edge_cycle(g: &Static, c: Seq<Color>, s: Seq<(Option<usize>, usize, usize)>, e: usize, v: usize)
    requires
        g.wf(),
        c.len() == g.spec_num_vertices(),
        stack_ok(g, c, s),
        stack_path(g, s),
        s.len() > 0,
        g.has_edge(e as int),
        g.spec_source(e as int) == s.last().1,
        g.spec_target(e as int) == v,
        c[v as int] == Color::Gray,
        !(s.last().0 is Some && index_of(g.spec_directed(), s.last().0->0 as int) == index_of(
            g.spec_directed(),
            e as int,
        )),
    ensures
        has_cycle(g),
{
    g.lemma_target_range(e as int);
    assert(on_stack(s, v as int));
    reveal(on_stack);
    let top = s.len() - 1;
    let j = choose|j: int| 0 <= j < s.len() && s[j].1 == v;
    let m = top - j;
    let es = Seq::new((m + 1) as nat, |t: int| if t < m { s[j + 1 + t].0->0 } else { e });
    let d = g.spec_directed();
    assert forall|a: int| j < a <= top implies (#[trigger] s[a]).0 is Some && g.has_edge(s[a].0->0 as int)
        && g.spec_target(s[a].0->0 as int) == s[a].1 && g.spec_source(s[a].0->0 as int) == s[a - 1].1 by {
        assert(entry_ok(g, c, s[a]));
        assert(s[a - 1] == s[a - 1]);
    }
    assert forall|i: int| 0 <= i < es.len() implies #[trigger] g.has_edge(es[i] as int) by {
        if i < m {
            assert(s[j + 1 + i] == s[j + 1 + i]);
        }
    }
    assert forall|i: int, k: int| 0 <= i && k == i + 1 && k < es.len() implies g.spec_target(
        #[trigger] es[i] as int,
    ) == g.spec_source(#[trigger] es[k] as int) by {
        assert(s[j + 1 + i] == s[j + 1 + i]);
        if k < m {
            assert(s[j + 1 + k] == s[j + 1 + k]);
        }
    }
    if m > 0 {
        assert(s[j + 1] == s[j + 1]);
        assert(es[0] == s[j + 1].0->0);
    }
    assert forall|a: int, b: int| 0 <= a < b < es.len() implies index_of(d, #[trigger] es[a] as int) != index_of(
        d,
        #[trigger] es[b] as int,
    ) by {
        let x = j + 1 + a;
        assert(s[x] == s[x]);
        if index_of(d, es[a] as int) == index_of(d, es[b] as int) {
            g.lemma_same_index(es[a] as int, es[b] as int);
            if b < m {
                let y = j + 1 + b;
                assert(s[y] == s[y]);
                assert(s[x].1 != s[y].1);
                assert(s[x - 1].1 != s[y].1);
            } else {
                assert(s[x].1 != s[j].1);
                if es[a] != e {
                    assert(s[x - 1].1 == s[j].1);
                    assert(x - 1 == j);
                    assert(s[x].1 == s[top].1);
                    assert(x == top);
                }
            }
        }
    }
    assert(is_cycle(g, es));
}

/// Along a walk that starts black, in a coloring closed under out-edges without gray
/// vertices, every vertex is black.
pub proof fn lemma_closed_walk(g: &Static, c: Seq<Color>, s: Seq<usize>, i: int)
    requires
        g.wf(),
        c.len() == g.spec_num_vertices(),
        closed_black(g, c),
        forall|x: int| 0 <= x < c.len() ==> c[x] != Color::Gray,
        is_walk(g, s),
        s[0] < c.len(),
        c[s[0] as int] == Color::Black,
        0 <= i < s.len(),
    ensures
        s[i] < c.len(),
        c[s[i] as int] == Color::Black,
    decreases i,
{
    if i > 0 {
        lemma_closed_walk(g, c, s, i - 1);
        let k = i - 1;
        assert(adjacent(g, s[k] as int, s[k + 1] as int));
        assert(k + 1 == i);
        reveal(adjacent);
        let h = choose|h: int| g.has_edge(h) && g.spec_source(h) == s[i - 1] as int && g.spec_target(h) == s[i] as int;
        g.lemma_target_range(h);
        g.lemma_out_edges(s[i - 1] as int, h);
        let out = g.spec_out_edges(s[i - 1] as int);
        let j = choose|j: int| 0 <= j < out.len() && out[j] == h as usize;
        assert(c[g.spec_target(out[j] as int) as int] != Color::White);
        g.lemma_target_range(h);
    }
}

/// A coloring closed under out-edges without gray vertices holds, with a black vertex,
/// each vertex reachable from it.
pub proof fn lemma_closed_reach(g: &Static, c: Seq<Color>, u: int, v: int)
    requires
        g.wf(),
        c.len() == g.spec_num_vertices(),
        closed_black(g, c),
        forall|x: int| 0 <= x < c.len() ==> c[x] != Color::Gray,
        0 <= u < c.len(),
        c[u] == Color::Black,
        reachable(g, u, v),
    ensures
        c[v] == Color::Black,
{
    let s = choose|s: Seq<usize>| #[trigger] is_walk(g, s) && s[0] == u && s.last() == v;
    lemma_closed_walk(g, c, s, s.len() - 1);
}


/// Explores from the vertices on the stack until the stack is empty or the visitor stops
/// the search. Each vertex found white turns gray when it is discovered and black when all
/// its out-edges have been looked at.
#[verifier::rlimit(50)]
#[verifier::spinoff_prover]
pub fn dfs_visit<V: Visitor>(g: &Static, color: &mut Vec<Color>, stack: &mut DfsStack, vis: &mut V) -> (r: Control)
    requires
        g.wf(),
        old(color)@.len() == g.spec_num_vertices(),
        stack_ok(g, old(color)@, old(stack)@),
        stack_path(g, old(stack)@),
        closed_black(g, old(color)@),
        !g.spec_directed() && breaks_on_back_edges::<V>(g) ==> forest_grown(
            g,
            old(color)@,
            old(stack)@,
        ),
        g.spec_directed() && breaks_on_back_edges::<V>(g) ==> order_grown(g, old(color)@, old(stack)@),
        !g.spec_directed() && breaks_on_edges::<V>(g) ==> nothing_looked_at(g, old(color)@, old(stack)@),
    ensures
        monotone(old(color)@, final(color)@),
        grown_by_reach(g, old(color)@, final(color)@),
        r == Control::Continue ==> final(stack)@.len() == 0 && closed_black(g, final(color)@) && forall|v: int|
            0 <= v < final(color)@.len() ==> #[trigger] final(color)@[v] != Color::Gray,
        old(vis).never_breaks() ==> r == Control::Continue && final(vis).never_breaks(),
        old(vis).steady() && r == Control::Break ==> dfs_broke::<V>(g),
        old(vis).steady() && r == Control::Continue ==> final(vis).steady(),
        !g.spec_directed() && breaks_on_back_edges::<V>(g) && r == Control::Continue
            ==> forest_grown(g, final(color)@, final(stack)@),
        g.spec_directed() && breaks_on_back_edges::<V>(g) && r == Control::Continue ==> order_grown(
            g,
            final(color)@,
            final(stack)@,
        ),
        !g.spec_directed() && breaks_on_edges::<V>(g) && r == Control::Continue ==> nothing_looked_at(
            g,
            final(color)@,
            final(stack)@,
        ),
        passed_on(old(vis).log(), final(vis).log(), r),
        old(stack)@.len() == 0 ==> r == Control::Continue && final(vis).log() == old(vis).log(),
        r == Control::Continue ==> exists|n: nat|
            #[trigger] dfs_steps(g, old(color)@, old(stack)@, n) == (
                final(color)@,
                final(stack)@,
                told(old(vis).log(), final(vis).log()),
            ),
        r == Control::Break ==> exists|n: nat|
            told(old(vis).log(), final(vis).log()).is_prefix_of(#[trigger] dfs_steps(g, old(color)@, old(stack)@, n).2),
{
    let ghost c0 = color@;
    let ghost nb = vis.never_breaks();
    let ghost sd = vis.steady();
    let ghost l0 = vis.log();
    let ghost s0 = stack@;
    let ghost mut n: nat = 0;
    proof {
        lemma_passed_on_refl(l0);
        lemma_told_none(l0);
    }
    let ghost fo = !g.spec_directed() && breaks_on_back_edges::<V>(g);
    let ghost mut pf: Seq<Option<usize>> = Seq::empty();
    let ghost mut depth: Seq<nat> = Seq::empty();
    let ghost fd = g.spec_directed() && breaks_on_back_edges::<V>(g);
    let ghost fe = !g.spec_directed() && breaks_on_edges::<V>(g);
    let ghost mut fin: Seq<nat> = Seq::empty();
    let ghost mut clock: nat = 0;
    proof {
        if fo {
            let (p, d) = choose|p: Seq<Option<usize>>, d: Seq<nat>| #[trigger] forest_ok(g, color@, stack@, p, d);
            pf = p;
            depth = d;
        }
        if fd {
            let (f, t) = choose|f: Seq<nat>, t: nat| #[trigger] order_ok(g, color@, stack@, f, t);
            fin = f;
            clock = t;
        }
    }
    while stack.len() > 0
        invariant
            g.wf(),
            color@.len() == g.spec_num_vertices(),
            c0.len() == g.spec_num_vertices(),
            c0 == old(color)@,
            nb == old(vis).never_breaks(),
            nb ==> vis.never_breaks(),
            sd == old(vis).steady(),
            sd ==> vis.steady(),
            l0 == old(vis).log(),
            passed_on(l0, vis.log(), Control::Continue),
            old(stack)@.len() == 0 ==> stack@.len() == 0 && vis.log() == l0,
            s0 == old(stack)@,
            dfs_steps(g, c0, s0, n) == (color@, stack@, told(l0, vis.log())),
            fo == (!g.spec_directed() && breaks_on_back_edges::<V>(g)),
            fo ==> forest_ok(g, color@, stack@, pf, depth),
            fd == (g.spec_directed() && breaks_on_back_edges::<V>(g)),
            fd ==> order_ok(g, color@, stack@, fin, clock),
            fe == (!g.spec_directed() && breaks_on_edges::<V>(g)),
            fe ==> nothing_looked_at(g, color@, stack@),
            stack_ok(g, color@, stack@),
            stack_path(g, stack@),
            closed_black(g, color@),
            monotone(c0, color@),
            grown_by_reach(g, c0, color@),
        decreases num_white(color@), stack@.len(),
    {
        let ghost w0 = num_white(color@);
        let ghost s_before = stack@;
        let top = stack.pop();
        let (from, u, k0) = top.unwrap();
        proof {
            assert(stack@ == s_before.drop_last());
            assert(entry_ok(g, color@, s_before[s_before.len() - 1]));
            assert(s_before.drop_last().push((from, u, k0)) =~= s_before);
        }
        let d = g.out_degree(u);
        let mut k = k0;
        let mut descended = false;
        while k < d && !descended
            invariant
                g.wf(),
                color@.len() == g.spec_num_vertices(),
                c0.len() == g.spec_num_vertices(),
                c0 == old(color)@,
                nb == old(vis).never_breaks(),
                nb ==> vis.never_breaks(),
                sd == old(vis).steady(),
                sd ==> vis.steady(),
                l0 == old(vis).log(),
                passed_on(l0, vis.log(), Control::Continue),
                old(stack)@.len() != 0,
                s0 == old(stack)@,
                !descended ==> dfs_steps(g, c0, s0, n) == (color@, stack@.push((from, u, k)), told(l0, vis.log())),
                descended ==> dfs_steps(g, c0, s0, n) == (color@, stack@, told(l0, vis.log())),
                fo == (!g.spec_directed() && breaks_on_back_edges::<V>(g)),
                u < g.spec_num_vertices(),
                k <= d,
                d == g.spec_out_edges(u as int).len(),
                !descended ==> stack@ == s_before.drop_last() && num_white(color@) == w0 && stack_ok(
                    g,
                    color@,
                    stack@.push((from, u, k)),
                ),
                descended ==> num_white(color@) < w0 && stack_ok(g, color@, stack@),
                !descended ==> stack_path(g, stack@.push((from, u, k))),
                descended ==> stack_path(g, stack@),
                fo && !descended ==> forest_ok(g, color@, stack@.push((from, u, k)), pf, depth),
                fo && descended ==> forest_ok(g, color@, stack@, pf, depth),
                fd == (g.spec_directed() && breaks_on_back_edges::<V>(g)),
                fd && !descended ==> order_ok(g, color@, stack@.push((from, u, k)), fin, clock),
                fd && descended ==> order_ok(g, color@, stack@, fin, clock),
                fe == (!g.spec_directed() && breaks_on_edges::<V>(g)),
                fe ==> !descended && k == 0 && from is None && nothing_looked_at(g, color@, stack@),
                closed_black(g, color@),
                monotone(c0, color@),
                grown_by_reach(g, c0, color@),
            decreases d - k,
        {
            let ghost c1 = color@;
            let ghost s_cur = stack@.push((from, u, k));
            let e = g.out_edge(u, k);
            let v = g.target(e);
            k = k + 1;
            let skip = (g.is_undirected_edge(e) && color[v] == Color::Black) || match from {
                Some(f) => g.edge_index(f) == g.edge_index(e),
                None => false,
            };
            proof {
                if fe && color@[v as int] == Color::Black {
                    lemma_target_has_out_edge(g, e as int);
                }
            }
            proof {
                assert(entry_ok(g, color@, stack@.push((from, u, (k - 1) as usize))[stack@.len() as int]));
            }
            let ghost t0 = told(l0, vis.log());
            let ghost q = dfs_step(g, c1, s_cur);
            proof {
                assert(s_cur.drop_last() =~= stack@);
                assert(dfs_steps(g, c0, s0, n + 1) == (q.0, q.1, t0 + q.2));
            }
            if !skip {
                if tell(vis, g, TraverseEvent::DiscoverEdge(e), Ghost(l0)) == Control::Break {
                    proof {
                        crate::trace::lemma_told_prefix(told(l0, vis.log()), t0, q.2, 1);
                        assert(told(l0, vis.log()).is_prefix_of(dfs_steps(g, c0, s0, n + 1).2));
                        assert(dfs_event_ok(g, TraverseEvent::DiscoverEdge(e)));
                    }
                    return Control::Break;
                }
                let cv = color[v];
                if cv == Color::White {
                    color.set(v, Color::Gray);
                    proof {
                        if fo {
                            lemma_forest_discover(g, c1, color@, stack@, pf, depth, from, u, k, e, v);
                            depth = depth.update(v as int, depth[u as int] + 1);
                            pf = pf.update(v as int, Some(e));
                        }
                        if fd {
                            lemma_order_discover(g, c1, color@, stack@, fin, clock, from, u, k, e, v);
                        }
                        lemma_num_white_update(c1, v as int, Color::Gray);
                        self::lemma_discover(g, c0, c1, color@, stack@, from, u, k, e, v);
                    }
                    proof {
                        lemma_path_retop(g, stack@, from, u, (k - 1) as usize, k);
                        lemma_path_push(g, stack@.push((from, u, k)), e, v, 0);
                    }
                    stack.push((from, u, k));
                    stack.push((Some(e), v, 0));
                    descended = true;
                    if tell(vis, g, TraverseEvent::DiscoverTreeEdge(e), Ghost(l0)) == Control::Break {
                        proof {
                            crate::trace::lemma_told_prefix(told(l0, vis.log()), t0, q.2, 2);
                            assert(told(l0, vis.log()).is_prefix_of(dfs_steps(g, c0, s0, n + 1).2));
                            assert(dfs_event_ok(g, TraverseEvent::DiscoverTreeEdge(e)));
                        }
                        return Control::Break;
                    }
                    if tell(vis, g, TraverseEvent::DiscoverVertex(v), Ghost(l0)) == Control::Break {
                        proof {
                            crate::trace::lemma_told_prefix(told(l0, vis.log()), t0, q.2, 3);
                            assert(told(l0, vis.log()).is_prefix_of(dfs_steps(g, c0, s0, n + 1).2));
                            assert(dfs_event_ok(g, TraverseEvent::DiscoverVertex(v)));
                        }
                        return Control::Break;
                    }
                    proof {
                        assert(told(l0, vis.log()) =~= t0 + q.2);
                        assert(stack@ =~= q.1);
                        n = n + 1;
                    }
                } else {
                    proof {
                        self::lemma_seen(g, color@, stack@, from, u, k, e, v);
                        if fd && cv == Color::Black {
                            g.lemma_target_range(e as int);
                            lemma_order_seen(g, color@, stack@, fin, clock, from, u, k, e, v);
                        }
                    }
                    proof {
                        lemma_path_retop(g, stack@, from, u, (k - 1) as usize, k);
                    }
                    if cv == Color::Gray {
                        if tell(vis, g, TraverseEvent::DiscoverBackEdge(e), Ghost(l0)) == Control::Break {
                            proof {
                                crate::trace::lemma_told_prefix(told(l0, vis.log()), t0, q.2, 2);
                                assert(told(l0, vis.log()).is_prefix_of(dfs_steps(g, c0, s0, n + 1).2));
                                lemma_back_edge_cycle(g, c1, s_cur, e, v);
                                assert(dfs_event_ok(g, TraverseEvent::DiscoverBackEdge(e)));
                            }
                            return Control::Break;
                        }
                    } else {
                        if tell(vis, g, TraverseEvent::DiscoverCrossOrForwardEdge(e), Ghost(l0)) == Control::Break {
                            proof {
                                crate::trace::lemma_told_prefix(told(l0, vis.log()), t0, q.2, 2);
                                assert(told(l0, vis.log()).is_prefix_of(dfs_steps(g, c0, s0, n + 1).2));
                                assert(dfs_event_ok(g, TraverseEvent::DiscoverCrossOrForwardEdge(e)));
                            }
                            return Control::Break;
                        }
                    }
                    if tell(vis, g, TraverseEvent::FinishEdge(e), Ghost(l0)) == Control::Break {
                        proof {
                            crate::trace::lemma_told_prefix(told(l0, vis.log()), t0, q.2, 3);
                            assert(told(l0, vis.log()).is_prefix_of(dfs_steps(g, c0, s0, n + 1).2));
                            assert(dfs_event_ok(g, TraverseEvent::FinishEdge(e)));
                        }
                        return Control::Break;
                    }
                    proof {
                        assert(told(l0, vis.log()) =~= t0 + q.2);
                        assert(stack@.push((from, u, k)) =~= q.1);
                        n = n + 1;
                    }
                }
            } else {
                proof {
                    if fo {
                        lemma_forest_skip(g, color@, stack@, pf, depth, from, u, k, e, v);
                    }
                    if fd {
                        lemma_order_no_skip(g, color@, stack@, fin, clock, from, u, k, e);
                    }
                    self::lemma_skip(g, color@, stack@, from, u, k, e, v);
                    lemma_path_retop(g, stack@, from, u, (k - 1) as usize, k);
                    assert(t0 + q.2 =~= t0);
                    assert(stack@.push((from, u, k)) =~= q.1);
                    n = n + 1;
                }
            }
        }
        if !descended {
            let ghost c2 = color@;
            let ghost t0 = told(l0, vis.log());
            let ghost q = dfs_step(g, c2, stack@.push((from, u, k)));
            proof {
                assert(stack@.push((from, u, k)).drop_last() =~= stack@);
                assert(dfs_steps(g, c0, s0, n + 1) == (q.0, q.1, t0 + q.2));
            }
            color.set(u, Color::Black);
            proof {
                if fo {
                    lemma_forest_finish(g, c2, color@, stack@, pf, depth, from, u, k);
                }
                if fd {
                    lemma_order_finish(g, c2, color@, stack@, fin, clock, from, u, k);
                    fin = fin.update(u as int, clock);
                    clock = clock + 1;
                }
                lemma_num_white_update(c2, u as int, Color::Black);
                self::lemma_finish(g, c0, c2, color@, stack@, from, u, k);
                lemma_path_pop(g, stack@.push((from, u, k)));
                assert(stack@.push((from, u, k)).drop_last() =~= stack@);
            }
            if tell(vis, g, TraverseEvent::FinishVertex(u), Ghost(l0)) == Control::Break {
                proof {
                    crate::trace::lemma_told_prefix(told(l0, vis.log()), t0, q.2, 1);
                    assert(told(l0, vis.log()).is_prefix_of(dfs_steps(g, c0, s0, n + 1).2));
                    assert(dfs_event_ok(g, TraverseEvent::FinishVertex(u)));
                }
                return Control::Break;
            }
            if let Some(f) = from {
                if tell(vis, g, TraverseEvent::FinishTreeEdge(f), Ghost(l0)) == Control::Break {
                    proof {
                        crate::trace::lemma_told_prefix(told(l0, vis.log()), t0, q.2, 2);
                        assert(told(l0, vis.log()).is_prefix_of(dfs_steps(g, c0, s0, n + 1).2));
                        assert(dfs_event_ok(g, TraverseEvent::FinishTreeEdge(f)));
                    }
                    return Control::Break;
                }
                if tell(vis, g, TraverseEvent::FinishEdge(f), Ghost(l0)) == Control::Break {
                    proof {
                        crate::trace::lemma_told_prefix(told(l0, vis.log()), t0, q.2, 3);
                        assert(told(l0, vis.log()).is_prefix_of(dfs_steps(g, c0, s0, n + 1).2));
                        assert(dfs_event_ok(g, TraverseEvent::FinishEdge(f)));
                    }
                    return Control::Break;
                }
            }
            proof {
                assert(told(l0, vis.log()) =~= t0 + q.2);
                n = n + 1;
            }
        }
    }
    proof {
        assert forall|v: int| 0 <= v < color@.len() implies #[trigger] color@[v] != Color::Gray by {
            if color@[v] == Color::Gray {
                assert(on_stack(stack@, v));
                reveal(on_stack);
            }
        }
        if fo {
            assert(forest_ok(g, color@, stack@, pf, depth));
        }
        if fd {
            assert(order_ok(g, color@, stack@, fin, clock));
        }
    }
    Control::Continue
}


/// The path along the stack does not depend on how many out-edges of the top were looked
/// at.
pub proof fn lemma_path_retop(
    g: &Static,
    st: Seq<(Option<usize>, usize, usize)>,
    f: Option<usize>,
    u: usize,
    k1: usize,
    k2: usize,
)
    requires
        stack_path(g, st.push((f, u, k1))),
    ensures
        stack_path(g, st.push((f, u, k2))),
{
    let s1 = st.push((f, u, k1));
    let s2 = st.push((f, u, k2));
    assert forall|i: int, j: int| 0 <= i && j == i + 1 && j < s2.len() implies linked(g, #[trigger] s2[i], #[trigger] s2[j]) by {
        assert(s1[j].0 == s2[j].0);
        assert(s1[i].1 == s2[i].1);
        assert(s1[j] == s1[j] && s1[i] == s1[i]);
    }
}

/// Pushing a vertex reached by an edge from the top keeps the path.
pub proof fn lemma_path_push(g: &Static, s: Seq<(Option<usize>, usize, usize)>, e: usize, v: usize, k: usize)
    requires
        stack_path(g, s),
        s.len() > 0,
        g.spec_source(e as int) == s.last().1,
    ensures
        stack_path(g, s.push((Some(e), v, k))),
{
    let t = s.push((Some(e), v, k));
    assert forall|i: int, j: int| 0 <= i && j == i + 1 && j < t.len() implies linked(g, #[trigger] t[i], #[trigger] t[j]) by {
        if j < s.len() {
            assert(t[j] == s[j] && t[i] == s[i]);
        }
    }
}

/// Popping the top keeps the path.
pub proof fn lemma_path_pop(g: &Static, s: Seq<(Option<usize>, usize, usize)>)
    requires
        stack_path(g, s),
        s.len() > 0,
    ensures
        stack_path(g, s.drop_last()),
{
    let t = s.drop_last();
    assert forall|i: int, j: int| 0 <= i && j == i + 1 && j < t.len() implies linked(g, #[trigger] t[i], #[trigger] t[j]) by {
        assert(t[j] == s[j] && t[i] == s[i]);
    }
}

/// An entry stays consistent when colors only leave white and its vertex stays gray.
pub proof fn lemma_entry_mono(g: &Static, c1: Seq<Color>, c2: Seq<Color>, x: (Option<usize>, usize, usize))
    requires
        g.wf(),
        c1.len() == g.spec_num_vertices(),
        c2.len() == c1.len(),
        entry_ok(g, c1, x),
        forall|y: int| 0 <= y < c1.len() && c1[y] != Color::White ==> #[trigger] c2[y] != Color::White,
        c2[x.1 as int] == Color::Gray,
    ensures
        entry_ok(g, c2, x),
{
    let (f, u, k) = x;
    g.lemma_out_targets(u as int);
    assert forall|j: int| 0 <= j < k implies c2[g.spec_target(#[trigger] g.spec_out_edges(u as int)[j] as int) as int]
        != Color::White by {
        assert(c1[g.spec_target(g.spec_out_edges(u as int)[j] as int) as int] != Color::White);
    }
    if f is Some {
        g.lemma_target_range(f->0 as int);
    }
}

/// Looking at one more out-edge of `u`, whose target is not white, keeps the stack
/// consistent.
pub proof fn lemma_advance(
    g: &Static,
    c: Seq<Color>,
    st: Seq<(Option<usize>, usize, usize)>,
    from: Option<usize>,
    u: usize,
    k: usize,
)
    requires
        g.wf(),
        c.len() == g.spec_num_vertices(),
        stack_ok(g, c, st.push((from, u, (k - 1) as usize))),
        1 <= k <= g.spec_out_edges(u as int).len(),
        c[g.spec_target(g.spec_out_edges(u as int)[k - 1] as int) as int] != Color::White,
    ensures
        stack_ok(g, c, st.push((from, u, k))),
{
    let s0 = st.push((from, u, (k - 1) as usize));
    let s1 = st.push((from, u, k));
    assert(entry_ok(g, c, s0[st.len() as int]));
    assert forall|i: int| 0 <= i < s1.len() implies #[trigger] entry_ok(g, c, s1[i]) by {
        if i < st.len() {
            assert(s1[i] == s0[i]);
        }
    }
    assert forall|i: int, j: int| 0 <= i < j < s1.len() implies #[trigger] s1[i].1 != #[trigger] s1[j].1 by {
        assert(s0[i].1 != s0[j].1);
    }
    assert forall|v: int| 0 <= v < c.len() && c[v] == Color::Gray implies #[trigger] on_stack(s1, v) by {
        assert(on_stack(s0, v));
        reveal(on_stack);
        let i = choose|i: int| 0 <= i < s0.len() && s0[i].1 == v;
        assert(s1[i].1 == v);
    }
}

pub proof fn lemma_skip(
    g: &Static,
    c: Seq<Color>,
    st: Seq<(Option<usize>, usize, usize)>,
    from: Option<usize>,
    u: usize,
    k: usize,
    e: usize,
    v: usize,
)
    requires
        g.wf(),
        c.len() == g.spec_num_vertices(),
        stack_ok(g, c, st.push((from, u, (k - 1) as usize))),
        1 <= k <= g.spec_out_edges(u as int).len(),
        e == g.spec_out_edges(u as int)[k - 1],
        g.has_edge(e as int),
        g.spec_source(e as int) == u,
        v == g.spec_target(e as int),
        (!g.spec_directed() && c[v as int] == Color::Black) || (from is Some && crate::graph::index_of(
            g.spec_directed(),
            from->0 as int,
        ) == crate::graph::index_of(g.spec_directed(), e as int)),
    ensures
        stack_ok(g, c, st.push((from, u, k))),
{
    let s0 = st.push((from, u, (k - 1) as usize));
    assert(entry_ok(g, c, s0[st.len() as int]));
    if !(!g.spec_directed() && c[v as int] == Color::Black) {
        let f = from->0;
        g.lemma_same_index(e as int, f as int);
    }
    lemma_advance(g, c, st, from, u, k);
}

pub proof fn lemma_seen(
    g: &Static,
    c: Seq<Color>,
    st: Seq<(Option<usize>, usize, usize)>,
    from: Option<usize>,
    u: usize,
    k: usize,
    e: usize,
    v: usize,
)
    requires
        g.wf(),
        c.len() == g.spec_num_vertices(),
        stack_ok(g, c, st.push((from, u, (k - 1) as usize))),
        1 <= k <= g.spec_out_edges(u as int).len(),
        e == g.spec_out_edges(u as int)[k - 1],
        v == g.spec_target(e as int),
        c[v as int] != Color::White,
    ensures
        stack_ok(g, c, st.push((from, u, k))),
{
    lemma_advance(g, c, st, from, u, k);
}

pub proof fn lemma_discover(
    g: &Static,
    c0: Seq<Color>,
    c1: Seq<Color>,
    c2: Seq<Color>,
    st: Seq<(Option<usize>, usize, usize)>,
    from: Option<usize>,
    u: usize,
    k: usize,
    e: usize,
    v: usize,
)
    requires
        g.wf(),
        c1.len() == g.spec_num_vertices(),
        c0.len() == g.spec_num_vertices(),
        stack_ok(g, c1, st.push((from, u, (k - 1) as usize))),
        1 <= k <= g.spec_out_edges(u as int).len(),
        e == g.spec_out_edges(u as int)[k - 1],
        g.has_edge(e as int),
        g.spec_source(e as int) == u,
        v == g.spec_target(e as int),
        v < g.spec_num_vertices(),
        c1[v as int] == Color::White,
        c2 == c1.update(v as int, Color::Gray),
        closed_black(g, c1),
        monotone(c0, c1),
        grown_by_reach(g, c0, c1),
    ensures
        stack_ok(g, c2, st.push((from, u, k)).push((Some(e), v, 0))),
        closed_black(g, c2),
        monotone(c0, c2),
        grown_by_reach(g, c0, c2),
{
    let s0 = st.push((from, u, (k - 1) as usize));
    let s2 = st.push((from, u, k)).push((Some(e), v, 0));
    assert(entry_ok(g, c1, s0[st.len() as int]));
    assert(c1[u as int] == Color::Gray);
    // the stack
    g.lemma_out_targets(u as int);
    assert forall|y: int| 0 <= y < c1.len() && c1[y] != Color::White implies #[trigger] c2[y] != Color::White by {
    }
    assert forall|i: int| 0 <= i < s2.len() implies #[trigger] entry_ok(g, c2, s2[i]) by {
        if i < st.len() {
            assert(s2[i] == s0[i]);
            assert(entry_ok(g, c1, s0[i]));
            assert(s0[i].1 != v) by {
                if s0[i].1 == v {
                    assert(c1[v as int] == Color::Gray);
                }
            }
            lemma_entry_mono(g, c1, c2, s0[i]);
        } else if i == st.len() {
            assert(s2[i] == (from, u, k));
            assert(u != v);
            lemma_entry_mono(g, c1, c2, (from, u, (k - 1) as usize));
            assert(g.spec_out_edges(u as int)[k - 1] == e);
        } else {
            assert(s2[i] == (Some(e), v, 0usize));
        }
    }
    assert forall|i: int, j: int| 0 <= i < j < s2.len() implies #[trigger] s2[i].1 != #[trigger] s2[j].1 by {
        if j < st.len() + 1 {
            assert(s0[i].1 != s0[j].1 || i == j);
            assert(s2[i].1 == s0[i].1);
            assert(s2[j].1 == s0[j].1);
        } else {
            assert(s2[j].1 == v);
            assert(s2[i].1 == s0[i].1);
            assert(entry_ok(g, c1, s0[i]));
        }
    }
    assert forall|w: int| 0 <= w < c2.len() && c2[w] == Color::Gray implies #[trigger] on_stack(s2, w) by {
        reveal(on_stack);
        if w == v {
            assert(s2[st.len() as int + 1].1 == v);
        } else {
            assert(on_stack(s0, w));
            let i = choose|i: int| 0 <= i < s0.len() && s0[i].1 == w;
            assert(s2[i].1 == w);
        }
    }
    // the colors
    assert forall|x: int, j: int|
        0 <= x < c2.len() && c2[x] == Color::Black && 0 <= j < g.spec_out_edges(x).len() implies c2[g.spec_target(
        #[trigger] g.spec_out_edges(x)[j] as int,
    ) as int] != Color::White by {
        assert(c1[x] == Color::Black);
        g.lemma_out_targets(x);
        assert(c1[g.spec_target(g.spec_out_edges(x)[j] as int) as int] != Color::White);
    }
    assert forall|x: int| 0 <= x < c0.len() implies rank(#[trigger] c2[x]) >= rank(c0[x]) by {
        if x == v {
            assert(c0[x] == Color::White) by {
                assert(rank(c1[x]) >= rank(c0[x]));
            }
        }
    }
    assert forall|x: int| 0 <= x < c0.len() && c0[x] == Color::White && #[trigger] c2[x] != Color::White implies reached(
        g,
        c0,
        x,
    ) by {
        if x == v {
            assert(adjacent(g, u as int, v as int)) by {
                reveal(adjacent);
            }
            if c0[u as int] == Color::White {
                assert(reached(g, c0, u as int));
                reveal(reached);
                let w = choose|w: int| 0 <= w < c0.len() && c0[w] == Color::Gray && reachable(g, w, u as int);
                lemma_walk_extend(g, w, u as int, v as int);
            } else {
                assert(rank(c1[u as int]) >= rank(c0[u as int]));
                assert(c0[u as int] == Color::Gray);
                lemma_walk_one(g, u as int, v as int);
                reveal(reached);
            }
        } else {
            assert(c2[x] == c1[x]);
        }
    }
}

pub proof fn lemma_finish(
    g: &Static,
    c0: Seq<Color>,
    c2: Seq<Color>,
    c3: Seq<Color>,
    st: Seq<(Option<usize>, usize, usize)>,
    from: Option<usize>,
    u: usize,
    k: usize,
)
    requires
        g.wf(),
        c2.len() == g.spec_num_vertices(),
        c0.len() == g.spec_num_vertices(),
        stack_ok(g, c2, st.push((from, u, k))),
        k == g.spec_out_edges(u as int).len(),
        c3 == c2.update(u as int, Color::Black),
        closed_black(g, c2),
        monotone(c0, c2),
        grown_by_reach(g, c0, c2),
    ensures
        stack_ok(g, c3, st),
        closed_black(g, c3),
        monotone(c0, c3),
        grown_by_reach(g, c0, c3),
{
    let s0 = st.push((from, u, k));
    assert(entry_ok(g, c2, s0[st.len() as int]));
    assert forall|y: int| 0 <= y < c2.len() && c2[y] != Color::White implies #[trigger] c3[y] != Color::White by {
    }
    assert forall|i: int| 0 <= i < st.len() implies #[trigger] entry_ok(g, c3, st[i]) by {
        assert(s0[i] == st[i]);
        assert(entry_ok(g, c2, s0[i]));
        assert(s0[i].1 != s0[st.len() as int].1);
        lemma_entry_mono(g, c2, c3, st[i]);
    }
    assert forall|i: int, j: int| 0 <= i < j < st.len() implies #[trigger] st[i].1 != #[trigger] st[j].1 by {
        assert(s0[i].1 != s0[j].1);
    }
    assert forall|w: int| 0 <= w < c3.len() && c3[w] == Color::Gray implies #[trigger] on_stack(st, w) by {
        reveal(on_stack);
        assert(on_stack(s0, w));
        let i = choose|i: int| 0 <= i < s0.len() && s0[i].1 == w;
        assert(i < st.len());
        assert(st[i].1 == w);
    }
    assert forall|x: int, j: int|
        0 <= x < c3.len() && c3[x] == Color::Black && 0 <= j < g.spec_out_edges(x).len() implies c3[g.spec_target(
        #[trigger] g.spec_out_edges(x)[j] as int,
    ) as int] != Color::White by {
        g.lemma_out_targets(x);
        if x == u {
            assert(c2[g.spec_target(g.spec_out_edges(x)[j] as int) as int] != Color::White);
        } else {
            assert(c2[x] == Color::Black);
            assert(c2[g.spec_target(g.spec_out_edges(x)[j] as int) as int] != Color::White);
        }
    }
    assert forall|x: int| 0 <= x < c0.len() implies rank(#[trigger] c3[x]) >= rank(c0[x]) by {
        assert(rank(c2[x]) >= rank(c0[x]));
    }
    assert forall|x: int| 0 <= x < c0.len() && c0[x] == Color::White && #[trigger] c3[x] != Color::White implies reached(
        g,
        c0,
        x,
    ) by {
        if x == u {
            assert(c2[x] != Color::White);
        } else {
            assert(c3[x] == c2[x]);
        }
    }
}


/// Some vertex of `roots` reaches `v`.
pub open spec fn reached_from(g: &Static, roots: Seq<usize>, v: int) -> bool {
    exists|i: int| 0 <= i < roots.len() && #[trigger] reachable(g, roots[i] as int, v)
}

pub proof fn lemma_reach_self(g: &Static, v: int)
    requires
        0 <= v <= usize::MAX,
    ensures
        reachable(g, v, v),
{
    let s = seq![v as usize];
    assert(is_walk(g, s));
}

/// Reachability is transitive.
pub proof fn lemma_reach_trans(g: &Static, a: int, b: int, c: int)
    requires
        reachable(g, a, b),
        reachable(g, b, c),
    ensures
        reachable(g, a, c),
{
    let s = choose|s: Seq<usize>| #[trigger] is_walk(g, s) && s[0] == a && s.last() == b;
    let t = choose|t: Seq<usize>| #[trigger] is_walk(g, t) && t[0] == b && t.last() == c;
    let w = s + t.drop_first();
    assert forall|i: int| 0 <= i < w.len() - 1 implies #[trigger] adjacent(g, w[i] as int, w[i + 1] as int) by {
        if i < s.len() - 1 {
            assert(w[i] == s[i] && w[i + 1] == s[i + 1]);
        } else if i == s.len() - 1 {
            assert(w[i] == s[i]);
            assert(w[i + 1] == t[1]);
            assert(adjacent(g, t[0int] as int, t[0int + 1] as int));
        } else {
            let j = i - s.len() + 1;
            assert(w[i] == t[j]);
            assert(w[i + 1] == t[j + 1]);
        }
    }
    if t.len() == 1 {
        assert(w =~= s);
    } else {
        assert(w.last() == t.last());
    }
    assert(is_walk(g, w));
}

/// Searches from each root in turn that is still white, telling the visitor what happens.
/// When the search runs to its end, the black vertices are exactly those reachable from a
/// root, and no vertex is left gray.
#[verifier::rlimit(100)]
#[verifier::spinoff_prover]
pub fn run<V: Visitor>(g: &Static, vis: &mut V, roots: &Vec<usize>, color: &mut Vec<Color>) -> (r: Control)
    requires
        g.wf(),
        old(color)@.len() == g.spec_num_vertices(),
        forall|v: int| 0 <= v < old(color)@.len() ==> #[trigger] old(color)@[v] == Color::White,
        forall|i: int| 0 <= i < roots@.len() ==> #[trigger] roots@[i] < g.spec_num_vertices(),
    ensures
        final(color)@.len() == g.spec_num_vertices(),
        r == Control::Continue ==> forall|v: int|
            0 <= v < g.spec_num_vertices() ==> (#[trigger] final(color)@[v] == Color::Black <==> reached_from(
                g,
                roots@,
                v,
            )),
        r == Control::Continue ==> forall|v: int| 0 <= v < g.spec_num_vertices() ==> #[trigger] final(color)@[v] != Color::Gray,
        old(vis).never_breaks() ==> r == Control::Continue,
        old(vis).steady() && r == Control::Break ==> dfs_broke::<V>(g),
        old(vis).steady() && r == Control::Continue ==> final(vis).steady(),
        !g.spec_directed() && breaks_on_back_edges::<V>(g) && r == Control::Continue
            ==> forest_grown(g, final(color)@, Seq::<(Option<usize>, usize, usize)>::empty()),
        g.spec_directed() && breaks_on_back_edges::<V>(g) && r == Control::Continue ==> order_grown(
            g,
            final(color)@,
            Seq::<(Option<usize>, usize, usize)>::empty(),
        ),
        !g.spec_directed() && breaks_on_edges::<V>(g) && r == Control::Continue ==> nothing_looked_at(
            g,
            final(color)@,
            Seq::<(Option<usize>, usize, usize)>::empty(),
        ),
        roots@.len() > 0 && V::must_break(g, TraverseEvent::DiscoverRootVertex(roots@[0])) ==> r == Control::Break,
        V::must_break(g, TraverseEvent::Start) ==> r == Control::Break,
        V::must_break(g, TraverseEvent::Finish) ==> r == Control::Break,
        passed_on(old(vis).log(), final(vis).log(), r),
        r == Control::Continue ==> told(old(vis).log(), final(vis).log()) == dfs_trace(g, old(color)@, roots@),
        r == Control::Continue ==> final(color)@ == roots_trace(g, old(color)@, roots@).0,
        r == Control::Break ==> told(old(vis).log(), final(vis).log()).is_prefix_of(dfs_trace(g, old(color)@, roots@)),
{
    let ghost nb = vis.never_breaks();
    let ghost sd = vis.steady();
    let ghost l0 = vis.log();
    let ghost ci = color@;
    proof {
        lemma_passed_on_refl(l0);
        lemma_told_none(l0);
    }
    let ghost fo = !g.spec_directed() && breaks_on_back_edges::<V>(g);
    if tell(vis, g, TraverseEvent::Start, Ghost(l0)) == Control::Break {
        proof {
            lemma_prefix_self(seq![TraverseEvent::Start], roots_trace(g, ci, roots@).1 + seq![TraverseEvent::Finish]);
            assert(told(l0, vis.log()) =~= seq![TraverseEvent::Start]);
            assert(dfs_trace(g, ci, roots@) =~= seq![TraverseEvent::Start] + (roots_trace(g, ci, roots@).1 + seq![
                TraverseEvent::Finish,
            ]));
            assert(dfs_event_ok(g, TraverseEvent::Start));
        }
        return Control::Break;
    }
    let mut stack = NewDfsStack.build();
    let ghost fd = g.spec_directed() && breaks_on_back_edges::<V>(g);
    let ghost fe = !g.spec_directed() && breaks_on_edges::<V>(g);
    proof {
        lemma_forest_init(g, color@);
        lemma_order_init(g, color@);
    }
    let mut i: usize = 0;
    proof {
        assert(roots@.skip(0) =~= roots@);
        assert(told(l0, vis.log()) =~= seq![TraverseEvent::Start]);
    }
    while i < roots.len()
        invariant
            ci == old(color)@,
            told(l0, vis.log()) + roots_trace(g, color@, roots@.skip(i as int)).1 == seq![TraverseEvent::Start]
                + roots_trace(g, ci, roots@).1,
            roots_trace(g, color@, roots@.skip(i as int)).0 == roots_trace(g, ci, roots@).0,
            i == 0 ==> forall|v: int| 0 <= v < color@.len() ==> #[trigger] color@[v] == Color::White,
            i > 0 && roots@.len() > 0 ==> !V::must_break(g, TraverseEvent::DiscoverRootVertex(roots@[0])),
            !V::must_break(g, TraverseEvent::Start),
            g.wf(),
            nb == old(vis).never_breaks(),
            nb ==> vis.never_breaks(),
            sd == old(vis).steady(),
            sd ==> vis.steady(),
            l0 == old(vis).log(),
            passed_on(l0, vis.log(), Control::Continue),
            fo == (!g.spec_directed() && breaks_on_back_edges::<V>(g)),
            fo ==> forest_grown(g, color@, Seq::<(Option<usize>, usize, usize)>::empty()),
            fd == (g.spec_directed() && breaks_on_back_edges::<V>(g)),
            fd ==> order_grown(g, color@, Seq::<(Option<usize>, usize, usize)>::empty()),
            fe == (!g.spec_directed() && breaks_on_edges::<V>(g)),
            fe ==> nothing_looked_at(g, color@, Seq::<(Option<usize>, usize, usize)>::empty()),
            color@.len() == g.spec_num_vertices(),
            forall|k: int| 0 <= k < roots@.len() ==> #[trigger] roots@[k] < g.spec_num_vertices(),
            i <= roots@.len(),
            stack@.len() == 0,
            closed_black(g, color@),
            forall|v: int| 0 <= v < color@.len() ==> #[trigger] color@[v] != Color::Gray,
            forall|k: int| 0 <= k < i ==> color@[#[trigger] roots@[k] as int] == Color::Black,
            forall|v: int| 0 <= v < color@.len() && #[trigger] color@[v] == Color::Black ==> reached_from(g, roots@.take(i as int), v),
        decreases roots@.len() - i,
    {
        let v = roots[i];
        let ghost c1 = color@;
        let ghost rs = roots@.skip(i as int);
        let ghost t1 = told(l0, vis.log());
        proof {
            assert(rs[0] == v);
            assert(rs.skip(1) =~= roots@.skip(i + 1));
        }
        if color[v] == Color::White {
            color.set(v, Color::Gray);
            stack.push((None, v, 0));
            let ghost c2 = color@;
            proof {
                assert(stack@ =~= seq![(None::<usize>, v, 0usize)]);
                if fo {
                    let (p, d) = choose|p: Seq<Option<usize>>, d: Seq<nat>| #[trigger] forest_ok(
                        g,
                        c1,
                        Seq::<(Option<usize>, usize, usize)>::empty(),
                        p,
                        d,
                    );
                    lemma_forest_root(g, c1, c2, p, d, v);
                    assert(forest_ok(g, c2, stack@, p.update(v as int, None), d.update(v as int, 0)));
                }
                if fd {
                    let (f, t) = choose|f: Seq<nat>, t: nat| #[trigger] order_ok(
                        g,
                        c1,
                        Seq::<(Option<usize>, usize, usize)>::empty(),
                        f,
                        t,
                    );
                    lemma_order_root(g, c1, c2, f, t, v);
                    assert(order_ok(g, c2, stack@, f, t));
                }
                if fe {
                    assert forall|x: int| 0 <= x < c2.len() && #[trigger] c2[x] == Color::Black implies g.spec_out_edges(
                        x,
                    ).len() == 0 by {
                        assert(c1[x] == Color::Black);
                    }
                    assert(nothing_looked_at(g, c2, stack@));
                }
                let st = stack@;
                assert(entry_ok(g, c2, st[0]));
                assert forall|w: int| 0 <= w < c2.len() && c2[w] == Color::Gray implies #[trigger] on_stack(st, w) by {
                    reveal(on_stack);
                    assert(st[0].1 == w);
                }
                assert forall|x: int, j: int|
                    0 <= x < c2.len() && c2[x] == Color::Black && 0 <= j < g.spec_out_edges(x).len() implies c2[g.spec_target(
                    #[trigger] g.spec_out_edges(x)[j] as int,
                ) as int] != Color::White by {
                    g.lemma_out_targets(x);
                    assert(c1[g.spec_target(g.spec_out_edges(x)[j] as int) as int] != Color::White);
                }
            }
            proof {
                assert(c2 == c1.update(v as int, Color::Gray));
            }
            if tell(vis, g, TraverseEvent::DiscoverRootVertex(v), Ghost(l0)) == Control::Break {
                proof {
                    crate::trace::lemma_run_prefix_edge(g, ci, roots@, c1, rs, t1, 1);
                    assert(told(l0, vis.log()) =~= t1 + seq![
                        TraverseEvent::DiscoverRootVertex(v),
                        TraverseEvent::DiscoverVertex(v),
                    ].subrange(0, 1));
                    assert(dfs_event_ok(g, TraverseEvent::DiscoverRootVertex(v)));
                }
                return Control::Break;
            }
            if tell(vis, g, TraverseEvent::DiscoverVertex(v), Ghost(l0)) == Control::Break {
                proof {
                    crate::trace::lemma_run_prefix_edge(g, ci, roots@, c1, rs, t1, 2);
                    assert(told(l0, vis.log()) =~= t1 + seq![
                        TraverseEvent::DiscoverRootVertex(v),
                        TraverseEvent::DiscoverVertex(v),
                    ].subrange(0, 2));
                    assert(dfs_event_ok(g, TraverseEvent::DiscoverVertex(v)));
                }
                return Control::Break;
            }
            let ghost lb = vis.log();
            let ghost sb = stack@;
            let c = dfs_visit(g, color, &mut stack, vis);
            proof {
                lemma_passed_on_trans(l0, lb, vis.log(), c);
            }
            if c == Control::Break {
                proof {
                    let x0 = seq![TraverseEvent::DiscoverRootVertex(v), TraverseEvent::DiscoverVertex(v)];
                    assert(told(l0, lb) =~= t1 + x0);
                    lemma_told_trans(l0, lb, vis.log());
                    let tp = told(lb, vis.log());
                    let nn = choose|nn: nat| tp.is_prefix_of(#[trigger] dfs_steps(g, c2, sb, nn).2);
                    assert(sb =~= seq![(None::<usize>, v, 0usize)]);
                    crate::trace::lemma_run_prefix_inside(g, ci, roots@, c1, rs, t1, tp, nn);
                    assert(told(l0, vis.log()) =~= t1 + (x0 + tp));
                }
                return Control::Break;
            }
            let ghost tb = told(lb, vis.log());
            proof {
                lemma_told_trans(l0, lb, vis.log());
                let nn = choose|nn: nat| #[trigger] dfs_steps(g, c2, sb, nn) == (color@, stack@, tb);
                lemma_dfs_full(g, c2, sb, nn);
                assert(sb =~= seq![(None::<usize>, v, 0usize)]);
                assert(c2 == c1.update(v as int, Color::Gray));
            }
            proof {
                assert(stack@ =~= Seq::<(Option<usize>, usize, usize)>::empty());
                let c3 = color@;
                assert forall|w: int| 0 <= w < c3.len() && #[trigger] c3[w] == Color::Black implies reached_from(
                    g,
                    roots@.take(i + 1),
                    w,
                ) by {
                    assert(roots@.take(i + 1)[i as int] == v);
                    if c2[w] == Color::White {
                        assert(reached(g, c2, w));
                        reveal(reached);
                        let x = choose|x: int| 0 <= x < c2.len() && c2[x] == Color::Gray && reachable(g, x, w);
                        assert(x == v);
                        assert(reachable(g, roots@.take(i + 1)[i as int] as int, w));
                    } else {
                        assert(rank(c3[w]) >= rank(c2[w]));
                        if w == v {
                            lemma_reach_self(g, w);
                            assert(reachable(g, roots@.take(i + 1)[i as int] as int, w));
                        } else {
                            assert(c1[w] == Color::Black);
                            assert(reached_from(g, roots@.take(i as int), w));
                            let k = choose|k: int| 0 <= k < i && #[trigger] reachable(g, roots@.take(i as int)[k] as int, w);
                            assert(roots@.take(i + 1)[k] == roots@.take(i as int)[k]);
                        }
                    }
                }
                assert forall|k: int| 0 <= k < i + 1 implies c3[#[trigger] roots@[k] as int] == Color::Black by {
                    if k < i {
                        assert(rank(c3[roots@[k] as int]) >= rank(c2[roots@[k] as int]));
                    } else {
                        assert(rank(c3[v as int]) >= rank(c2[v as int]));
                    }
                }
            }
            if tell(vis, g, TraverseEvent::FinishRootVertex(v), Ghost(l0)) == Control::Break {
                proof {
                    crate::trace::lemma_run_prefix_edge(g, ci, roots@, c1, rs, t1, 0);
                    assert(told(l0, vis.log()) =~= t1 + (seq![
                        TraverseEvent::DiscoverRootVertex(v),
                        TraverseEvent::DiscoverVertex(v),
                    ] + tb + seq![TraverseEvent::FinishRootVertex(v)]));
                    assert(dfs_event_ok(g, TraverseEvent::FinishRootVertex(v)));
                }
                return Control::Break;
            }
            proof {
                crate::trace::lemma_roots_white(g, c1, rs, t1, tb, told(l0, vis.log()), color@);
            }
        } else {
            proof {
                crate::trace::lemma_roots_seen(g, c1, rs);
                assert(color@[v as int] == Color::Black);
                assert forall|w: int| 0 <= w < color@.len() && #[trigger] color@[w] == Color::Black implies reached_from(
                    g,
                    roots@.take(i + 1),
                    w,
                ) by {
                    assert(reached_from(g, roots@.take(i as int), w));
                    let k = choose|k: int| 0 <= k < i && #[trigger] reachable(g, roots@.take(i as int)[k] as int, w);
                    assert(roots@.take(i + 1)[k] == roots@.take(i as int)[k]);
                }
            }
        }
        i += 1;
    }
    proof {
        assert(roots@.take(roots@.len() as int) =~= roots@);
        assert forall|v: int| 0 <= v < g.spec_num_vertices() && reached_from(g, roots@, v) implies #[trigger] color@[v]
            == Color::Black by {
            let k = choose|k: int| 0 <= k < roots@.len() && #[trigger] reachable(g, roots@[k] as int, v);
            assert(color@[roots@[k] as int] == Color::Black);
            lemma_closed_reach(g, color@, roots@[k] as int, v);
        }
    }
    proof {
        assert(roots@.skip(i as int) =~= Seq::<usize>::empty());
        assert(told(l0, vis.log()) =~= seq![TraverseEvent::Start] + roots_trace(g, ci, roots@).1);
    }
    let r = tell(vis, g, TraverseEvent::Finish, Ghost(l0));
    proof {
        assert(told(l0, vis.log()) =~= dfs_trace(g, ci, roots@));
        lemma_prefix_self(dfs_trace(g, ci, roots@), Seq::<TraverseEvent>::empty());
        assert(dfs_trace(g, ci, roots@) + Seq::<TraverseEvent>::empty() =~= dfs_trace(g, ci, roots@));
        assert(dfs_event_ok(g, TraverseEvent::Finish));
    }
    r
}

/// Searches the whole graph, from each vertex in turn.
pub fn dfs<V: Visitor>(g: &Static, vis: &mut V) -> (r: Control)
    requires
        g.wf(),
    ensures
        old(vis).never_breaks() ==> r == Control::Continue,
        old(vis).steady() && r == Control::Break ==> dfs_broke::<V>(g),
        old(vis).steady() && r == Control::Continue ==> final(vis).steady(),
        breaks_on_back_edges::<V>(g) && r == Control::Continue ==> !has_cycle(g),
        !g.spec_directed() && breaks_on_edges::<V>(g) && r == Control::Continue ==> g.spec_num_edges() == 0,
        g.spec_num_vertices() > 0 && V::must_break(g, TraverseEvent::DiscoverRootVertex(0)) ==> r == Control::Break,
        V::must_break(g, TraverseEvent::Start) ==> r == Control::Break,
        V::must_break(g, TraverseEvent::Finish) ==> r == Control::Break,
        passed_on(old(vis).log(), final(vis).log(), r),
        r == Control::Continue ==> told(old(vis).log(), final(vis).log()) == dfs_trace(
            g,
            all_white(g.spec_num_vertices()),
            vertex_seq(g.spec_num_vertices()),
        ),
        r == Control::Break ==> told(old(vis).log(), final(vis).log()).is_prefix_of(
            dfs_trace(g, all_white(g.spec_num_vertices()), vertex_seq(g.spec_num_vertices())),
        ),
{
    let roots = g.vertices();
    let mut color = vec_of(Color::White, g.num_vertices());
    proof {
        assert(color@ =~= all_white(g.spec_num_vertices()));
        assert(roots@ =~= vertex_seq(g.spec_num_vertices()));
    }
    let r = run(g, vis, &roots, &mut color);
    proof {
        if !g.spec_directed() && breaks_on_back_edges::<V>(g) && r == Control::Continue {
            assert forall|x: int| 0 <= x < color@.len() implies #[trigger] color@[x] == Color::Black by {
                lemma_reach_self(g, x);
                assert(roots@[x] == x);
                assert(reachable(g, roots@[x] as int, x));
            }
            let (p, d) = choose|p: Seq<Option<usize>>, d: Seq<nat>| #[trigger] forest_ok(
                g,
                color@,
                Seq::<(Option<usize>, usize, usize)>::empty(),
                p,
                d,
            );
            lemma_forest_done(g, color@, p, d);
        }
        if g.spec_directed() && breaks_on_back_edges::<V>(g) && r == Control::Continue {
            assert forall|x: int| 0 <= x < color@.len() implies #[trigger] color@[x] == Color::Black by {
                lemma_reach_self(g, x);
                assert(roots@[x] == x);
                assert(reachable(g, roots@[x] as int, x));
            }
            let (f, t) = choose|f: Seq<nat>, t: nat| #[trigger] order_ok(
                g,
                color@,
                Seq::<(Option<usize>, usize, usize)>::empty(),
                f,
                t,
            );
            lemma_order_done(g, color@, f, t);
        }
        if !g.spec_directed() && breaks_on_edges::<V>(g) && r == Control::Continue {
            assert forall|x: int| 0 <= x < g.spec_num_vertices() implies #[trigger] g.spec_out_edges(x).len() == 0 by {
                lemma_reach_self(g, x);
                assert(roots@[x] == x);
                assert(reachable(g, roots@[x] as int, x));
                assert(color@[x] == Color::Black);
            }
            lemma_no_out_edges(g);
        }
    }
    r
}

/// Searches from `root`.
pub fn dfs_with_root<V: Visitor>(g: &Static, root: usize, vis: &mut V) -> (r: Control)
    requires
        g.wf(),
        root < g.spec_num_vertices(),
    ensures
        old(vis).never_breaks() ==> r == Control::Continue,
        old(vis).steady() && r == Control::Break ==> dfs_broke::<V>(g),
        old(vis).steady() && r == Control::Continue ==> final(vis).steady(),
        V::must_break(g, TraverseEvent::DiscoverRootVertex(root)) ==> r == Control::Break,
        V::must_break(g, TraverseEvent::Start) ==> r == Control::Break,
        V::must_break(g, TraverseEvent::Finish) ==> r == Control::Break,
        passed_on(old(vis).log(), final(vis).log(), r),
        r == Control::Continue ==> told(old(vis).log(), final(vis).log()) == dfs_trace(
            g,
            all_white(g.spec_num_vertices()),
            seq![root],
        ),
        r == Control::Break ==> told(old(vis).log(), final(vis).log()).is_prefix_of(
            dfs_trace(g, all_white(g.spec_num_vertices()), seq![root]),
        ),
{
    let mut roots: Vec<usize> = Vec::new();
    roots.push(root);
    let mut color = vec_of(Color::White, g.num_vertices());
    proof {
        assert(color@ =~= all_white(g.spec_num_vertices()));
        assert(roots@ =~= seq![root]);
    }
    run(g, vis, &roots, &mut color)
}

/// `n` copies of `x`.
pub fn vec_of<T: Copy>(x: T, n: usize) -> (r: Vec<T>)
    ensures
        r@.len() == n,
        forall|i: int| 0 <= i < n ==> #[trigger] r@[i] == x,
{
    let mut r: Vec<T> = Vec::with_capacity(n);
    let mut i: usize = 0;
    while i < n
        invariant
            i <= n,
            r@.len() == i,
            forall|k: int| 0 <= k < i ==> #[trigger] r@[k] == x,
        decreases n - i,
    {
        r.push(x);
        i += 1;
    }
    r
}

} // verus!
