//! Visitors of searches: the questions a search answers by watching its events.
#![allow(non_snake_case)]
use vstd::prelude::*;
use crate::control::{Control, continue_if};
use crate::dfs::{TraverseEvent, Visitor, breaks_on_back_edges, breaks_on_edges, dfs_event_ok, has_cycle, is_cycle};
use crate::components::least_reacher;
use crate::graph::Static;
use crate::trace::{told, count_roots, lemma_count_roots_push, lemma_told_push};
use crate::components::ConnectedComponents;

verus! {

/// Passes every event to the inner visitor.
pub struct FnTraverseEvent<V: Visitor>(pub V, pub Ghost<Seq<(TraverseEvent, Control)>>);

impl<V: Visitor> FnTraverseEvent<V> {
    /// Wraps `inner`; nothing told yet.
    pub fn new(inner: V) -> (v: Self)
        ensures
            v.0 == inner,
            v.log() == Seq::<(TraverseEvent, Control)>::empty(),
    {
        FnTraverseEvent(inner, Ghost(Seq::empty()))
    }
}

impl<V: Visitor> Visitor for FnTraverseEvent<V> {
    closed spec fn log(&self) -> Seq<(TraverseEvent, Control)> {
        self.1@
    }

    open spec fn never_breaks(&self) -> bool {
        self.0.never_breaks()
    }

    open spec fn steady(&self) -> bool {
        self.0.steady()
    }

    open spec fn may_break(g: &Static, evt: TraverseEvent) -> bool {
        V::may_break(g, evt)
    }

    open spec fn must_break(g: &Static, evt: TraverseEvent) -> bool {
        V::must_break(g, evt)
    }

    fn visit(&mut self, g: &Static, evt: TraverseEvent) -> (r: Control) {
        let r = {
            self.0.visit(g, evt)
        };
        self.1 = Ghost(self.1@.push((evt, r)));
        r
    }
}

/// Passes the discoveries of roots to the inner visitor.
pub struct DiscoverRootVertex<V: Visitor>(pub V, pub Ghost<Seq<(TraverseEvent, Control)>>);

impl<V: Visitor> DiscoverRootVertex<V> {
    /// Wraps `inner`; nothing told yet.
    pub fn new(inner: V) -> (v: Self)
        ensures
            v.0 == inner,
            v.log() == Seq::<(TraverseEvent, Control)>::empty(),
    {
        DiscoverRootVertex(inner, Ghost(Seq::empty()))
    }
}

impl<V: Visitor> Visitor for DiscoverRootVertex<V> {
    closed spec fn log(&self) -> Seq<(TraverseEvent, Control)> {
        self.1@
    }

    open spec fn never_breaks(&self) -> bool {
        self.0.never_breaks()
    }

    /// The inner visitor is steady and was told of exactly the roots told to this one.
    open spec fn steady(&self) -> bool {
        &&& self.0.steady()
        &&& self.0.log().len() == count_roots(told(Seq::empty(), self.1@))
    }

    open spec fn may_break(g: &Static, evt: TraverseEvent) -> bool {
        evt is DiscoverRootVertex && V::may_break(g, evt)
    }

    open spec fn must_break(g: &Static, evt: TraverseEvent) -> bool {
        evt is DiscoverRootVertex && V::must_break(g, evt)
    }

    fn visit(&mut self, g: &Static, evt: TraverseEvent) -> (r: Control)
        ensures
            !(evt is DiscoverRootVertex) ==> r == Control::Continue && final(self).0 == old(self).0,
    {
        let r = {
            match evt {
                TraverseEvent::DiscoverRootVertex(_) => self.0.visit(g, evt),
                _ => Control::Continue,
            }
        };
        proof {
            lemma_told_push(Seq::empty(), self.1@, (evt, r));
            lemma_count_roots_push(told(Seq::empty(), self.1@), evt);
        }
        self.1 = Ghost(self.1@.push((evt, r)));
        r
    }
}

/// Passes the discoveries of tree edges to the inner visitor.
pub struct DiscoverTreeEdge<V: Visitor>(pub V, pub Ghost<Seq<(TraverseEvent, Control)>>);

impl<V: Visitor> DiscoverTreeEdge<V> {
    /// Wraps `inner`; nothing told yet.
    pub fn new(inner: V) -> (v: Self)
        ensures
            v.0 == inner,
            v.log() == Seq::<(TraverseEvent, Control)>::empty(),
    {
        DiscoverTreeEdge(inner, Ghost(Seq::empty()))
    }
}

impl<V: Visitor> Visitor for DiscoverTreeEdge<V> {
    closed spec fn log(&self) -> Seq<(TraverseEvent, Control)> {
        self.1@
    }

    open spec fn never_breaks(&self) -> bool {
        self.0.never_breaks()
    }

    open spec fn steady(&self) -> bool {
        self.0.steady()
    }

    open spec fn may_break(g: &Static, evt: TraverseEvent) -> bool {
        evt is DiscoverTreeEdge && V::may_break(g, evt)
    }

    open spec fn must_break(g: &Static, evt: TraverseEvent) -> bool {
        evt is DiscoverTreeEdge && V::must_break(g, evt)
    }

    fn visit(&mut self, g: &Static, evt: TraverseEvent) -> (r: Control)
        ensures
            !(evt is DiscoverTreeEdge) ==> r == Control::Continue && final(self).0 == old(self).0,
    {
        let r = {
            match evt {
                TraverseEvent::DiscoverTreeEdge(_) => self.0.visit(g, evt),
                _ => Control::Continue,
            }
        };
        self.1 = Ghost(self.1@.push((evt, r)));
        r
    }
}

/// Passes the discoveries of back edges to the inner visitor.
pub struct DiscoverBackEdge<V: Visitor>(pub V, pub Ghost<Seq<(TraverseEvent, Control)>>);

impl<V: Visitor> DiscoverBackEdge<V> {
    /// Wraps `inner`; nothing told yet.
    pub fn new(inner: V) -> (v: Self)
        ensures
            v.0 == inner,
            v.log() == Seq::<(TraverseEvent, Control)>::empty(),
    {
        DiscoverBackEdge(inner, Ghost(Seq::empty()))
    }
}

impl<V: Visitor> Visitor for DiscoverBackEdge<V> {
    closed spec fn log(&self) -> Seq<(TraverseEvent, Control)> {
        self.1@
    }

    open spec fn never_breaks(&self) -> bool {
        self.0.never_breaks()
    }

    open spec fn steady(&self) -> bool {
        self.0.steady()
    }

    open spec fn may_break(g: &Static, evt: TraverseEvent) -> bool {
        evt is DiscoverBackEdge && V::may_break(g, evt)
    }

    open spec fn must_break(g: &Static, evt: TraverseEvent) -> bool {
        evt is DiscoverBackEdge && V::must_break(g, evt)
    }

    fn visit(&mut self, g: &Static, evt: TraverseEvent) -> (r: Control)
        ensures
            !(evt is DiscoverBackEdge) ==> r == Control::Continue && final(self).0 == old(self).0,
    {
        let r = {
            match evt {
                TraverseEvent::DiscoverBackEdge(_) => self.0.visit(g, evt),
                _ => Control::Continue,
            }
        };
        self.1 = Ghost(self.1@.push((evt, r)));
        r
    }
}

/// Counts the events it sees.
pub struct Count {
    pub num: u64,
    pub log: Ghost<Seq<(TraverseEvent, Control)>>,
}

impl Visitor for Count {
    closed spec fn log(&self) -> Seq<(TraverseEvent, Control)> {
        self.log@
    }

    /// The count is the number of events told, up to the largest `u64`.
    open spec fn steady(&self) -> bool {
        self.num == if self.log@.len() < u64::MAX {
            self.log@.len() as int
        } else {
            u64::MAX as int
        }
    }

    open spec fn never_breaks(&self) -> bool {
        true
    }

    fn visit(&mut self, g: &Static, evt: TraverseEvent) -> (r: Control)
        ensures
            r == Control::Continue,
            final(self).num == (if old(self).num < u64::MAX {
                old(self).num + 1
            } else {
                old(self).num as int
            }),
    {
        let r = {
            if self.num < u64::MAX {
                self.num = self.num + 1;
            }
            Control::Continue
        };
        self.log = Ghost(self.log@.push((evt, r)));
        r
    }
}

/// Records, for each vertex, the time of its discovery and of its finish; the clock ticks at
/// each of these events.
pub struct DiscoverFinishTime {
    pub time: u64,
    pub discover: Vec<u64>,
    pub finish: Vec<u64>,
    pub log: Ghost<Seq<(TraverseEvent, Control)>>,
}

impl DiscoverFinishTime {
    /// The clock at zero, and every time zero, for the vertices of `g`.
    pub fn new(g: &Static) -> (r: Self)
        ensures
            r.time == 0,
            r.discover@ == Seq::new(g.spec_num_vertices() as nat, |i: int| 0u64),
            r.finish@ == Seq::new(g.spec_num_vertices() as nat, |i: int| 0u64),
    {
        let n = g.num_vertices();
        let mut discover: Vec<u64> = Vec::new();
        let mut finish: Vec<u64> = Vec::new();
        let mut i: usize = 0;
        while i < n
            invariant
                i <= n,
                n == g.spec_num_vertices(),
                discover@ == Seq::new(i as nat, |j: int| 0u64),
                finish@ == Seq::new(i as nat, |j: int| 0u64),
            decreases n - i,
        {
            discover.push(0);
            finish.push(0);
            i = i + 1;
        }
        DiscoverFinishTime { time: 0, discover, finish, log: Ghost(Seq::empty()) }
    }

    /// `ancestor` was discovered no later and finished no earlier than `u`.
    pub fn is_ancestor_of(&self, ancestor: usize, u: usize) -> (r: bool)
        requires
            ancestor < self.discover@.len(),
            ancestor < self.finish@.len(),
            u < self.discover@.len(),
            u < self.finish@.len(),
        ensures
            r == (self.discover@[ancestor as int] <= self.discover@[u as int] && self.finish@[u as int]
                <= self.finish@[ancestor as int]),
    {
        self.discover[ancestor] <= self.discover[u] && self.finish[u] <= self.finish[ancestor]
    }
}

impl Visitor for DiscoverFinishTime {
    closed spec fn log(&self) -> Seq<(TraverseEvent, Control)> {
        self.log@
    }

    open spec fn never_breaks(&self) -> bool {
        true
    }

    fn visit(&mut self, g: &Static, evt: TraverseEvent) -> (r: Control)
        ensures
            r == Control::Continue,
            match evt {
                TraverseEvent::DiscoverVertex(v) => v < old(self).discover@.len() ==> {
                    &&& final(self).discover@ == old(self).discover@.update(v as int, old(self).time)
                    &&& final(self).finish@ == old(self).finish@
                },
                TraverseEvent::FinishVertex(v) => v < old(self).finish@.len() ==> {
                    &&& final(self).finish@ == old(self).finish@.update(v as int, old(self).time)
                    &&& final(self).discover@ == old(self).discover@
                },
                _ => final(self).time == old(self).time && final(self).discover == old(self).discover
                    && final(self).finish == old(self).finish,
            },
            (evt is DiscoverVertex || evt is FinishVertex) && old(self).time < u64::MAX
                ==> final(self).time == old(self).time + 1,
    {
        let r = {
            match evt {
                TraverseEvent::DiscoverVertex(v) => {
                    if v < self.discover.len() {
                        self.discover.set(v, self.time);
                    }
                    self.tick();
                },
                TraverseEvent::FinishVertex(v) => {
                    if v < self.finish.len() {
                        self.finish.set(v, self.time);
                    }
                    self.tick();
                },
                _ => {},
            }
            Control::Continue
        };
        self.log = Ghost(self.log@.push((evt, r)));
        r
    }
}

impl DiscoverFinishTime {
    /// Advances the clock, which stops at its largest value.
    fn tick(&mut self)
        ensures
            final(self).discover == old(self).discover,
            final(self).finish == old(self).finish,
            final(self).log == old(self).log,
            final(self).time == (if old(self).time < u64::MAX {
                old(self).time + 1
            } else {
                old(self).time as int
            }),
    {
        if self.time < u64::MAX {
            self.time = self.time + 1;
        }
    }
}

/// Counts the searches that start: one for each root discovered.
pub fn NumComponents() -> (v: DiscoverRootVertex<Count>)
    ensures
        v.0.num == 0,
        v.steady(),
        v.log() == Seq::<(TraverseEvent, Control)>::empty(),
{
    DiscoverRootVertex::new(Count { num: 0, log: Ghost(Seq::empty()) })
}

/// Answers whether a search of the whole graph starts only once, stopping at the second
/// root.
pub struct IsConnected {
    pub connected: bool,
    pub saw_root: bool,
    pub log: Ghost<Seq<(TraverseEvent, Control)>>,
}

/// An `IsConnected` holding the answer `connected` until a search starts.
pub fn IsConnected(connected: bool) -> (v: IsConnected)
    ensures
        v.connected == connected,
        !v.saw_root,
        v.log() == Seq::<(TraverseEvent, Control)>::empty(),
{
    IsConnected { connected, saw_root: false, log: Ghost(Seq::empty()) }
}

impl Visitor for IsConnected {
    closed spec fn log(&self) -> Seq<(TraverseEvent, Control)> {
        self.log@
    }

    open spec fn never_breaks(&self) -> bool {
        false
    }

    fn visit(&mut self, g: &Static, evt: TraverseEvent) -> (r: Control)
        ensures
            match evt {
                TraverseEvent::Start => final(self).connected && !final(self).saw_root && r == Control::Continue,
                TraverseEvent::DiscoverRootVertex(_) => if old(self).saw_root {
                    !final(self).connected && final(self).saw_root && r == Control::Break
                } else {
                    final(self).connected == old(self).connected && final(self).saw_root && r == Control::Continue
                },
                _ => final(self).connected == old(self).connected && final(self).saw_root == old(self).saw_root
                    && r == Control::Continue,
            },
    {
        let r = {
            match evt {
                TraverseEvent::Start => {
                    self.connected = true;
                    self.saw_root = false;
                    Control::Continue
                },
                TraverseEvent::DiscoverRootVertex(_) => {
                    if self.saw_root {
                        self.connected = false;
                        Control::Break
                    } else {
                        self.saw_root = true;
                        Control::Continue
                    }
                },
                _ => Control::Continue,
            }
        };
        self.log = Ghost(self.log@.push((evt, r)));
        r
    }
}

/// A visitor that labels the vertices of `g` by their search, in the labels `comp`, which it
/// keeps as given until the search writes them; `g` only names the graph.
pub fn ConnectedComponents(g: &Static, comp: Vec<usize>) -> (cc: ConnectedComponents)
    ensures
        cc.labels() == comp@,
        cc.current() == 0,
{
    ConnectedComponents::with_labels(comp)
}

/// Answers whether the graph is a tree: as many edges as vertices less one, one search, and
/// no back edge.
pub struct IsTree {
    pub tree: bool,
    pub saw_root: bool,
    pub log: Ghost<Seq<(TraverseEvent, Control)>>,
}

/// An `IsTree` holding the answer `tree` until a search starts.
pub fn IsTree(tree: bool) -> (v: IsTree)
    ensures
        v.tree == tree,
        !v.saw_root,
        v.log() == Seq::<(TraverseEvent, Control)>::empty(),
{
    IsTree { tree, saw_root: false, log: Ghost(Seq::empty()) }
}

impl Visitor for IsTree {
    closed spec fn log(&self) -> Seq<(TraverseEvent, Control)> {
        self.log@
    }

    open spec fn never_breaks(&self) -> bool {
        false
    }

    fn visit(&mut self, g: &Static, evt: TraverseEvent) -> (r: Control)
        ensures
            match evt {
                TraverseEvent::Start => {
                    &&& final(self).tree == (g.spec_num_vertices() == 0 || g.spec_num_edges() + 1
                        == g.spec_num_vertices())
                    &&& !final(self).saw_root
                    &&& r == (if final(self).tree { Control::Continue } else { Control::Break })
                },
                TraverseEvent::DiscoverBackEdge(_) => !final(self).tree && final(self).saw_root
                    == old(self).saw_root && r == Control::Break,
                TraverseEvent::DiscoverRootVertex(_) => if old(self).saw_root {
                    !final(self).tree && final(self).saw_root && r == Control::Break
                } else {
                    final(self).tree == old(self).tree && final(self).saw_root && r == Control::Continue
                },
                _ => final(self).tree == old(self).tree && final(self).saw_root == old(self).saw_root && r
                    == Control::Continue,
            },
    {
        let r = {
            match evt {
                TraverseEvent::Start => {
                    self.saw_root = false;
                    let n = g.num_vertices();
                    self.tree = n == 0 || g.num_edges() == n - 1;
                    continue_if(self.tree)
                },
                TraverseEvent::DiscoverBackEdge(_) => {
                    self.tree = false;
                    Control::Break
                },
                TraverseEvent::DiscoverRootVertex(_) => {
                    if self.saw_root {
                        self.tree = false;
                        Control::Break
                    } else {
                        self.saw_root = true;
                        Control::Continue
                    }
                },
                _ => Control::Continue,
            }
        };
        self.log = Ghost(self.log@.push((evt, r)));
        r
    }
}

/// Answers whether the search meets no back edge.
pub struct IsAcyclic(pub bool, pub Ghost<Seq<(TraverseEvent, Control)>>);

impl IsAcyclic {
    /// The answer `b` so far; nothing told yet.
    pub fn new(b: bool) -> (v: Self)
        ensures
            v.0 == b,
            v.log() == Seq::<(TraverseEvent, Control)>::empty(),
    {
        IsAcyclic(b, Ghost(Seq::empty()))
    }
}

impl Visitor for IsAcyclic {
    closed spec fn log(&self) -> Seq<(TraverseEvent, Control)> {
        self.1@
    }

    open spec fn never_breaks(&self) -> bool {
        false
    }

    open spec fn steady(&self) -> bool {
        self.0
    }

    open spec fn may_break(g: &Static, evt: TraverseEvent) -> bool {
        evt is DiscoverBackEdge
    }

    open spec fn must_break(g: &Static, evt: TraverseEvent) -> bool {
        evt is DiscoverBackEdge
    }

    fn visit(&mut self, g: &Static, evt: TraverseEvent) -> (r: Control) {
        let r = {
            match evt {
                TraverseEvent::Start => {
                    self.0 = true;
                    Control::Continue
                },
                TraverseEvent::DiscoverBackEdge(_) => {
                    self.0 = false;
                    Control::Break
                },
                _ => Control::Continue,
            }
        };
        self.1 = Ghost(self.1@.push((evt, r)));
        r
    }
}

/// Answers whether every edge met is directed and no back edge is met.
pub struct IsDag(pub bool, pub Ghost<Seq<(TraverseEvent, Control)>>);

impl IsDag {
    /// The answer `b` so far; nothing told yet.
    pub fn new(b: bool) -> (v: Self)
        ensures
            v.0 == b,
            v.log() == Seq::<(TraverseEvent, Control)>::empty(),
    {
        IsDag(b, Ghost(Seq::empty()))
    }
}

impl Visitor for IsDag {
    closed spec fn log(&self) -> Seq<(TraverseEvent, Control)> {
        self.1@
    }

    open spec fn never_breaks(&self) -> bool {
        false
    }

    open spec fn steady(&self) -> bool {
        self.0
    }

    open spec fn may_break(g: &Static, evt: TraverseEvent) -> bool {
        (evt is DiscoverEdge && !g.spec_directed()) || evt is DiscoverBackEdge
    }

    open spec fn must_break(g: &Static, evt: TraverseEvent) -> bool {
        (evt is DiscoverEdge && !g.spec_directed()) || evt is DiscoverBackEdge
    }

    fn visit(&mut self, g: &Static, evt: TraverseEvent) -> (r: Control) {
        let r = {
            match evt {
                TraverseEvent::Start => {
                    self.0 = true;
                    Control::Continue
                },
                TraverseEvent::DiscoverEdge(_) => {
                    self.0 = self.0 && g.is_directed();
                    continue_if(self.0)
                },
                TraverseEvent::DiscoverBackEdge(_) => {
                    self.0 = false;
                    Control::Break
                },
                _ => Control::Continue,
            }
        };
        self.1 = Ghost(self.1@.push((evt, r)));
        r
    }
}

/// Whether the graph is a tree: it has as many edges as vertices less one, every vertex
/// is reached from the first, and it has no cycle (which a search with `IsTree` tells in one
/// pass).
pub fn is_tree(g: &Static) -> (r: bool)
    requires
        g.wf(),
    ensures
        r == ((g.spec_num_vertices() == 0 || g.spec_num_edges() + 1 == g.spec_num_vertices()) && (forall|v: int|
            0 <= v < g.spec_num_vertices() ==> #[trigger] least_reacher(g, v) == 0) && !has_cycle(g)),
{
    let n = g.num_vertices();
    if !(n == 0 || g.num_edges() == n - 1) {
        return false;
    }
    crate::components::is_connected(g) && is_acyclic(g)
}

/// Whether a depth-first search of the whole graph meets no back edge, that is, whether the
/// graph has no cycle.
pub fn is_acyclic(g: &Static) -> (r: bool)
    requires
        g.wf(),
    ensures
        r == !has_cycle(g),
{
    let mut vis = IsAcyclic::new(true);
    let c = crate::dfs::dfs(g, &mut vis);
    proof {
        if c == Control::Break {
            let evt = choose|evt: TraverseEvent| IsAcyclic::may_break(g, evt) && #[trigger] dfs_event_ok(g, evt);
            assert(evt is DiscoverBackEdge);
        }
        assert(breaks_on_back_edges::<IsAcyclic>(g));
    }
    vis.0 && c == Control::Continue
}

/// Whether every edge met is directed and a depth-first search meets no back edge: for a
/// directed graph, whether it has no cycle; for an undirected one, whether it has no edge.
pub fn is_dag(g: &Static) -> (r: bool)
    requires
        g.wf(),
    ensures
        g.spec_directed() ==> r == !has_cycle(g),
        !g.spec_directed() ==> r == (g.spec_num_edges() == 0),
{
    let mut vis = IsDag::new(true);
    let c = crate::dfs::dfs(g, &mut vis);
    proof {
        if c == Control::Break {
            let evt = choose|evt: TraverseEvent| IsDag::may_break(g, evt) && #[trigger] dfs_event_ok(g, evt);
            if !g.spec_directed() && evt is DiscoverBackEdge {
                let es = choose|es: Seq<usize>| #[trigger] is_cycle(g, es);
                assert(g.has_edge(es[0] as int));
            }
        }
        assert(breaks_on_back_edges::<IsDag>(g));
        if !g.spec_directed() {
            assert(breaks_on_edges::<IsDag>(g));
        }
    }
    vis.0 && c == Control::Continue
}

} // verus!
