//! Link-cut trees: a dynamic forest kept as splay trees of preferred paths, with the nodes
//! in an array and links given by position.
use vstd::prelude::*;

verus! {

/// A node: its number, whether its subtree is to be turned around, and its links.
#[derive(Clone, Copy, Debug)]
pub struct UnsafeCellNode {
    id: usize,
    revert: bool,
    parent: Option<usize>,
    left: Option<usize>,
    right: Option<usize>,
}

/// The links of a node of a link-cut tree.
pub trait Node {
    spec fn spec_parent(&self) -> Option<usize>;

    spec fn spec_left(&self) -> Option<usize>;

    spec fn spec_right(&self) -> Option<usize>;

    spec fn spec_revert(&self) -> bool;

    fn revert(&self) -> (r: bool)
        ensures
            r == self.spec_revert(),
    ;

    fn flip_revert(&mut self)
        ensures
            final(self).spec_revert() == !old(self).spec_revert(),
            final(self).spec_parent() == old(self).spec_parent(),
            final(self).spec_left() == old(self).spec_left(),
            final(self).spec_right() == old(self).spec_right(),
    ;

    fn left(&self) -> (r: Option<usize>)
        ensures
            r == self.spec_left(),
    ;

    fn set_left(&mut self, x: Option<usize>)
        ensures
            final(self).spec_left() == x,
            final(self).spec_parent() == old(self).spec_parent(),
            final(self).spec_right() == old(self).spec_right(),
            final(self).spec_revert() == old(self).spec_revert(),
    ;

    fn right(&self) -> (r: Option<usize>)
        ensures
            r == self.spec_right(),
    ;

    fn set_right(&mut self, x: Option<usize>)
        ensures
            final(self).spec_right() == x,
            final(self).spec_parent() == old(self).spec_parent(),
            final(self).spec_left() == old(self).spec_left(),
            final(self).spec_revert() == old(self).spec_revert(),
    ;

    fn parent(&self) -> (r: Option<usize>)
        ensures
            r == self.spec_parent(),
    ;

    fn set_parent(&mut self, x: Option<usize>)
        ensures
            final(self).spec_parent() == x,
            final(self).spec_left() == old(self).spec_left(),
            final(self).spec_right() == old(self).spec_right(),
            final(self).spec_revert() == old(self).spec_revert(),
    ;
}

impl UnsafeCellNode {
    /// The number of the node.
    pub closed spec fn spec_id(&self) -> usize {
        self.id
    }

    /// A node without links.
    pub fn new(id: usize) -> (r: Self)
        ensures
            r.spec_id() == id,
            r.spec_parent() is None,
            r.spec_left() is None,
            r.spec_right() is None,
            !r.spec_revert(),
    {
        UnsafeCellNode { id, revert: false, parent: None, left: None, right: None }
    }

    /// The number of the node.
    pub fn id(&self) -> (r: usize)
        ensures
            r == self.spec_id(),
    {
        self.id
    }
}

impl Node for UnsafeCellNode {
    closed spec fn spec_parent(&self) -> Option<usize> {
        self.parent
    }

    closed spec fn spec_left(&self) -> Option<usize> {
        self.left
    }

    closed spec fn spec_right(&self) -> Option<usize> {
        self.right
    }

    closed spec fn spec_revert(&self) -> bool {
        self.revert
    }

    fn revert(&self) -> (r: bool) {
        self.revert
    }

    fn flip_revert(&mut self) {
        self.revert = !self.revert;
    }

    fn left(&self) -> (r: Option<usize>) {
        self.left
    }

    fn set_left(&mut self, x: Option<usize>) {
        self.left = x;
    }

    fn right(&self) -> (r: Option<usize>) {
        self.right
    }

    fn set_right(&mut self, x: Option<usize>) {
        self.right = x;
    }

    fn parent(&self) -> (r: Option<usize>) {
        self.parent
    }

    fn set_parent(&mut self, x: Option<usize>) {
        self.parent = x;
    }
}

/// Which side of its parent a child is on.
#[derive(PartialEq, Eq, Structural, Clone, Copy, Debug)]
pub enum Dir {
    Left,
    Right,
}

/// A node is the root of its splay tree, or a child of `p` on one side.
#[derive(PartialEq, Eq, Structural, Clone, Copy, Debug)]
pub enum Kind {
    Root,
    Child(usize, Dir),
}

/// A link-cut tree on the nodes `0..n`. Besides the nodes, a ghost ranking in which every
/// parent link goes to a smaller rank: the parent links form trees.
pub struct LinkCutTree {
    nodes: Vec<UnsafeCellNode>,
    rank: Ghost<Seq<nat>>,
}

/// A link, if any, names a node.
pub open spec fn in_range(x: Option<usize>, n: int) -> bool {
    x matches Some(y) ==> y < n
}

impl LinkCutTree {
    /// The nodes.
    pub closed spec fn spec_nodes(&self) -> Seq<UnsafeCellNode> {
        self.nodes@
    }

    /// The number of nodes.
    pub open spec fn spec_len(&self) -> int {
        self.spec_nodes().len() as int
    }

    /// The parent of `x`.
    pub open spec fn sp(&self, x: int) -> Option<usize> {
        self.spec_nodes()[x].spec_parent()
    }

    /// The left child of `x`.
    pub open spec fn sl(&self, x: int) -> Option<usize> {
        self.spec_nodes()[x].spec_left()
    }

    /// The right child of `x`.
    pub open spec fn sr(&self, x: int) -> Option<usize> {
        self.spec_nodes()[x].spec_right()
    }

    /// The turn-around flag of `x`.
    pub open spec fn sf(&self, x: int) -> bool {
        self.spec_nodes()[x].spec_revert()
    }

    /// The ghost ranking of the nodes.
    pub closed spec fn spec_rank(&self) -> Seq<nat> {
        self.rank@
    }

    /// `z` is the left or the right child of `q`.
    pub open spec fn child_of(&self, z: int, q: int) -> bool {
        self.sl(q) == Some(z as usize) || self.sr(q) == Some(z as usize)
    }

    /// The links form a forest of trees of parent links: every child names its parent, and
    /// every parent link goes to a smaller rank.
    pub open spec fn linked(&self) -> bool {
        &&& self.wf()
        &&& self.spec_len() <= usize::MAX
        &&& self.spec_rank().len() == self.spec_len()
        &&& forall|z: int, q: int|
            0 <= z < self.spec_len() && 0 <= q < self.spec_len() && #[trigger] self.child_of(z, q) ==> self.sp(z)
                == Some(q as usize)
        &&& forall|z: int|
            0 <= z < self.spec_len() && (#[trigger] self.sp(z)) is Some ==> self.spec_rank()[self.sp(z)->0 as int]
                < self.spec_rank()[z]
        &&& forall|q: int| 0 <= q < self.spec_len() && (#[trigger] self.sl(q)) is Some ==> self.sl(q) != self.sr(q)
    }

    /// The node at the top of the tree of parent links of `z`. Every such tree holds the
    /// nodes of one tree of the represented forest, so two nodes are in the same tree of the
    /// forest exactly when they have the same top.
    pub open spec fn top(&self, z: int) -> int {
        top_k(*self, z, self.spec_rank()[z] + 1)
    }

    /// `a` and `b` are in the same tree of the represented forest.
    pub open spec fn connected(&self, a: int, b: int) -> bool {
        self.top(a) == self.top(b)
    }

    /// Every link names a node.
    pub open spec fn wf(&self) -> bool {
        forall|x: int|
            #![trigger self.sp(x)]
            #![trigger self.sl(x)]
            #![trigger self.sr(x)]
            0 <= x < self.spec_len() ==> in_range(self.sp(x), self.spec_len()) && in_range(self.sl(x), self.spec_len())
                && in_range(self.sr(x), self.spec_len())
    }

    /// The forest without edges on `n` nodes.
    pub fn new(n: usize) -> (t: Self)
        ensures
            t.wf(),
            t.linked(),
            forall|a: int, b: int| 0 <= a < n && 0 <= b < n ==> (#[trigger] t.connected(a, b) <==> a == b),
            t.spec_len() == n,
            forall|x: int|
                0 <= x < n ==> #[trigger] t.sp(x) is None && t.sl(x) is None && t.sr(x) is None && !t.sf(x)
                    && t.spec_nodes()[x].spec_id() == x,
    {
        let mut nodes: Vec<UnsafeCellNode> = Vec::with_capacity(n);
        let mut i: usize = 0;
        while i < n
            invariant
                i <= n,
                nodes@.len() == i,
                forall|x: int|
                    0 <= x < i ==> (#[trigger] nodes@[x]).spec_parent() is None && nodes@[x].spec_left() is None
                        && nodes@[x].spec_right() is None && !nodes@[x].spec_revert() && nodes@[x].spec_id() == x,
            decreases n - i,
        {
            nodes.push(UnsafeCellNode::new(i));
            i += 1;
        }
        let t = LinkCutTree { nodes, rank: Ghost(Seq::new(n as nat, |i: int| 0nat)) };
        proof {
            assert forall|y: int| 0 <= y < t.spec_len() implies in_range(#[trigger] t.sp(y), t.spec_len()) && in_range(
                t.sl(y),
                t.spec_len(),
            ) && in_range(t.sr(y), t.spec_len()) by {
                assert(t.sp(y) is None);
            }
            assert forall|a: int, b: int| 0 <= a < n && 0 <= b < n implies (#[trigger] t.connected(a, b) <==> a == b) by {
                lemma_top_step(t, a);
                lemma_top_step(t, b);
            }
        }
        t
    }

    /// The number of nodes.
    pub fn num_vertices(&self) -> (r: usize)
        ensures
            r == self.spec_len(),
    {
        self.nodes.len()
    }

    /// The parent of `x`.
    pub fn parent(&self, x: usize) -> (r: Option<usize>)
        requires
            x < self.spec_len(),
        ensures
            r == self.sp(x as int),
    {
        self.nodes[x].parent()
    }

    /// The left child of `x`.
    pub fn left(&self, x: usize) -> (r: Option<usize>)
        requires
            x < self.spec_len(),
        ensures
            r == self.sl(x as int),
    {
        self.nodes[x].left()
    }

    /// The right child of `x`.
    pub fn right(&self, x: usize) -> (r: Option<usize>)
        requires
            x < self.spec_len(),
        ensures
            r == self.sr(x as int),
    {
        self.nodes[x].right()
    }

    /// Whether the subtree of `x` is to be turned around.
    pub fn revert(&self, x: usize) -> (r: bool)
        requires
            x < self.spec_len(),
        ensures
            r == self.sf(x as int),
    {
        self.nodes[x].revert()
    }

    /// Sets the parent of `x`.
    pub fn set_parent(&mut self, x: usize, p: Option<usize>)
        requires
            old(self).wf(),
            x < old(self).spec_len(),
            in_range(p, old(self).spec_len()),
        ensures
            final(self).spec_rank() == old(self).spec_rank(),
            final(self).wf(),
            final(self).spec_len() == old(self).spec_len(),
            forall|y: int|
                0 <= y < old(self).spec_len() ==> #[trigger] final(self).sp(y) == (if y == x {
                    p
                } else {
                    old(self).sp(y)
                }),
            forall|y: int| 0 <= y < old(self).spec_len() ==> #[trigger] final(self).sl(y) == old(self).sl(y),
            forall|y: int| 0 <= y < old(self).spec_len() ==> #[trigger] final(self).sr(y) == old(self).sr(y),
            forall|y: int| 0 <= y < old(self).spec_len() ==> #[trigger] final(self).sf(y) == old(self).sf(y),
    {
        let mut nd = self.nodes[x];
        nd.set_parent(p);
        self.nodes.set(x, nd);
        proof {
            assert forall|y: int| 0 <= y < self.spec_len() implies #[trigger] self.spec_nodes()[y] == (if y == x {
                nd
            } else {
                old(self).spec_nodes()[y]
            }) by {
            }
            assert forall|y: int| 0 <= y < self.spec_len() implies in_range(#[trigger] self.sp(y), self.spec_len())
                && in_range(self.sl(y), self.spec_len()) && in_range(self.sr(y), self.spec_len()) by {
                assert(self.spec_nodes()[y] == (if y == x {
                    nd
                } else {
                    old(self).spec_nodes()[y]
                }));
                assert(in_range(old(self).sp(y), self.spec_len()));
                assert(in_range(old(self).sp(x as int), self.spec_len()));
            }
        }
    }

    /// Sets the left child of `x`, without touching the child.
    pub fn set_left(&mut self, x: usize, c: Option<usize>)
        requires
            old(self).wf(),
            x < old(self).spec_len(),
            in_range(c, old(self).spec_len()),
        ensures
            final(self).spec_rank() == old(self).spec_rank(),
            final(self).wf(),
            final(self).spec_len() == old(self).spec_len(),
            forall|y: int|
                0 <= y < old(self).spec_len() ==> #[trigger] final(self).sl(y) == (if y == x {
                    c
                } else {
                    old(self).sl(y)
                }),
            forall|y: int| 0 <= y < old(self).spec_len() ==> #[trigger] final(self).sp(y) == old(self).sp(y),
            forall|y: int| 0 <= y < old(self).spec_len() ==> #[trigger] final(self).sr(y) == old(self).sr(y),
            forall|y: int| 0 <= y < old(self).spec_len() ==> #[trigger] final(self).sf(y) == old(self).sf(y),
    {
        let mut nd = self.nodes[x];
        nd.set_left(c);
        self.nodes.set(x, nd);
        proof {
            assert forall|y: int| 0 <= y < self.spec_len() implies #[trigger] self.spec_nodes()[y] == (if y == x {
                nd
            } else {
                old(self).spec_nodes()[y]
            }) by {
            }
            assert forall|y: int| 0 <= y < self.spec_len() implies in_range(#[trigger] self.sp(y), self.spec_len())
                && in_range(self.sl(y), self.spec_len()) && in_range(self.sr(y), self.spec_len()) by {
                assert(self.spec_nodes()[y] == (if y == x {
                    nd
                } else {
                    old(self).spec_nodes()[y]
                }));
                assert(in_range(old(self).sp(y), self.spec_len()));
                assert(in_range(old(self).sp(x as int), self.spec_len()));
            }
        }
    }

    /// Sets the right child of `x`, without touching the child.
    pub fn set_right(&mut self, x: usize, c: Option<usize>)
        requires
            old(self).wf(),
            x < old(self).spec_len(),
            in_range(c, old(self).spec_len()),
        ensures
            final(self).spec_rank() == old(self).spec_rank(),
            final(self).wf(),
            final(self).spec_len() == old(self).spec_len(),
            forall|y: int|
                0 <= y < old(self).spec_len() ==> #[trigger] final(self).sr(y) == (if y == x {
                    c
                } else {
                    old(self).sr(y)
                }),
            forall|y: int| 0 <= y < old(self).spec_len() ==> #[trigger] final(self).sp(y) == old(self).sp(y),
            forall|y: int| 0 <= y < old(self).spec_len() ==> #[trigger] final(self).sl(y) == old(self).sl(y),
            forall|y: int| 0 <= y < old(self).spec_len() ==> #[trigger] final(self).sf(y) == old(self).sf(y),
    {
        let mut nd = self.nodes[x];
        nd.set_right(c);
        self.nodes.set(x, nd);
        proof {
            assert forall|y: int| 0 <= y < self.spec_len() implies #[trigger] self.spec_nodes()[y] == (if y == x {
                nd
            } else {
                old(self).spec_nodes()[y]
            }) by {
            }
            assert forall|y: int| 0 <= y < self.spec_len() implies in_range(#[trigger] self.sp(y), self.spec_len())
                && in_range(self.sl(y), self.spec_len()) && in_range(self.sr(y), self.spec_len()) by {
                assert(self.spec_nodes()[y] == (if y == x {
                    nd
                } else {
                    old(self).spec_nodes()[y]
                }));
                assert(in_range(old(self).sp(y), self.spec_len()));
                assert(in_range(old(self).sp(x as int), self.spec_len()));
            }
        }
    }

    /// Flips the turn-around flag of `x`.
    pub fn flip_revert(&mut self, x: usize)
        requires
            old(self).wf(),
            x < old(self).spec_len(),
        ensures
            final(self).spec_rank() == old(self).spec_rank(),
            final(self).wf(),
            final(self).spec_len() == old(self).spec_len(),
            forall|y: int|
                0 <= y < old(self).spec_len() ==> #[trigger] final(self).sf(y) == (if y == x {
                    !old(self).sf(y)
                } else {
                    old(self).sf(y)
                }),
            forall|y: int| 0 <= y < old(self).spec_len() ==> #[trigger] final(self).sp(y) == old(self).sp(y),
            forall|y: int| 0 <= y < old(self).spec_len() ==> #[trigger] final(self).sl(y) == old(self).sl(y),
            forall|y: int| 0 <= y < old(self).spec_len() ==> #[trigger] final(self).sr(y) == old(self).sr(y),
    {
        let mut nd = self.nodes[x];
        nd.flip_revert();
        self.nodes.set(x, nd);
        proof {
            assert forall|y: int| 0 <= y < self.spec_len() implies #[trigger] self.spec_nodes()[y] == (if y == x {
                nd
            } else {
                old(self).spec_nodes()[y]
            }) by {
            }
            assert forall|y: int| 0 <= y < self.spec_len() implies in_range(#[trigger] self.sp(y), self.spec_len())
                && in_range(self.sl(y), self.spec_len()) && in_range(self.sr(y), self.spec_len()) by {
                assert(self.spec_nodes()[y] == (if y == x {
                    nd
                } else {
                    old(self).spec_nodes()[y]
                }));
                assert(in_range(old(self).sp(y), self.spec_len()));
                assert(in_range(old(self).sp(x as int), self.spec_len()));
            }
        }
    }

    /// Makes `c` the left child of `x`, and `x` the parent of `c`.
    pub fn connect_left(&mut self, x: usize, c: Option<usize>)
        requires
            old(self).wf(),
            x < old(self).spec_len(),
            in_range(c, old(self).spec_len()),
        ensures
            final(self).spec_rank() == old(self).spec_rank(),
            final(self).wf(),
            final(self).spec_len() == old(self).spec_len(),
            forall|y: int|
                0 <= y < old(self).spec_len() ==> {
                    &&& #[trigger] final(self).sl(y) == if y == x {
                        c
                    } else {
                        old(self).sl(y)
                    }
                    &&& final(self).sp(y) == if c is Some && c->0 == y {
                        Some(x)
                    } else {
                        old(self).sp(y)
                    }
                    &&& final(self).sr(y) == old(self).sr(y)
                    &&& final(self).sf(y) == old(self).sf(y)
                },
    {
        self.set_left(x, c);
        let ghost mid = *self;
        if let Some(c) = c {
            self.set_parent(c, Some(x));
        }
        proof {
            assert forall|y: int| 0 <= y < old(self).spec_len() implies #[trigger] self.sl(y) == mid.sl(y) && self.sr(y)
                == mid.sr(y) && self.sf(y) == mid.sf(y) && self.sp(y) == (if c is Some && c->0 == y {
                Some(x)
            } else {
                mid.sp(y)
            }) by {
            }
        }
    }

    /// Makes `c` the right child of `x`, and `x` the parent of `c`.
    pub fn connect_right(&mut self, x: usize, c: Option<usize>)
        requires
            old(self).wf(),
            x < old(self).spec_len(),
            in_range(c, old(self).spec_len()),
        ensures
            final(self).spec_rank() == old(self).spec_rank(),
            final(self).wf(),
            final(self).spec_len() == old(self).spec_len(),
            forall|y: int|
                0 <= y < old(self).spec_len() ==> {
                    &&& #[trigger] final(self).sr(y) == if y == x {
                        c
                    } else {
                        old(self).sr(y)
                    }
                    &&& final(self).sp(y) == if c is Some && c->0 == y {
                        Some(x)
                    } else {
                        old(self).sp(y)
                    }
                    &&& final(self).sl(y) == old(self).sl(y)
                    &&& final(self).sf(y) == old(self).sf(y)
                },
    {
        self.set_right(x, c);
        let ghost mid = *self;
        if let Some(c) = c {
            self.set_parent(c, Some(x));
        }
        proof {
            assert forall|y: int| 0 <= y < old(self).spec_len() implies #[trigger] self.sl(y) == mid.sl(y) && self.sr(y)
                == mid.sr(y) && self.sf(y) == mid.sf(y) && self.sp(y) == (if c is Some && c->0 == y {
                Some(x)
            } else {
                mid.sp(y)
            }) by {
            }
        }
    }

    /// Whether `x` is the root of its splay tree or a child of its parent, and on which
    /// side.
    pub fn kind(&self, x: usize) -> (r: Kind)
        requires
            self.wf(),
            x < self.spec_len(),
        ensures
            r == (match self.sp(x as int) {
                Some(p) => if self.sl(p as int) == Some(x) {
                    Kind::Child(p, Dir::Left)
                } else if self.sr(p as int) == Some(x) {
                    Kind::Child(p, Dir::Right)
                } else {
                    Kind::Root
                },
                None => Kind::Root,
            }),
    {
        if let Some(p) = self.parent(x) {
            if self.left(p) == Some(x) {
                return Kind::Child(p, Dir::Left);
            }
            if self.right(p) == Some(x) {
                return Kind::Child(p, Dir::Right);
            }
        }
        Kind::Root
    }
}


/// Following at most `k` parent links up from `z`.
pub open spec fn top_k(t: LinkCutTree, z: int, k: nat) -> int
    decreases k,
{
    if k == 0 {
        z
    } else {
        match t.sp(z) {
            Some(q) => top_k(t, q as int, (k - 1) as nat),
            None => z,
        }
    }
}

/// With more steps than its rank, the climb from `z` ends at a node without parent.
pub proof fn lemma_top_k(t: LinkCutTree, z: int, k: nat)
    requires
        t.linked(),
        0 <= z < t.spec_len(),
        k > t.spec_rank()[z],
    ensures
        top_k(t, z, k) == t.top(z),
        0 <= t.top(z) < t.spec_len(),
        t.sp(t.top(z)) is None,
    decreases k,
{
    match t.sp(z) {
        Some(q) => {
            assert(t.spec_rank()[q as int] < t.spec_rank()[z]);
            assert(in_range(t.sp(z), t.spec_len()));
            lemma_top_k(t, q as int, (k - 1) as nat);
            lemma_top_k(t, q as int, t.spec_rank()[z]);
        },
        None => {
        },
    }
}

/// The top of a node is the top of its parent, or the node itself without parent.
pub proof fn lemma_top_step(t: LinkCutTree, z: int)
    requires
        t.linked(),
        0 <= z < t.spec_len(),
    ensures
        t.sp(z) matches Some(q) ==> t.top(z) == t.top(q as int),
        t.sp(z) is None ==> t.top(z) == z,
        0 <= t.top(z) < t.spec_len(),
        t.sp(t.top(z)) is None,
{
    lemma_top_k(t, z, t.spec_rank()[z] + 1);
    if let Some(q) = t.sp(z) {
        assert(t.spec_rank()[q as int] < t.spec_rank()[z]);
        assert(in_range(t.sp(z), t.spec_len()));
        lemma_top_k(t, q as int, t.spec_rank()[z]);
    }
}

/// A function that is constant along parent links and is the identity on nodes without
/// parent is the top.
pub proof fn lemma_top_unique(t: LinkCutTree, f: spec_fn(int) -> int, z: int)
    requires
        t.linked(),
        0 <= z < t.spec_len(),
        forall|y: int| 0 <= y < t.spec_len() && (#[trigger] t.sp(y)) is Some ==> f(y) == f(t.sp(y)->0 as int),
        forall|y: int| 0 <= y < t.spec_len() && (#[trigger] t.sp(y)) is None ==> f(y) == y,
    ensures
        t.top(z) == f(z),
    decreases t.spec_rank()[z],
{
    lemma_top_step(t, z);
    if let Some(q) = t.sp(z) {
        assert(t.spec_rank()[q as int] < t.spec_rank()[z]);
        assert(in_range(t.sp(z), t.spec_len()));
        lemma_top_unique(t, f, q as int);
    }
}

/// `t2` is `t1` after rotating `x` above its parent `p`: `x` takes the place of `p` under the
/// parent of `p`, `p` becomes the child of `x` on the side away from which `x` was, and the
/// inner child of `x` moves to `p`.
pub open spec fn rotated(t1: LinkCutTree, t2: LinkCutTree, x: int) -> bool {
    let p = t1.sp(x)->0 as int;
    let pp = t1.sp(p);
    let xl = t1.sl(p) == Some(x as usize);
    let c = if xl { t1.sr(x) } else { t1.sl(x) };
    &&& t2.spec_len() == t1.spec_len()
    &&& forall|y: int|
        0 <= y < t1.spec_len() ==> {
            &&& #[trigger] t2.sp(y) == if y == x {
                pp
            } else if y == p {
                Some(x as usize)
            } else if c == Some(y as usize) {
                Some(p as usize)
            } else {
                t1.sp(y)
            }
            &&& t2.sl(y) == if xl && y == p {
                c
            } else if !xl && y == x {
                Some(p as usize)
            } else if pp == Some(y as usize) && t1.sl(y) == Some(p as usize) {
                Some(x as usize)
            } else {
                t1.sl(y)
            }
            &&& t2.sr(y) == if xl && y == x {
                Some(p as usize)
            } else if !xl && y == p {
                c
            } else if pp == Some(y as usize) && t1.sl(y) != Some(p as usize) && t1.sr(y) == Some(p as usize) {
                Some(x as usize)
            } else {
                t1.sr(y)
            }
            &&& t2.sf(y) == t1.sf(y)
        }
}

/// The ranking after rotating `x` above its parent `p`: doubled, with `x` at the old place
/// of `p` and `p` just below it.
pub open spec fn rot_rank(t: LinkCutTree, x: int) -> Seq<nat> {
    let p = t.sp(x)->0 as int;
    Seq::new(
        t.spec_rank().len(),
        |z: int|
            if z == x {
                2 * t.spec_rank()[p]
            } else if z == p {
                2 * t.spec_rank()[p] + 1
            } else {
                2 * t.spec_rank()[z]
            },
    )
}

/// After a rotation the links still form a forest, and each tree keeps its nodes; only the
/// top changes from `p` to `x` when `p` was the top.
pub proof fn lemma_rotate_forest(t1: LinkCutTree, t2: LinkCutTree, x: int)
    requires
        t1.linked(),
        0 <= x < t1.spec_len(),
        t1.sp(x) is Some,
        t1.child_of(x, t1.sp(x)->0 as int),
        rotated(t1, t2, x),
        t2.spec_rank() == rot_rank(t1, x),
    ensures
        t2.linked(),
        forall|z: int|
            0 <= z < t1.spec_len() ==> #[trigger] t2.top(z) == if t1.top(z) == t1.sp(x)->0 && t1.sp(
                t1.sp(x)->0 as int,
            ) is None {
                x
            } else {
                t1.top(z)
            },
        forall|a: int, b: int|
            0 <= a < t1.spec_len() && 0 <= b < t1.spec_len() ==> (#[trigger] t2.connected(a, b) <==> t1.connected(a, b)),
{
    let n = t1.spec_len();
    let p = t1.sp(x)->0 as int;
    let pp = t1.sp(p);
    let xl = t1.sl(p) == Some(x as usize);
    let c = if xl { t1.sr(x) } else { t1.sl(x) };
    let r = t1.spec_rank();
    assert(in_range(t1.sp(x), n));
    assert(in_range(t1.sp(p), n));
    assert(in_range(t1.sl(x), n));
    assert(in_range(t1.sr(x), n));
    assert(t1.sp(x) == Some(p as usize));
    assert(r[p] < r[x]);
    if let Some(q) = pp {
        assert(r[q as int] < r[p]);
    }
    if let Some(cc) = c {
        assert(t1.child_of(cc as int, x));
        assert(t1.sp(cc as int) == Some(x as usize));
        assert(r[x] < r[cc as int]);
    }
    // the new tree is well formed
    assert forall|y: int| 0 <= y < n implies in_range(#[trigger] t2.sp(y), n) && in_range(t2.sl(y), n) && in_range(
        t2.sr(y),
        n,
    ) by {
        assert(in_range(t1.sp(y), n));
        assert(in_range(t1.sl(y), n));
        assert(in_range(t1.sr(y), n));
    }
    assert(t2.wf());
    assert forall|z: int, q: int| 0 <= z < n && 0 <= q < n && #[trigger] t2.child_of(z, q) implies t2.sp(z) == Some(
        q as usize,
    ) by {
        assert(in_range(t1.sl(q), n));
        assert(in_range(t1.sr(q), n));
        if t1.child_of(z, q) {
            assert(t1.sp(z) == Some(q as usize));
        }
        if t1.sl(q) is Some {
            assert(t1.sl(q) != t1.sr(q));
        }
        if t1.sl(x) is Some {
            assert(t1.sl(x) != t1.sr(x));
        }
        if t1.sl(p) is Some {
            assert(t1.sl(p) != t1.sr(p));
        }
        if let Some(w) = t1.sl(x) {
            assert(t1.child_of(w as int, x));
        }
        if let Some(w) = t1.sr(x) {
            assert(t1.child_of(w as int, x));
        }
        if let Some(w) = t1.sl(p) {
            assert(t1.child_of(w as int, p));
        }
        if let Some(w) = t1.sr(p) {
            assert(t1.child_of(w as int, p));
        }
    }
    assert forall|z: int| 0 <= z < n && (#[trigger] t2.sp(z)) is Some implies t2.spec_rank()[t2.sp(z)->0 as int]
        < t2.spec_rank()[z] by {
        if z != x && z != p && c != Some(z as usize) {
            assert(t1.sp(z) == t2.sp(z));
            assert(in_range(t1.sp(z), n));
            let q = t1.sp(z)->0 as int;
            assert(r[q] < r[z]);
            if q == x {
                assert(r[p] < r[z]);
            }
        }
    }
    assert forall|q: int| 0 <= q < n && (#[trigger] t2.sl(q)) is Some implies t2.sl(q) != t2.sr(q) by {
        assert(in_range(t1.sl(q), n));
        assert(in_range(t1.sr(q), n));
        if t1.sl(q) is Some {
            assert(t1.sl(q) != t1.sr(q));
        }
        if let Some(w) = t1.sl(x) {
            assert(t1.child_of(w as int, x));
        }
        if let Some(w) = t1.sr(x) {
            assert(t1.child_of(w as int, x));
        }
        if let Some(w) = t1.sl(p) {
            assert(t1.child_of(w as int, p));
        }
        if let Some(w) = t1.sr(p) {
            assert(t1.child_of(w as int, p));
        }
        if let Some(w) = t1.sl(q) {
            assert(t1.child_of(w as int, q));
        }
        if let Some(w) = t1.sr(q) {
            assert(t1.child_of(w as int, q));
        }
    }
    assert(t2.linked());
    // the tops
    let f = |z: int| if t1.top(z) == p && pp is None { x } else { t1.top(z) };
    lemma_top_step(t1, x);
    lemma_top_step(t1, p);
    assert forall|y: int| 0 <= y < n && (#[trigger] t2.sp(y)) is Some implies f(y) == f(t2.sp(y)->0 as int) by {
        lemma_top_step(t1, y);
        if let Some(q) = pp {
            lemma_top_step(t1, q as int);
        }
        if let Some(cc) = c {
            lemma_top_step(t1, cc as int);
        }
        if y != x && y != p && c != Some(y as usize) {
            assert(in_range(t1.sp(y), n));
            lemma_top_step(t1, t1.sp(y)->0 as int);
        }
    }
    assert forall|y: int| 0 <= y < n && (#[trigger] t2.sp(y)) is None implies f(y) == y by {
        lemma_top_step(t1, y);
    }
    assert forall|z: int| 0 <= z < n implies #[trigger] t2.top(z) == f(z) by {
        lemma_top_unique(t2, f, z);
    }
    assert forall|a: int, b: int| 0 <= a < n && 0 <= b < n implies (#[trigger] t2.connected(a, b) <==> t1.connected(
        a,
        b,
    )) by {
        assert(t2.top(a) == f(a));
        assert(t2.top(b) == f(b));
        lemma_top_step(t1, a);
        lemma_top_step(t1, b);
    }
}

/// Outside the tree of `c` in `t0`, `t` has the links and flags of `t0`.
pub open spec fn untouched(t0: LinkCutTree, t: LinkCutTree, c: int) -> bool {
    forall|z: int|
        0 <= z < t0.spec_len() && !t0.connected(z, c) ==> #[trigger] t.sp(z) == t0.sp(z) && t.sl(z) == t0.sl(z)
            && t.sr(z) == t0.sr(z) && t.sf(z) == t0.sf(z)
}

/// The top of a node is that of the root of its splay tree.
proof fn lemma_sroot_top(t: LinkCutTree, z: int)
    requires
        t.linked(),
        0 <= z < t.spec_len(),
    ensures
        t.top(z) == t.top(sroot(t, z)),
    decreases t.spec_rank()[z],
{
    lemma_sroot_step(t, z);
    if !is_sroot(t, z) {
        let q = t.sp(z)->0 as int;
        assert(in_range(t.sp(z), t.spec_len()));
        assert(t.spec_rank()[q] < t.spec_rank()[z]);
        lemma_top_step(t, z);
        lemma_sroot_top(t, q);
    }
}

/// Outside the trees of `a` and of `b` in `t0`, `t` has the links and flags of `t0`.
pub open spec fn untouched_both(t0: LinkCutTree, t: LinkCutTree, a: int, b: int) -> bool {
    forall|z: int|
        0 <= z < t0.spec_len() && !t0.connected(z, a) && !t0.connected(z, b) ==> #[trigger] t.sp(z) == t0.sp(z) && t.sl(z)
            == t0.sl(z) && t.sr(z) == t0.sr(z) && t.sf(z) == t0.sf(z)
}

/// A splay in the tree of `c` leaves the other trees alone.
proof fn lemma_untouched_splay(t0: LinkCutTree, tb: LinkCutTree, t1: LinkCutTree, c: int, y: int)
    requires
        tb.linked(),
        tb.spec_len() == t0.spec_len(),
        untouched(t0, tb, c),
        same_forest(t0, tb),
        0 <= c < t0.spec_len(),
        0 <= y < t0.spec_len(),
        tb.connected(y, c),
        frame_ok(tb, t1, sroot(tb, y)),
    ensures
        untouched(t0, t1, c),
{
    assert forall|z: int| 0 <= z < t0.spec_len() && !t0.connected(z, c) implies #[trigger] t1.sp(z) == t0.sp(z)
        && t1.sl(z) == t0.sl(z) && t1.sr(z) == t0.sr(z) && t1.sf(z) == t0.sf(z) by {
        assert(tb.connected(z, c) == t0.connected(z, c));
        lemma_sroot_top(tb, z);
        lemma_sroot_top(tb, y);
        assert(tb.sp(z) == t0.sp(z));
    }
}

/// `t1` and `t2` have the same trees: two nodes are connected in one exactly when they are in
/// the other.
pub open spec fn same_forest(t1: LinkCutTree, t2: LinkCutTree) -> bool {
    forall|a: int, b: int|
        0 <= a < t1.spec_len() && 0 <= b < t1.spec_len() ==> (#[trigger] t2.connected(a, b) <==> t1.connected(a, b))
}

pub proof fn lemma_same_forest_trans(t0: LinkCutTree, t1: LinkCutTree, t2: LinkCutTree)
    requires
        same_forest(t0, t1),
        same_forest(t1, t2),
        t1.spec_len() == t0.spec_len(),
    ensures
        same_forest(t0, t2),
{
    assert forall|a: int, b: int| 0 <= a < t0.spec_len() && 0 <= b < t0.spec_len() implies (#[trigger] t2.connected(
        a,
        b,
    ) <==> t0.connected(a, b)) by {
        assert(t1.connected(a, b) <==> t0.connected(a, b));
    }
}

/// `t2` has the same links as `t1`, but for children that may have swapped sides.
pub open spec fn same_links(t1: LinkCutTree, t2: LinkCutTree) -> bool {
    &&& t2.spec_len() == t1.spec_len()
    &&& t2.spec_rank() == t1.spec_rank()
    &&& t2.wf()
    &&& forall|y: int| 0 <= y < t1.spec_len() ==> #[trigger] t2.sp(y) == t1.sp(y)
    &&& forall|y: int|
        0 <= y < t1.spec_len() ==> (t2.sl(y) == t1.sl(y) && t2.sr(y) == t1.sr(y)) || (#[trigger] t2.sl(y) == t1.sr(y)
            && t2.sr(y) == t1.sl(y))
}

/// The same parent links give the same forest.
pub proof fn lemma_same_links(t1: LinkCutTree, t2: LinkCutTree)
    requires
        same_links(t1, t2),
    ensures
        t1.linked() ==> t2.linked(),
        forall|z: int| 0 <= z < t1.spec_len() ==> #[trigger] t2.top(z) == t1.top(z),
{
    let n = t1.spec_len();
    assert forall|z: int, k: nat| 0 <= z < n implies #[trigger] top_k(t2, z, k) == top_k(t1, z, k) by {
        lemma_top_k_same(t1, t2, z, k);
    }
    if t1.linked() {
        assert forall|z: int, q: int| 0 <= z < n && 0 <= q < n && #[trigger] t2.child_of(z, q) implies t2.sp(z) == Some(
            q as usize,
        ) by {
            assert(t2.sl(q) == t2.sl(q));
            assert(t1.child_of(z, q));
        }
        assert forall|z: int| 0 <= z < n && (#[trigger] t2.sp(z)) is Some implies t2.spec_rank()[t2.sp(z)->0 as int]
            < t2.spec_rank()[z] by {
            assert(t1.sp(z) == t2.sp(z));
        }
        assert forall|q: int| 0 <= q < n && (#[trigger] t2.sl(q)) is Some implies t2.sl(q) != t2.sr(q) by {
            if t1.sl(q) is Some {
                assert(t1.sl(q) != t1.sr(q));
            }
            if t1.sr(q) is Some && t1.sl(q) is None {
            }
        }
    }
}

proof fn lemma_top_k_same(t1: LinkCutTree, t2: LinkCutTree, z: int, k: nat)
    requires
        t2.spec_len() == t1.spec_len(),
        forall|y: int| 0 <= y < t1.spec_len() ==> #[trigger] t2.sp(y) == t1.sp(y),
        t2.wf(),
        0 <= z < t1.spec_len(),
    ensures
        top_k(t2, z, k) == top_k(t1, z, k),
    decreases k,
{
    if k > 0 {
        assert(t2.sp(z) == t1.sp(z));
        assert(in_range(t2.sp(z), t1.spec_len()));
        if let Some(q) = t1.sp(z) {
            lemma_top_k_same(t1, t2, q as int, (k - 1) as nat);
        }
    }
}

/// `z` is the root of its splay tree: it is not a child of its parent.
pub open spec fn is_sroot(t: LinkCutTree, z: int) -> bool {
    !(t.sp(z) matches Some(q) && t.child_of(z, q as int))
}

/// Following at most `k` child-to-parent links up from `z`.
pub open spec fn sroot_k(t: LinkCutTree, z: int, k: nat) -> int
    decreases k,
{
    if k == 0 || is_sroot(t, z) {
        z
    } else {
        sroot_k(t, t.sp(z)->0 as int, (k - 1) as nat)
    }
}

/// The root of the splay tree of `z`.
pub open spec fn sroot(t: LinkCutTree, z: int) -> int {
    sroot_k(t, z, t.spec_rank()[z] + 1)
}

proof fn lemma_sroot_k(t: LinkCutTree, z: int, k: nat)
    requires
        t.linked(),
        0 <= z < t.spec_len(),
        k > t.spec_rank()[z],
    ensures
        sroot_k(t, z, k) == sroot(t, z),
        0 <= sroot(t, z) < t.spec_len(),
        is_sroot(t, sroot(t, z)),
    decreases k,
{
    if !is_sroot(t, z) {
        let q = t.sp(z)->0 as int;
        assert(t.spec_rank()[q] < t.spec_rank()[z]);
        assert(in_range(t.sp(z), t.spec_len()));
        lemma_sroot_k(t, q, (k - 1) as nat);
        lemma_sroot_k(t, q, t.spec_rank()[z]);
    }
}

/// The root of the splay tree of a child is that of its parent.
pub proof fn lemma_sroot_step(t: LinkCutTree, z: int)
    requires
        t.linked(),
        0 <= z < t.spec_len(),
    ensures
        is_sroot(t, z) ==> sroot(t, z) == z,
        !is_sroot(t, z) ==> sroot(t, z) == sroot(t, t.sp(z)->0 as int),
        0 <= sroot(t, z) < t.spec_len(),
        is_sroot(t, sroot(t, z)),
{
    lemma_sroot_k(t, z, t.spec_rank()[z] + 1);
    if !is_sroot(t, z) {
        let q = t.sp(z)->0 as int;
        assert(t.spec_rank()[q] < t.spec_rank()[z]);
        assert(in_range(t.sp(z), t.spec_len()));
        lemma_sroot_k(t, q, t.spec_rank()[z]);
    }
}

/// `ch` climbs from `ch[0]` by child-to-parent links to the root of its splay tree.
pub open spec fn chain_ok(t: LinkCutTree, ch: Seq<usize>) -> bool {
    &&& ch.len() >= 1
    &&& forall|i: int| 0 <= i < ch.len() ==> #[trigger] ch[i] < t.spec_len()
    &&& forall|i: int|
        0 <= i < ch.len() - 1 ==> t.sp(#[trigger] ch[i] as int) == Some(ch[i + 1]) && t.child_of(
            ch[i] as int,
            ch[i + 1] as int,
        )
    &&& is_sroot(t, ch.last() as int)
}

/// Every node of a chain has the end of the chain as the root of its splay tree, and a
/// rank no smaller than the end.
proof fn lemma_chain_sroot(t: LinkCutTree, ch: Seq<usize>, i: int)
    requires
        t.linked(),
        chain_ok(t, ch),
        0 <= i < ch.len(),
    ensures
        sroot(t, ch[i] as int) == ch.last(),
        t.spec_rank()[ch.last() as int] <= t.spec_rank()[ch[i] as int],
    decreases ch.len() - i,
{
    lemma_sroot_step(t, ch[i] as int);
    if i < ch.len() - 1 {
        assert(t.sp(ch[i] as int) == Some(ch[i + 1]));
        assert(t.spec_rank()[ch[i + 1] as int] < t.spec_rank()[ch[i] as int]);
        lemma_chain_sroot(t, ch, i + 1);
    }
}

/// The chain from `x` to the root of its splay tree.
proof fn chain_of(t: LinkCutTree, x: int) -> (ch: Seq<usize>)
    requires
        t.linked(),
        0 <= x < t.spec_len(),
    ensures
        chain_ok(t, ch),
        ch[0] == x,
    decreases t.spec_rank()[x],
{
    if is_sroot(t, x) {
        seq![x as usize]
    } else {
        let q = t.sp(x)->0 as int;
        assert(t.spec_rank()[q] < t.spec_rank()[x]);
        assert(in_range(t.sp(x), t.spec_len()));
        let rest = chain_of(t, q);
        let ch = seq![x as usize] + rest;
        assert forall|i: int| 0 <= i < ch.len() - 1 implies t.sp(#[trigger] ch[i] as int) == Some(ch[i + 1])
            && t.child_of(ch[i] as int, ch[i + 1] as int) by {
            if i > 0 {
                assert(ch[i] == rest[i - 1]);
                assert(ch[i + 1] == rest[i]);
            }
        }
        assert forall|i: int| 0 <= i < ch.len() implies #[trigger] ch[i] < t.spec_len() by {
            if i > 0 {
                assert(ch[i] == rest[i - 1]);
            }
        }
        ch
    }
}

/// Outside the splay tree of `t0` with root `r0`, `t` has the links and flags of `t0`.
pub open spec fn frame_ok(t0: LinkCutTree, t: LinkCutTree, r0: int) -> bool {
    forall|z: int|
        0 <= z < t0.spec_len() && sroot(t0, z) != r0 ==> #[trigger] t.sp(z) == t0.sp(z) && t.sl(z) == t0.sl(z) && t.sr(z)
            == t0.sr(z) && t.sf(z) == t0.sf(z)
}

/// In `t`, the children of the nodes of the splay tree of `t0` with root `r0` are nodes of it.
pub open spec fn closed_ok(t0: LinkCutTree, t: LinkCutTree, r0: int) -> bool {
    forall|z: int, q: int|
        0 <= z < t.spec_len() && 0 <= q < t.spec_len() && #[trigger] t.child_of(z, q) && sroot(t0, q) == r0 ==> sroot(
            t0,
            z,
        ) == r0
}

/// Ranks fall along a chain.
proof fn lemma_chain_rank(t: LinkCutTree, ch: Seq<usize>, i: int, j: int)
    requires
        t.linked(),
        chain_ok(t, ch),
        0 <= i < j < ch.len(),
    ensures
        t.spec_rank()[ch[j] as int] < t.spec_rank()[ch[i] as int],
    decreases j - i,
{
    assert(t.sp(ch[i] as int) == Some(ch[i + 1]));
    assert(t.spec_rank()[ch[i + 1] as int] < t.spec_rank()[ch[i] as int]);
    if i + 1 < j {
        lemma_chain_rank(t, ch, i + 1, j);
    }
}

/// Rotating the first node of a chain above the second removes the second from the chain.
proof fn lemma_rotate_chain0(t1: LinkCutTree, t2: LinkCutTree, ch: Seq<usize>)
    requires
        t1.linked(),
        t2.linked(),
        chain_ok(t1, ch),
        ch.len() >= 2,
        rotated(t1, t2, ch[0] as int),
    ensures
        chain_ok(t2, seq![ch[0]] + ch.skip(2)),
        t2.sp((seq![ch[0]] + ch.skip(2)).last() as int) == t1.sp(ch.last() as int),
{
    let n = t1.spec_len();
    let x = ch[0] as int;
    let p = ch[1] as int;
    assert(t1.sp(x) == Some(ch[1]));
    assert(t1.child_of(x, p));
    let pp = t1.sp(p);
    let xl = t1.sl(p) == Some(x as usize);
    let c = if xl { t1.sr(x) } else { t1.sl(x) };
    let r = t1.spec_rank();
    assert(in_range(t1.sl(x), n));
    assert(in_range(t1.sr(x), n));
    assert(in_range(t1.sp(p), n));
    if let Some(cc) = c {
        assert(t1.child_of(cc as int, x));
        assert(r[x] < r[cc as int]);
    }
    lemma_chain_rank(t1, ch, 0, 1);
    let nc = seq![ch[0]] + ch.skip(2);
    if ch.len() == 2 {
        assert(nc =~= seq![ch[0]]);
        if let Some(q) = pp {
            assert(!t1.child_of(p, q as int));
            assert(t1.sl(q as int) != Some(x as usize)) by {
                if t1.sl(q as int) == Some(x as usize) {
                    assert(t1.child_of(x, q as int));
                }
            }
            assert(t1.sr(q as int) != Some(x as usize)) by {
                if t1.sr(q as int) == Some(x as usize) {
                    assert(t1.child_of(x, q as int));
                }
            }
        }
    } else {
        assert(t1.sp(p) == Some(ch[2]));
        assert(t1.child_of(p, ch[2] as int));
        assert forall|k: int| 2 <= k < ch.len() implies r[#[trigger] ch[k] as int] < r[p] by {
            lemma_chain_rank(t1, ch, 1, k);
        }
        assert forall|i: int| 0 <= i < nc.len() implies #[trigger] nc[i] < n by {
            if i > 0 {
                assert(nc[i] == ch[i + 1]);
            }
        }
        assert forall|i: int| 0 <= i < nc.len() - 1 implies t2.sp(#[trigger] nc[i] as int) == Some(nc[i + 1])
            && t2.child_of(nc[i] as int, nc[i + 1] as int) by {
            if i > 0 {
                assert(nc[i] == ch[i + 1]);
                assert(nc[i + 1] == ch[i + 2]);
                assert(t1.sp(ch[i + 1] as int) == Some(ch[i + 2]));
                assert(t1.child_of(ch[i + 1] as int, ch[i + 2] as int));
                assert(r[ch[i + 2] as int] < r[ch[i + 1] as int]);
            } else {
                assert(nc[1] == ch[2]);
            }
        }
        let last = ch.last() as int;
        assert(nc.last() == ch.last());
        assert(r[last] < r[p]);
        if let Some(q) = t1.sp(last) {
            assert(r[q as int] < r[last]);
            assert(in_range(t1.sp(last), n));
        }
    }
}

/// Rotating the second node of a chain above the third, when the first is on the same side,
/// removes the third from the chain.
proof fn lemma_rotate_chain1(t1: LinkCutTree, t2: LinkCutTree, ch: Seq<usize>)
    requires
        t1.linked(),
        t2.linked(),
        chain_ok(t1, ch),
        ch.len() >= 3,
        rotated(t1, t2, ch[1] as int),
        (t1.sl(ch[2] as int) == Some(ch[1])) == (t1.sl(ch[1] as int) == Some(ch[0])),
    ensures
        chain_ok(t2, seq![ch[0], ch[1]] + ch.skip(3)),
        t2.sp((seq![ch[0], ch[1]] + ch.skip(3)).last() as int) == t1.sp(ch.last() as int),
{
    let n = t1.spec_len();
    let x = ch[0] as int;
    let p = ch[1] as int;
    let g = ch[2] as int;
    assert(t1.sp(x) == Some(ch[1]));
    assert(t1.child_of(x, p));
    assert(t1.sp(p) == Some(ch[2]));
    assert(t1.child_of(p, g));
    let gg = t1.sp(g);
    let pl = t1.sl(g) == Some(p as usize);
    let c = if pl { t1.sr(p) } else { t1.sl(p) };
    let r = t1.spec_rank();
    assert(in_range(t1.sl(p), n));
    assert(in_range(t1.sr(p), n));
    assert(in_range(t1.sp(g), n));
    if t1.sl(p) is Some {
        assert(t1.sl(p) != t1.sr(p));
    }
    if let Some(cc) = c {
        assert(t1.child_of(cc as int, p));
        assert(r[p] < r[cc as int]);
    }
    lemma_chain_rank(t1, ch, 0, 1);
    lemma_chain_rank(t1, ch, 1, 2);
    let nc = seq![ch[0], ch[1]] + ch.skip(3);
    assert(c != Some(x as usize));
    assert(t2.sp(x) == Some(p as usize));
    assert(t2.child_of(x, p));
    if ch.len() == 3 {
        assert(nc =~= seq![ch[0], ch[1]]);
        if let Some(q) = gg {
            assert(!t1.child_of(g, q as int));
            assert(t1.sl(q as int) != Some(p as usize)) by {
                if t1.sl(q as int) == Some(p as usize) {
                    assert(t1.child_of(p, q as int));
                }
            }
            assert(t1.sr(q as int) != Some(p as usize)) by {
                if t1.sr(q as int) == Some(p as usize) {
                    assert(t1.child_of(p, q as int));
                }
            }
        }
    } else {
        assert(t1.sp(g) == Some(ch[3]));
        assert(t1.child_of(g, ch[3] as int));
        assert forall|k: int| 3 <= k < ch.len() implies r[#[trigger] ch[k] as int] < r[g] by {
            lemma_chain_rank(t1, ch, 2, k);
        }
        assert forall|i: int| 0 <= i < nc.len() implies #[trigger] nc[i] < n by {
            if i > 1 {
                assert(nc[i] == ch[i + 1]);
            }
        }
        assert forall|i: int| 0 <= i < nc.len() - 1 implies t2.sp(#[trigger] nc[i] as int) == Some(nc[i + 1])
            && t2.child_of(nc[i] as int, nc[i + 1] as int) by {
            if i > 1 {
                assert(nc[i] == ch[i + 1]);
                assert(nc[i + 1] == ch[i + 2]);
                assert(t1.sp(ch[i + 1] as int) == Some(ch[i + 2]));
                assert(t1.child_of(ch[i + 1] as int, ch[i + 2] as int));
                assert(r[ch[i + 2] as int] < r[ch[i + 1] as int]);
            } else if i == 1 {
                assert(nc[2] == ch[3]);
            }
        }
        let last = ch.last() as int;
        assert(nc.last() == ch.last());
        assert(r[last] < r[g]);
        if let Some(q) = t1.sp(last) {
            assert(r[q as int] < r[last]);
            assert(in_range(t1.sp(last), n));
        }
    }
}

/// A rotation inside the splay tree of `t0` with root `r0` keeps everything outside it, and
/// keeps it closed under children.
proof fn lemma_rotate_frame(t0: LinkCutTree, t1: LinkCutTree, t2: LinkCutTree, x: int, r0: int)
    requires
        t1.linked(),
        0 <= x < t1.spec_len(),
        t1.sp(x) is Some,
        t1.child_of(x, t1.sp(x)->0 as int),
        rotated(t1, t2, x),
        sroot(t0, x) == r0,
        sroot(t0, t1.sp(x)->0 as int) == r0,
        t1.sp(t1.sp(x)->0 as int) is Some && t1.child_of(t1.sp(x)->0 as int, t1.sp(t1.sp(x)->0 as int)->0 as int)
            ==> sroot(t0, t1.sp(t1.sp(x)->0 as int)->0 as int) == r0,
        closed_ok(t0, t1, r0),
        frame_ok(t0, t1, r0),
        t0.spec_len() == t1.spec_len(),
    ensures
        frame_ok(t0, t2, r0),
        closed_ok(t0, t2, r0),
{
    let n = t1.spec_len();
    let p = t1.sp(x)->0 as int;
    let pp = t1.sp(p);
    let xl = t1.sl(p) == Some(x as usize);
    let c = if xl { t1.sr(x) } else { t1.sl(x) };
    assert(in_range(t1.sl(x), n));
    assert(in_range(t1.sr(x), n));
    assert(in_range(t1.sp(x), n));
    assert(in_range(t1.sp(p), n));
    if let Some(cc) = c {
        assert(t1.child_of(cc as int, x));
    }
    if let Some(q) = pp {
        if t1.sl(q as int) == Some(p as usize) || t1.sr(q as int) == Some(p as usize) {
            assert(t1.child_of(p, q as int));
        }
    }
    assert forall|z: int| 0 <= z < n && sroot(t0, z) != r0 implies #[trigger] t2.sp(z) == t0.sp(z) && t2.sl(z) == t0.sl(z) && t2.sr(
        z,
    ) == t0.sr(z) && t2.sf(z) == t0.sf(z) by {
        assert(t1.sp(z) == t0.sp(z));
    }
    assert forall|z: int, q: int|
        0 <= z < n && 0 <= q < n && #[trigger] t2.child_of(z, q) && sroot(t0, q) == r0 implies sroot(t0, z) == r0 by {
        assert(t2.sp(q) == t2.sp(q) && t2.sp(z) == t2.sp(z));
        if q != x && q != p && pp != Some(q as usize) {
            assert(t2.sl(q) == t1.sl(q) && t2.sr(q) == t1.sr(q));
            assert(t1.child_of(z, q));
        }
        if pp == Some(q as usize) && q != x && q != p && z != x {
            assert(t1.child_of(z, q));
        }
        if let Some(w) = t1.sl(x) {
            assert(t1.child_of(w as int, x));
        }
        if let Some(w) = t1.sr(x) {
            assert(t1.child_of(w as int, x));
        }
        if let Some(w) = t1.sl(p) {
            assert(t1.child_of(w as int, p));
        }
        if let Some(w) = t1.sr(p) {
            assert(t1.child_of(w as int, p));
        }
    }
}

/// A splay of `x` begun in `t0`, where the splay tree of `x` had the root `r0`, has come to
/// `t`: `ch` climbs from `x` to the current root of that splay tree, whose parent link is
/// that of `r0` in `t0`; nothing outside the splay tree changed.
#[verifier::opaque]
pub open spec fn splaying(t0: LinkCutTree, r0: int, t: LinkCutTree, ch: Seq<usize>, x: int) -> bool {
    &&& t.linked()
    &&& t0.linked()
    &&& t.spec_len() == t0.spec_len()
    &&& same_forest(t0, t)
    &&& chain_ok(t, ch)
    &&& ch[0] == x
    &&& t.sp(ch.last() as int) == t0.sp(r0)
    &&& forall|i: int| 0 <= i < ch.len() ==> sroot(t0, #[trigger] ch[i] as int) == r0
    &&& frame_ok(t0, t, r0)
    &&& closed_ok(t0, t, r0)
}

/// A splay begins with the chain from `x` to the root of its splay tree.
proof fn lemma_splay_start(t0: LinkCutTree, x: int) -> (ch: Seq<usize>)
    requires
        t0.linked(),
        0 <= x < t0.spec_len(),
    ensures
        splaying(t0, sroot(t0, x), t0, ch, x),
{
    reveal(splaying);
    let ch = chain_of(t0, x);
    let r0 = sroot(t0, x);
    let n = t0.spec_len();
    lemma_chain_sroot(t0, ch, 0);
    assert forall|i: int| 0 <= i < ch.len() implies sroot(t0, #[trigger] ch[i] as int) == r0 by {
        lemma_chain_sroot(t0, ch, i);
    }
    assert forall|a: int, b: int|
        0 <= a < n && 0 <= b < n && #[trigger] t0.child_of(a, b) && sroot(t0, b) == r0 implies sroot(t0, a) == r0 by {
        lemma_sroot_step(t0, a);
    }
    assert(ch.last() == ch[ch.len() - 1]);
    assert(sroot(t0, ch[ch.len() - 1] as int) == r0);
    lemma_sroot_step(t0, ch.last() as int);
    ch
}

/// A splay ends when `x` is the root of its splay tree.
proof fn lemma_splay_done(t0: LinkCutTree, r0: int, t: LinkCutTree, ch: Seq<usize>, x: int)
    requires
        splaying(t0, r0, t, ch, x),
        is_sroot(t, x),
    ensures
        t.linked(),
        t.spec_len() == t0.spec_len(),
        same_forest(t0, t),
        t.sp(x) == t0.sp(r0),
        frame_ok(t0, t, r0),
        closed_ok(t0, t, r0),
{
    reveal(splaying);
    if ch.len() >= 2 {
        assert(t.sp(x) == Some(ch[1]));
        assert(t.child_of(x, ch[1] as int));
    }
}

/// The number of parent links up from `z`, following at most `k`.
pub open spec fn depth_k(t: LinkCutTree, z: int, k: nat) -> nat
    decreases k,
{
    if k == 0 {
        0
    } else {
        match t.sp(z) {
            Some(q) => depth_k(t, q as int, (k - 1) as nat) + 1,
            None => 0,
        }
    }
}

/// The number of parent links from `z` up to the top of its tree.
pub open spec fn depth(t: LinkCutTree, z: int) -> nat {
    depth_k(t, z, t.spec_rank()[z] + 1)
}

proof fn lemma_depth_k(t: LinkCutTree, z: int, k: nat)
    requires
        t.linked(),
        0 <= z < t.spec_len(),
        k > t.spec_rank()[z],
    ensures
        depth_k(t, z, k) == depth(t, z),
    decreases k,
{
    if let Some(q) = t.sp(z) {
        assert(t.spec_rank()[q as int] < t.spec_rank()[z]);
        assert(in_range(t.sp(z), t.spec_len()));
        lemma_depth_k(t, q as int, (k - 1) as nat);
        lemma_depth_k(t, q as int, t.spec_rank()[z]);
    }
}

/// The depth of a node is one more than that of its parent.
proof fn lemma_depth_step(t: LinkCutTree, z: int)
    requires
        t.linked(),
        0 <= z < t.spec_len(),
    ensures
        t.sp(z) matches Some(q) ==> depth(t, z) == depth(t, q as int) + 1,
        t.sp(z) is None ==> depth(t, z) == 0,
{
    lemma_depth_k(t, z, t.spec_rank()[z] + 1);
    if let Some(q) = t.sp(z) {
        assert(t.spec_rank()[q as int] < t.spec_rank()[z]);
        assert(in_range(t.sp(z), t.spec_len()));
        lemma_depth_k(t, q as int, t.spec_rank()[z]);
    }
}

/// Depths do not grow along a chain.
proof fn lemma_chain_depth(t: LinkCutTree, ch: Seq<usize>, i: int)
    requires
        t.linked(),
        chain_ok(t, ch),
        0 <= i < ch.len(),
    ensures
        depth(t, ch.last() as int) <= depth(t, ch[i] as int),
    decreases ch.len() - i,
{
    if i < ch.len() - 1 {
        assert(t.sp(ch[i] as int) == Some(ch[i + 1]));
        lemma_depth_step(t, ch[i] as int);
        lemma_chain_depth(t, ch, i + 1);
    }
}

/// The root of the splay tree of `z` has a rank no larger than `z`.
proof fn lemma_sroot_rank(t: LinkCutTree, z: int)
    requires
        t.linked(),
        0 <= z < t.spec_len(),
    ensures
        t.spec_rank()[sroot(t, z)] <= t.spec_rank()[z],
{
    let ch = chain_of(t, z);
    lemma_chain_sroot(t, ch, 0);
}

/// A node ranked below the root `r0` of a splay tree, and everything above it, lie outside
/// that splay tree; so a change inside it keeps its depth.
proof fn lemma_depth_frame(t0: LinkCutTree, t: LinkCutTree, r0: int, z: int)
    requires
        t0.linked(),
        t.linked(),
        t.spec_len() == t0.spec_len(),
        frame_ok(t0, t, r0),
        0 <= r0 < t0.spec_len(),
        0 <= z < t0.spec_len(),
        t0.spec_rank()[z] < t0.spec_rank()[r0],
    ensures
        depth(t, z) == depth(t0, z),
    decreases t0.spec_rank()[z],
{
    lemma_sroot_rank(t0, z);
    assert(sroot(t0, z) != r0);
    assert(t.sp(z) == t0.sp(z));
    lemma_depth_step(t, z);
    lemma_depth_step(t0, z);
    if let Some(q) = t0.sp(z) {
        assert(t0.spec_rank()[q as int] < t0.spec_rank()[z]);
        assert(in_range(t0.sp(z), t0.spec_len()));
        lemma_depth_frame(t0, t, r0, q as int);
    }
}

/// Making `c` (a node whose parent link is `y` and that is not a child of `y`), or nothing,
/// the left child of `y` keeps the forest.
proof fn lemma_set_left_forest(t1: LinkCutTree, t2: LinkCutTree, y: int, c: Option<usize>)
    requires
        t1.linked(),
        0 <= y < t1.spec_len(),
        t2.wf(),
        t2.spec_len() == t1.spec_len(),
        t2.spec_rank() == t1.spec_rank(),
        forall|z: int| 0 <= z < t1.spec_len() ==> #[trigger] t2.sp(z) == t1.sp(z) && t2.sr(z) == t1.sr(z),
        forall|z: int| 0 <= z < t1.spec_len() && z != y ==> #[trigger] t2.sl(z) == t1.sl(z),
        t2.sl(y) == c,
        c matches Some(w) ==> w < t1.spec_len() && t1.sp(w as int) == Some(y as usize) && !t1.child_of(w as int, y),
    ensures
        t2.linked(),
        same_forest(t1, t2),
        forall|z: int| 0 <= z < t1.spec_len() ==> #[trigger] t2.top(z) == t1.top(z),
{
    let n = t1.spec_len();
    assert forall|z: int, k: nat| 0 <= z < n implies #[trigger] top_k(t2, z, k) == top_k(t1, z, k) by {
        lemma_top_k_same(t1, t2, z, k);
    }
    assert forall|z: int, q: int| 0 <= z < n && 0 <= q < n && #[trigger] t2.child_of(z, q) implies t2.sp(z) == Some(
        q as usize,
    ) by {
        if q != y || t2.sl(q) != Some(z as usize) {
            assert(t1.child_of(z, q));
        }
    }
    assert forall|z: int| 0 <= z < n && (#[trigger] t2.sp(z)) is Some implies t2.spec_rank()[t2.sp(z)->0 as int]
        < t2.spec_rank()[z] by {
        assert(t1.sp(z) == t2.sp(z));
    }
    assert forall|q: int| 0 <= q < n && (#[trigger] t2.sl(q)) is Some implies t2.sl(q) != t2.sr(q) by {
        if q != y {
            assert(t1.sl(q) != t1.sr(q));
        } else if let Some(w) = t1.sr(y) {
            assert(t1.child_of(w as int, y));
        }
    }
}

proof fn lemma_depth_k_same(t1: LinkCutTree, t2: LinkCutTree, z: int, k: nat)
    requires
        t2.spec_len() == t1.spec_len(),
        forall|y: int| 0 <= y < t1.spec_len() ==> #[trigger] t2.sp(y) == t1.sp(y),
        t2.wf(),
        0 <= z < t1.spec_len(),
    ensures
        depth_k(t2, z, k) == depth_k(t1, z, k),
    decreases k,
{
    if k > 0 {
        assert(t2.sp(z) == t1.sp(z));
        assert(in_range(t2.sp(z), t1.spec_len()));
        if let Some(q) = t1.sp(z) {
            lemma_depth_k_same(t1, t2, q as int, (k - 1) as nat);
        }
    }
}

/// The ranking after linking the tree of `x`, whose top is `x`, under `y`: the tree of `x`
/// moves above the rank of `y`.
pub open spec fn link_rank(t: LinkCutTree, x: int, y: int) -> Seq<nat> {
    Seq::new(
        t.spec_rank().len(),
        |z: int|
            if t.top(z) == x {
                t.spec_rank()[z] + t.spec_rank()[y] + 1
            } else {
                t.spec_rank()[z]
            },
    )
}

/// Giving `x`, the top of its tree, the parent link `y` in another tree joins the two trees.
proof fn lemma_link_forest(t0: LinkCutTree, t1: LinkCutTree, t2: LinkCutTree, x: int, y: int)
    requires
        t0.linked(),
        t1.linked(),
        t1.spec_len() == t0.spec_len(),
        same_forest(t0, t1),
        0 <= x < t1.spec_len(),
        0 <= y < t1.spec_len(),
        t1.sp(x) is None,
        !t0.connected(x, y),
        t2.wf(),
        t2.spec_len() == t1.spec_len(),
        t2.spec_rank() == link_rank(t1, x, y),
        forall|z: int|
            0 <= z < t1.spec_len() ==> #[trigger] t2.sp(z) == (if z == x {
                Some(y as usize)
            } else {
                t1.sp(z)
            }) && t2.sl(z) == t1.sl(z) && t2.sr(z) == t1.sr(z),
    ensures
        t2.linked(),
        forall|a: int, b: int|
            0 <= a < t0.spec_len() && 0 <= b < t0.spec_len() ==> (#[trigger] t2.connected(a, b) <==> t0.connected(a, b)
                || (t0.connected(a, x) && t0.connected(y, b)) || (t0.connected(a, y) && t0.connected(x, b))),
{
    let n = t1.spec_len();
    lemma_top_step(t1, x);
    lemma_top_step(t1, y);
    assert(!t1.connected(x, y));
    assert forall|z: int, q: int| 0 <= z < n && 0 <= q < n && #[trigger] t2.child_of(z, q) implies t2.sp(z) == Some(
        q as usize,
    ) by {
        assert(t1.child_of(z, q));
    }
    assert forall|z: int| 0 <= z < n && (#[trigger] t2.sp(z)) is Some implies t2.spec_rank()[t2.sp(z)->0 as int]
        < t2.spec_rank()[z] by {
        lemma_top_step(t1, z);
        if z != x {
            assert(in_range(t1.sp(z), n));
            lemma_top_step(t1, t1.sp(z)->0 as int);
        }
    }
    assert forall|q: int| 0 <= q < n && (#[trigger] t2.sl(q)) is Some implies t2.sl(q) != t2.sr(q) by {
        assert(t1.sl(q) != t1.sr(q));
    }
    assert(t2.linked());
    let f = |z: int| if t1.top(z) == x { t1.top(y) } else { t1.top(z) };
    assert forall|z: int| 0 <= z < n && (#[trigger] t2.sp(z)) is Some implies f(z) == f(t2.sp(z)->0 as int) by {
        lemma_top_step(t1, z);
        if z != x {
            assert(in_range(t1.sp(z), n));
            lemma_top_step(t1, t1.sp(z)->0 as int);
        }
    }
    assert forall|z: int| 0 <= z < n && (#[trigger] t2.sp(z)) is None implies f(z) == z by {
        lemma_top_step(t1, z);
    }
    assert forall|z: int| 0 <= z < n implies #[trigger] t2.top(z) == f(z) by {
        lemma_top_unique(t2, f, z);
    }
    assert forall|a: int, b: int| 0 <= a < n && 0 <= b < n implies (#[trigger] t2.connected(a, b) <==> t0.connected(a, b)
        || (t0.connected(a, x) && t0.connected(y, b)) || (t0.connected(a, y) && t0.connected(x, b))) by {
        assert(t2.top(a) == f(a));
        assert(t2.top(b) == f(b));
        assert(t1.connected(a, b) == t0.connected(a, b));
        assert(t1.connected(a, x) == t0.connected(a, x));
        assert(t1.connected(y, b) == t0.connected(y, b));
        assert(t1.connected(a, y) == t0.connected(a, y));
        assert(t1.connected(x, b) == t0.connected(x, b));
        lemma_top_step(t1, a);
        lemma_top_step(t1, b);
    }
}

/// After dropping the parent link of `r`, a child of the top `y`, each top is the old one or,
/// for the part below `r`, `r`.
proof fn lemma_cut_top(t1: LinkCutTree, t3: LinkCutTree, r: Option<usize>, y: int, z: int)
    requires
        t1.linked(),
        t3.linked(),
        t3.spec_len() == t1.spec_len(),
        t3.spec_rank() == t1.spec_rank(),
        0 <= y < t1.spec_len(),
        t1.sp(y) is None,
        r matches Some(rr) ==> rr < t1.spec_len() && t1.sp(rr as int) == Some(y as usize),
        forall|w: int| 0 <= w < t1.spec_len() ==> #[trigger] t3.sp(w) == (if r == Some(w as usize) {
            None
        } else {
            t1.sp(w)
        }),
        0 <= z < t1.spec_len(),
    ensures
        t3.top(z) == t1.top(z) || (r == Some(t3.top(z) as usize) && t1.top(z) == y),
    decreases t1.spec_rank()[z],
{
    lemma_top_step(t1, z);
    lemma_top_step(t3, z);
    if let Some(q) = t3.sp(z) {
        assert(t1.sp(z) == Some(q));
        assert(t1.spec_rank()[q as int] < t1.spec_rank()[z]);
        assert(in_range(t1.sp(z), t1.spec_len()));
        lemma_cut_top(t1, t3, r, y, q as int);
    } else if r == Some(z as usize) {
        lemma_top_step(t1, y);
    }
}

/// Dropping the parent link of the right child `r` of the top `y`, and the child link, splits
/// the tree of `y` in two and keeps the others.
proof fn lemma_cut_forest(t0: LinkCutTree, t1: LinkCutTree, t2: LinkCutTree, t3: LinkCutTree, y: int)
    requires
        t0.linked(),
        t1.linked(),
        t1.spec_len() == t0.spec_len(),
        same_forest(t0, t1),
        0 <= y < t1.spec_len(),
        t1.sp(y) is None,
        t3.wf(),
        t3.spec_len() == t1.spec_len(),
        t3.spec_rank() == t1.spec_rank(),
        forall|w: int| 0 <= w < t1.spec_len() ==> #[trigger] t3.sp(w) == (if t1.sr(y) == Some(w as usize) {
            None
        } else {
            t1.sp(w)
        }) && t3.sl(w) == t1.sl(w) && t3.sr(w) == (if w == y {
            None
        } else {
            t1.sr(w)
        }),
    ensures
        t3.linked(),
        cut_apart(t0, t3, y),
{
    let n = t1.spec_len();
    let r = t1.sr(y);
    assert(in_range(t1.sr(y), n));
    if let Some(rr) = r {
        assert(t1.child_of(rr as int, y));
    }
    assert forall|z: int, q: int| 0 <= z < n && 0 <= q < n && #[trigger] t3.child_of(z, q) implies t3.sp(z) == Some(
        q as usize,
    ) by {
        assert(t1.child_of(z, q));
        if r == Some(z as usize) {
            assert(t1.sp(z) == Some(y as usize));
            assert(t1.sl(y) != t1.sr(y));
        }
    }
    assert forall|z: int| 0 <= z < n && (#[trigger] t3.sp(z)) is Some implies t3.spec_rank()[t3.sp(z)->0 as int]
        < t3.spec_rank()[z] by {
        assert(t1.sp(z) == t3.sp(z));
    }
    assert forall|q: int| 0 <= q < n && (#[trigger] t3.sl(q)) is Some implies t3.sl(q) != t3.sr(q) by {
        assert(t1.sl(q) != t1.sr(q));
    }
    assert(t3.linked());
    lemma_top_step(t1, y);
    lemma_top_step(t3, y);
    assert(t3.top(y) == y);
    assert forall|z: int| 0 <= z < n implies #[trigger] t3.top(z) == t1.top(z) || (r == Some(t3.top(z) as usize)
        && t1.top(z) == y) by {
        lemma_cut_top(t1, t3, r, y, z);
    }
    assert forall|a: int, b: int| 0 <= a < n && 0 <= b < n && #[trigger] t3.connected(a, b) implies t0.connected(a, b) by {
        assert(t1.connected(a, b) == t0.connected(a, b));
        assert(t3.top(a) == t3.top(a) && t3.top(b) == t3.top(b));
        lemma_top_step(t1, a);
        lemma_top_step(t1, b);
        if let Some(rr) = r {
            lemma_top_step(t1, rr as int);
            assert(t1.sp(rr as int) is Some);
        }
    }
    assert forall|a: int, b: int| 0 <= a < n && 0 <= b < n && !t0.connected(a, y) implies (#[trigger] t3.connected(
        a,
        b,
    ) <==> t0.connected(a, b)) by {
        assert(t1.connected(a, b) == t0.connected(a, b));
        assert(t1.connected(a, y) == t0.connected(a, y));
        assert(t3.top(a) == t3.top(a) && t3.top(b) == t3.top(b));
        lemma_top_step(t1, a);
        lemma_top_step(t1, b);
        if let Some(rr) = r {
            lemma_top_step(t1, rr as int);
        }
    }
    assert forall|a: int, b: int|
        0 <= a < n && 0 <= b < n && t0.connected(a, y) && t0.connected(b, y) && !t3.connected(a, y) && !t3.connected(
            b,
            y,
        ) implies #[trigger] t3.connected(a, b) by {
        assert(t1.connected(a, y) == t0.connected(a, y));
        assert(t1.connected(b, y) == t0.connected(b, y));
        lemma_cut_top(t1, t3, r, y, a);
        lemma_cut_top(t1, t3, r, y, b);
        lemma_top_step(t1, a);
        lemma_top_step(t1, b);
        lemma_top_step(t3, a);
        lemma_top_step(t3, b);
    }
}

/// Following `k` right children from `x` leads to `y`.
pub open spec fn right_walk(t: LinkCutTree, x: int, y: int, k: nat) -> bool
    decreases k,
{
    if k == 0 {
        x == y
    } else {
        match t.sr(x) {
            Some(z) => right_walk(t, z as int, y, (k - 1) as nat),
            None => false,
        }
    }
}

/// A walk to the right extends by the right child of its end.
pub proof fn lemma_right_walk_extend(t: LinkCutTree, x: int, y: int, k: nat)
    requires
        right_walk(t, x, y, k),
        t.sr(y) is Some,
    ensures
        right_walk(t, x, t.sr(y)->0 as int, k + 1),
    decreases k,
{
    reveal_with_fuel(right_walk, 2);
    if k > 0 {
        let z = t.sr(x)->0 as int;
        lemma_right_walk_extend(t, z, y, (k - 1) as nat);
    }
}

impl LinkCutTree {
    /// Rotates `x` above its parent `p`: `x` takes the place of `p` under `p`'s parent (as a
    /// child, or by a path link when `p` was the root of its splay tree), `p` becomes the child
    /// of `x` on the side away from which `x` was, and the inner child of `x` moves to `p`.
    pub fn rotate(&mut self, x: usize)
        requires
            old(self).wf(),
            x < old(self).spec_len(),
            old(self).sp(x as int) is Some,
        ensures
            final(self).wf(),
            final(self).spec_len() == old(self).spec_len(),
            ({
                let t0 = *old(self);
                let t1 = *final(self);
                let p = t0.sp(x as int)->0 as int;
                t0.linked() && t0.child_of(x as int, p) ==> {
                    &&& rotated(t0, t1, x as int)
                    &&& t1.linked()
                    &&& forall|z: int|
                        0 <= z < t0.spec_len() ==> #[trigger] t1.top(z) == if t0.top(z) == p && t0.sp(p) is None {
                            x as int
                        } else {
                            t0.top(z)
                        }
                    &&& same_forest(t0, t1)
                }
            }),
    {
        let p = self.parent(x).unwrap();
        let pp = self.parent(p);
        let ghost mut s1 = *self;
        let ghost mut s2 = *self;
        if self.left(p) == Some(x) {
            let c = self.right(x);
            self.connect_left(p, c);
            proof {
                s1 = *self;
            }
            self.connect_right(x, Some(p));
        } else {
            let c = self.left(x);
            self.connect_right(p, c);
            proof {
                s1 = *self;
            }
            self.connect_left(x, Some(p));
        }
        proof {
            s2 = *self;
        }
        if let Some(pp) = pp {
            if self.left(pp) == Some(p) {
                self.connect_left(pp, Some(x));
            } else if self.right(pp) == Some(p) {
                self.connect_right(pp, Some(x));
            } else {
                self.set_parent(x, Some(pp));
            }
        } else {
            self.set_parent(x, None);
        }
        let ghost s3 = *self;
        self.rank = Ghost(rot_rank(*old(self), x as int));
        proof {
            assert(self.spec_nodes() == s3.spec_nodes());
            assert forall|y: int| 0 <= y < self.spec_len() implies in_range(#[trigger] self.sp(y), self.spec_len())
                && in_range(self.sl(y), self.spec_len()) && in_range(self.sr(y), self.spec_len()) by {
                assert(self.sp(y) == s3.sp(y) && self.sl(y) == s3.sl(y) && self.sr(y) == s3.sr(y));
            }
            let t1 = *old(self);
            if t1.linked() && t1.child_of(x as int, p as int) {
                let n = t1.spec_len();
                let r = t1.spec_rank();
                assert(in_range(t1.sp(p as int), n));
                assert(in_range(t1.sl(x as int), n));
                assert(in_range(t1.sr(x as int), n));
                assert(r[p as int] < r[x as int]);
                if let Some(q) = pp {
                    assert(r[q as int] < r[p as int]);
                }
                if let Some(cc) = t1.sl(x as int) {
                    assert(t1.child_of(cc as int, x as int));
                    assert(r[x as int] < r[cc as int]);
                }
                if let Some(cc) = t1.sr(x as int) {
                    assert(t1.child_of(cc as int, x as int));
                    assert(r[x as int] < r[cc as int]);
                }
                assert forall|y: int| 0 <= y < n implies self.sp(y) == s3.sp(y) && self.sl(y) == s3.sl(y) && self.sr(y)
                    == s3.sr(y) && self.sf(y) == s3.sf(y) && s1.sp(y) == s1.sp(y) && s2.sp(y) == s2.sp(y) && s1.sl(y)
                    == s1.sl(y) && s2.sl(y) == s2.sl(y) && s1.sr(y) == s1.sr(y) && s2.sr(y) == s2.sr(y) && s1.sf(y)
                    == s1.sf(y) && s2.sf(y) == s2.sf(y) && s3.sp(y) == s3.sp(y) && s3.sl(y) == s3.sl(y) && s3.sr(y)
                    == s3.sr(y) && s3.sf(y) == s3.sf(y) by {
                }
                let xl = t1.sl(p as int) == Some(x);
                let c = if xl { t1.sr(x as int) } else { t1.sl(x as int) };
                assert forall|y: int| 0 <= y < n implies {
                    &&& s2.sp(y) == if y == p {
                        Some(x)
                    } else if c == Some(y as usize) {
                        Some(p)
                    } else {
                        t1.sp(y)
                    }
                    &&& s2.sl(y) == if xl && y == p {
                        c
                    } else if !xl && y == x {
                        Some(p)
                    } else {
                        t1.sl(y)
                    }
                    &&& s2.sr(y) == if xl && y == x {
                        Some(p)
                    } else if !xl && y == p {
                        c
                    } else {
                        t1.sr(y)
                    }
                    &&& s2.sf(y) == t1.sf(y)
                } by {
                    if xl {
                        assert(s1.sp(y) == if c == Some(y as usize) { Some(p) } else { t1.sp(y) });
                        assert(s1.sl(y) == if y == p { c } else { t1.sl(y) });
                        assert(s1.sr(y) == t1.sr(y));
                    } else {
                        assert(s1.sp(y) == if c == Some(y as usize) { Some(p) } else { t1.sp(y) });
                        assert(s1.sr(y) == if y == p { c } else { t1.sr(y) });
                        assert(s1.sl(y) == t1.sl(y));
                    }
                }
                if let Some(q) = pp {
                    assert(s2.sl(q as int) == t1.sl(q as int));
                    assert(s2.sr(q as int) == t1.sr(q as int));
                }
                assert forall|y: int| 0 <= y < n implies {
                    &&& self.sp(y) == if y == x {
                        pp
                    } else {
                        s2.sp(y)
                    }
                    &&& self.sl(y) == if pp == Some(y as usize) && s2.sl(y) == Some(p) {
                        Some(x)
                    } else {
                        s2.sl(y)
                    }
                    &&& self.sr(y) == if pp == Some(y as usize) && s2.sl(y) != Some(p) && s2.sr(y) == Some(p) {
                        Some(x)
                    } else {
                        s2.sr(y)
                    }
                    &&& self.sf(y) == s2.sf(y)
                } by {
                    assert(self.sp(y) == s3.sp(y) && self.sl(y) == s3.sl(y) && self.sr(y) == s3.sr(y) && self.sf(y)
                        == s3.sf(y));
                }
                let t2 = *self;
                assert forall|y: int| 0 <= y < n implies {
                    &&& #[trigger] t2.sp(y) == if y == x {
                        pp
                    } else if y == p {
                        Some(x)
                    } else if c == Some(y as usize) {
                        Some(p)
                    } else {
                        t1.sp(y)
                    }
                    &&& t2.sl(y) == if xl && y == p {
                        c
                    } else if !xl && y == x {
                        Some(p)
                    } else if pp == Some(y as usize) && t1.sl(y) == Some(p) {
                        Some(x)
                    } else {
                        t1.sl(y)
                    }
                    &&& t2.sr(y) == if xl && y == x {
                        Some(p)
                    } else if !xl && y == p {
                        c
                    } else if pp == Some(y as usize) && t1.sl(y) != Some(p) && t1.sr(y) == Some(p) {
                        Some(x)
                    } else {
                        t1.sr(y)
                    }
                    &&& t2.sf(y) == t1.sf(y)
                } by {
                    assert(s2.sp(y) == s2.sp(y) && s2.sl(y) == s2.sl(y) && s2.sr(y) == s2.sr(y) && s2.sf(y) == s2.sf(y));
                    assert(t2.sp(y) == self.sp(y));
                }
                assert(rotated(t1, *self, x as int));
                lemma_rotate_forest(t1, *self, x as int);
            }
        }
    }

    /// Carries out a pending turn-around of `x`: swaps its children and passes the flag on to
    /// them.
    pub fn push(&mut self, x: usize)
        requires
            old(self).wf(),
            x < old(self).spec_len(),
        ensures
            final(self).wf(),
            final(self).spec_len() == old(self).spec_len(),
            !old(self).sf(x as int) ==> final(self).spec_nodes() == old(self).spec_nodes(),
            forall|y: int| 0 <= y < old(self).spec_len() ==> #[trigger] final(self).sp(y) == old(self).sp(y),
            old(self).sf(x as int) ==> final(self).sl(x as int) == old(self).sr(x as int) && final(self).sr(x as int)
                == old(self).sl(x as int),
            old(self).sf(x as int) && old(self).sl(x as int) != Some(x) && old(self).sr(x as int) != Some(x)
                ==> !final(self).sf(x as int),
            final(self).spec_rank() == old(self).spec_rank(),
            !old(self).sf(x as int) ==> final(self).sl(x as int) == old(self).sl(x as int) && final(self).sr(x as int)
                == old(self).sr(x as int),
            forall|y: int|
                0 <= y < old(self).spec_len() && y != x ==> #[trigger] final(self).sl(y) == old(self).sl(y)
                    && final(self).sr(y) == old(self).sr(y),
            old(self).linked() ==> final(self).linked(),
            forall|z: int| 0 <= z < old(self).spec_len() ==> #[trigger] final(self).top(z) == old(self).top(z),
            same_forest(*old(self), *final(self)),
            same_links(*old(self), *final(self)),
            forall|y: int|
                0 <= y < old(self).spec_len() && y != x && !old(self).child_of(y, x as int) ==> #[trigger] final(self).sf(y)
                    == old(self).sf(y),
    {
        if self.revert(x) {
            self.flip_revert(x);
            let ghost s1 = *self;
            let left = self.left(x);
            let right = self.right(x);
            self.set_left(x, right);
            let ghost s2 = *self;
            if let Some(l) = self.left(x) {
                self.flip_revert(l);
            }
            let ghost s3 = *self;
            self.set_right(x, left);
            let ghost s4 = *self;
            if let Some(r) = self.right(x) {
                self.flip_revert(r);
            }
            proof {
                assert forall|y: int| 0 <= y < old(self).spec_len() implies #[trigger] self.sp(y) == old(self).sp(y) by {
                    assert(s1.sp(y) == old(self).sp(y));
                    assert(s2.sp(y) == s1.sp(y));
                    assert(s3.sp(y) == s2.sp(y));
                    assert(s4.sp(y) == s3.sp(y));
                    assert(self.sp(y) == s4.sp(y));
                }
                assert(s1.sl(x as int) == old(self).sl(x as int));
                assert(s1.sr(x as int) == old(self).sr(x as int));
                assert(s2.sl(x as int) == old(self).sr(x as int));
                assert(s3.sl(x as int) == s2.sl(x as int));
                assert(s4.sl(x as int) == s3.sl(x as int));
                assert(s4.sr(x as int) == old(self).sl(x as int));
                assert(self.sl(x as int) == s4.sl(x as int));
                assert(self.sr(x as int) == s4.sr(x as int));
                assert forall|y: int| 0 <= y < old(self).spec_len() && y != x implies #[trigger] self.sl(y)
                    == old(self).sl(y) && self.sr(y) == old(self).sr(y) by {
                    assert(s1.sl(y) == old(self).sl(y) && s1.sr(y) == old(self).sr(y));
                    assert(s2.sl(y) == s1.sl(y) && s2.sr(y) == s1.sr(y));
                    assert(s3.sl(y) == s2.sl(y) && s3.sr(y) == s2.sr(y));
                    assert(s4.sl(y) == s3.sl(y) && s4.sr(y) == s3.sr(y));
                }
                assert forall|y: int|
                    0 <= y < old(self).spec_len() && y != x && !old(self).child_of(y, x as int) implies #[trigger] self.sf(y)
                        == old(self).sf(y) by {
                    assert(s1.sf(y) == old(self).sf(y));
                    assert(s2.sf(y) == s1.sf(y));
                    assert(s3.sf(y) == s2.sf(y));
                    assert(s4.sf(y) == s3.sf(y));
                }
            }
        }
        proof {
            lemma_same_links(*old(self), *self);
        }
    }

    /// `push` inside a splay.
    fn push_in(&mut self, z: usize, Ghost(t0): Ghost<LinkCutTree>, Ghost(r0): Ghost<int>, Ghost(ch): Ghost<Seq<usize>>, Ghost(x): Ghost<int>)
        requires
            splaying(t0, r0, *old(self), ch, x),
            z < old(self).spec_len(),
            sroot(t0, z as int) == r0,
        ensures
            splaying(t0, r0, *final(self), ch, x),
            same_links(*old(self), *final(self)),
            forall|a: int, b: int|
                0 <= a < old(self).spec_len() && 0 <= b < old(self).spec_len() ==> (#[trigger] final(self).child_of(a, b)
                    <==> old(self).child_of(a, b)),
            final(self).sl(z as int) != Some(z) && final(self).sr(z as int) != Some(z) ==> !final(self).sf(z as int),
    {
        proof {
            reveal(splaying);
        }
        let ghost t1 = *self;
        self.push(z);
        proof {
            let t2 = *self;
            let n = t1.spec_len();
            lemma_same_forest_trans(t0, t1, t2);
            assert forall|a: int, b: int| 0 <= a < n && 0 <= b < n implies (#[trigger] t2.child_of(a, b)
                <==> t1.child_of(a, b)) by {
                assert(t2.sl(b) == t2.sl(b));
            }
            assert forall|i: int| 0 <= i < ch.len() - 1 implies t2.sp(#[trigger] ch[i] as int) == Some(ch[i + 1])
                && t2.child_of(ch[i] as int, ch[i + 1] as int) by {
                assert(t1.child_of(ch[i] as int, ch[i + 1] as int));
            }
            let last = ch.last() as int;
            assert(t2.sp(last) == t1.sp(last));
            if let Some(q) = t1.sp(last) {
                assert(in_range(t1.sp(last), n));
                assert(t2.child_of(last, q as int) == t1.child_of(last, q as int));
            }
            assert forall|y: int| 0 <= y < n && sroot(t0, y) != r0 implies #[trigger] t2.sp(y) == t0.sp(y) && t2.sl(y)
                == t0.sl(y) && t2.sr(y) == t0.sr(y) && t2.sf(y) == t0.sf(y) by {
                assert(t1.sp(y) == t0.sp(y));
                if t1.child_of(y, z as int) {
                }
                assert(t2.sl(y) == t2.sl(y));
            }
            assert forall|a: int, b: int|
                0 <= a < n && 0 <= b < n && #[trigger] t2.child_of(a, b) && sroot(t0, b) == r0 implies sroot(t0, a)
                == r0 by {
                assert(t1.child_of(a, b));
            }
        }
    }

    /// A rotation of `x` above its parent inside a splay: the parent leaves the chain.
    fn rot_in(&mut self, Ghost(t0): Ghost<LinkCutTree>, Ghost(r0): Ghost<int>, Ghost(ch): Ghost<Seq<usize>>, x: usize)
        requires
            splaying(t0, r0, *old(self), ch, x as int),
            ch.len() >= 2,
        ensures
            splaying(t0, r0, *final(self), seq![ch[0]] + ch.skip(2), x as int),
    {
        proof {
            reveal(splaying);
        }
        let ghost t1 = *self;
        proof {
            assert(t1.sp(x as int) == Some(ch[1]));
            assert(t1.child_of(x as int, ch[1] as int));
            if ch.len() > 2 {
                assert(t1.sp(ch[1] as int) == Some(ch[2]));
            }
        }
        self.rotate(x);
        proof {
            let t2 = *self;
            lemma_same_forest_trans(t0, t1, t2);
            lemma_rotate_chain0(t1, t2, ch);
            let p = ch[1] as int;
            if t1.sp(p) is Some && t1.child_of(p, t1.sp(p)->0 as int) {
                assert(ch.len() > 2);
                assert(sroot(t0, ch[2] as int) == r0);
            }
            lemma_rotate_frame(t0, t1, t2, x as int, r0);
            let nc = seq![ch[0]] + ch.skip(2);
            assert forall|i: int| 0 <= i < nc.len() implies sroot(t0, #[trigger] nc[i] as int) == r0 by {
                if i > 0 {
                    assert(nc[i] == ch[i + 1]);
                }
            }
        }
    }

    /// A rotation of the parent of `x` above its own parent, `x` being on the same side of its
    /// parent as the parent is of its own: the grandparent leaves the chain.
    fn rotp_in(&mut self, Ghost(t0): Ghost<LinkCutTree>, Ghost(r0): Ghost<int>, Ghost(ch): Ghost<Seq<usize>>, x: usize, p: usize)
        requires
            splaying(t0, r0, *old(self), ch, x as int),
            ch.len() >= 3,
            ch[1] == p,
            (old(self).sl(ch[2] as int) == Some(ch[1])) == (old(self).sl(ch[1] as int) == Some(ch[0])),
        ensures
            splaying(t0, r0, *final(self), seq![ch[0], ch[1]] + ch.skip(3), x as int),
    {
        proof {
            reveal(splaying);
        }
        let ghost t1 = *self;
        proof {
            assert(t1.sp(ch[1] as int) == Some(ch[2]));
            assert(t1.child_of(ch[1] as int, ch[2] as int));
            if ch.len() > 3 {
                assert(t1.sp(ch[2] as int) == Some(ch[3]));
            }
        }
        self.rotate(p);
        proof {
            let t2 = *self;
            lemma_same_forest_trans(t0, t1, t2);
            lemma_rotate_chain1(t1, t2, ch);
            let g = ch[2] as int;
            if t1.sp(g) is Some && t1.child_of(g, t1.sp(g)->0 as int) {
                assert(ch.len() > 3);
                assert(sroot(t0, ch[3] as int) == r0);
            }
            lemma_rotate_frame(t0, t1, t2, p as int, r0);
            let nc = seq![ch[0], ch[1]] + ch.skip(3);
            assert forall|i: int| 0 <= i < nc.len() implies sroot(t0, #[trigger] nc[i] as int) == r0 by {
                if i > 1 {
                    assert(nc[i] == ch[i + 1]);
                }
            }
        }
    }

    /// Moves `x` up to the root of its splay tree by rotations, carrying out pending
    /// turn-arounds on the way: `x` becomes the root of its splay tree and takes over its parent
    /// link; nothing outside that splay tree changes, and neither does the forest.
    pub fn splay(&mut self, x: usize)
        requires
            old(self).linked(),
            x < old(self).spec_len(),
        ensures
            final(self).wf(),
            final(self).linked(),
            final(self).spec_len() == old(self).spec_len(),
            final(self).sl(x as int) != Some(x) && final(self).sr(x as int) != Some(x) ==> !final(self).sf(x as int),
            same_forest(*old(self), *final(self)),
            is_sroot(*final(self), x as int),
            final(self).sp(x as int) == old(self).sp(sroot(*old(self), x as int)),
            frame_ok(*old(self), *final(self), sroot(*old(self), x as int)),
            closed_ok(*old(self), *final(self), sroot(*old(self), x as int)),
    {
        let ghost t0 = *self;
        let ghost r0 = sroot(t0, x as int);
        let ghost mut ch: Seq<usize> = Seq::empty();
        proof {
            ch = lemma_splay_start(t0, x as int);
        }
        loop
            invariant
                x < t0.spec_len(),
                self.spec_len() == t0.spec_len(),
                splaying(t0, r0, *self, ch, x as int),
            ensures
                self.spec_len() == t0.spec_len(),
                splaying(t0, r0, *self, ch, x as int),
                is_sroot(*self, x as int),
            decreases ch.len(),
        {
            proof {
                reveal(splaying);
                if ch.len() >= 2 {
                    assert(self.sp(x as int) == Some(ch[1]));
                    assert(self.child_of(x as int, ch[1] as int));
                }
            }
            match self.kind(x) {
                Kind::Root => {
                    break;
                },
                Kind::Child(p, _) => {
                    proof {
                        if ch.len() >= 3 {
                            assert(self.sp(ch[1] as int) == Some(ch[2]));
                            assert(self.child_of(ch[1] as int, ch[2] as int));
                        }
                    }
                    if let Kind::Child(pp, _) = self.kind(p) {
                        self.push_in(pp, Ghost(t0), Ghost(r0), Ghost(ch), Ghost(x as int));
                    }
                    self.push_in(p, Ghost(t0), Ghost(r0), Ghost(ch), Ghost(x as int));
                    self.push_in(x, Ghost(t0), Ghost(r0), Ghost(ch), Ghost(x as int));
                    proof {
                        reveal(splaying);
                        assert(self.sp(x as int) == Some(ch[1]));
                        assert(self.child_of(x as int, ch[1] as int));
                        if ch.len() >= 3 {
                            assert(self.sp(ch[1] as int) == Some(ch[2]));
                            assert(self.child_of(ch[1] as int, ch[2] as int));
                        }
                    }
                    if let Kind::Child(_, p_dir) = self.kind(p) {
                        if let Kind::Child(_, x_dir) = self.kind(x) {
                            if x_dir == p_dir {
                                self.rotp_in(Ghost(t0), Ghost(r0), Ghost(ch), x, p);
                                proof {
                                    ch = seq![ch[0], ch[1]] + ch.skip(3);
                                }
                                self.rot_in(Ghost(t0), Ghost(r0), Ghost(ch), x);
                                proof {
                                    ch = seq![ch[0]] + ch.skip(2);
                                }
                            } else {
                                self.rot_in(Ghost(t0), Ghost(r0), Ghost(ch), x);
                                proof {
                                    ch = seq![ch[0]] + ch.skip(2);
                                }
                                self.rot_in(Ghost(t0), Ghost(r0), Ghost(ch), x);
                                proof {
                                    ch = seq![ch[0]] + ch.skip(2);
                                }
                            }
                        }
                    } else {
                        self.rot_in(Ghost(t0), Ghost(r0), Ghost(ch), x);
                        proof {
                            ch = seq![ch[0]] + ch.skip(2);
                        }
                    }
                },
            }
        }
        let ghost t1 = *self;
        proof {
            reveal(splaying);
        }
        self.push_in(x, Ghost(t0), Ghost(r0), Ghost(ch), Ghost(x as int));
        proof {
            assert(self.sp(x as int) == t1.sp(x as int));
            if let Some(q) = t1.sp(x as int) {
                assert(t1.wf());
                assert(in_range(t1.sp(x as int), t1.spec_len()));
                assert(self.child_of(x as int, q as int) == t1.child_of(x as int, q as int));
            }
            lemma_splay_done(t0, r0, *self, ch, x as int);
        }
    }

    /// Makes the path from the root of the tree of `x` down to `x` the preferred one, with `x`
    /// at the root of its splay tree; returns the last splay root met. Afterwards `x` has no
    /// parent link: it is at the top of the tree of parent links of its tree.
    pub fn expose(&mut self, x: usize) -> (r: Option<usize>)
        requires
            old(self).linked(),
            x < old(self).spec_len(),
        ensures
            final(self).wf(),
            final(self).linked(),
            final(self).spec_len() == old(self).spec_len(),
            same_forest(*old(self), *final(self)),
            final(self).sp(x as int) is None,
            is_sroot(*final(self), x as int),
            in_range(r, old(self).spec_len()),
            r is Some,
            final(self).sl(x as int) != Some(x) && final(self).sr(x as int) != Some(x) ==> !final(self).sf(x as int),
            untouched(*old(self), *final(self), x as int),
    {
        let ghost t0 = *self;
        let n = self.num_vertices();
        let mut last: Option<usize> = None;
        let mut p: Option<usize> = Some(x);
        let ghost mut chx: Seq<usize> = Seq::empty();
        proof {
            assert(same_forest(t0, t0));
            assert(untouched(t0, t0, x as int));
        }
        loop
            invariant
                self.linked(),
                self.spec_len() == n,
                t0.spec_len() == n,
                x < n,
                same_forest(t0, *self),
                untouched(t0, *self, x as int),
                p matches Some(y) ==> self.connected(y as int, x as int),
                in_range(last, n as int),
                in_range(p, n as int),
                last is None ==> p == Some(x),
                last is Some ==> chain_ok(*self, chx) && chx[0] == x && chx.last() == last->0 && self.sp(
                    last->0 as int,
                ) == p,
            ensures
                self.linked(),
                self.spec_len() == n,
                same_forest(t0, *self),
                untouched(t0, *self, x as int),
                in_range(last, n as int),
                last is Some,
                chain_ok(*self, chx),
                chx[0] == x,
                chx.last() == last->0,
                self.sp(last->0 as int) is None,
            decreases
                match p {
                    Some(y) => depth(*self, y as int) + 1,
                    None => 0,
                },
        {
            match p {
                None => {
                    break;
                },
                Some(y) => {
                    let ghost tb = *self;
                    let ghost rb = sroot(tb, y as int);
                    self.splay(y);
                    let ghost t1 = *self;
                    proof {
                        lemma_untouched_splay(t0, tb, t1, x as int, y as int);
                        lemma_same_forest_trans(t0, tb, t1);
                        lemma_sroot_step(tb, y as int);
                        lemma_sroot_rank(tb, y as int);
                        if let Some(l) = last {
                            // the chain from x is outside the splay tree of y
                            assert(tb.sp(l as int) == Some(y));
                            assert(tb.spec_rank()[y as int] < tb.spec_rank()[l as int]);
                            assert forall|i: int| 0 <= i < chx.len() implies sroot(tb, #[trigger] chx[i] as int) != rb by {
                                lemma_chain_sroot(tb, chx, i);
                            }
                            assert forall|i: int| 0 <= i < chx.len() - 1 implies t1.sp(#[trigger] chx[i] as int) == Some(
                                chx[i + 1],
                            ) && t1.child_of(chx[i] as int, chx[i + 1] as int) by {
                                assert(tb.sp(chx[i] as int) == Some(chx[i + 1]));
                                assert(tb.child_of(chx[i] as int, chx[i + 1] as int));
                                assert(sroot(tb, chx[i + 1] as int) != rb);
                            }
                            assert(sroot(tb, l as int) != rb) by {
                                lemma_chain_sroot(tb, chx, chx.len() - 1);
                            }
                            assert(t1.sp(l as int) == Some(y));
                            assert(!t1.child_of(l as int, y as int));
                            assert(chain_ok(t1, chx));
                        }
                    }
                    self.set_left(y, last);
                    let ghost t2 = *self;
                    proof {
                        lemma_set_left_forest(t1, t2, y as int, last);
                        lemma_same_forest_trans(t0, t1, t2);
                        assert(t0.connected(y as int, x as int));
                        assert forall|z: int| 0 <= z < t0.spec_len() && !t0.connected(z, x as int) implies #[trigger] t2.sp(z)
                            == t0.sp(z) && t2.sl(z) == t0.sl(z) && t2.sr(z) == t0.sr(z) && t2.sf(z) == t0.sf(z) by {
                            assert(t1.sp(z) == t0.sp(z));
                        }
                        lemma_top_step(t2, y as int);
                        assert(t2.connected(y as int, x as int));
                        let q = t2.sp(y as int);
                        assert(q == t1.sp(y as int));
                        if let Some(qq) = q {
                            assert(in_range(t1.sp(y as int), n as int));
                            assert(qq != y);
                            assert(t2.child_of(y as int, qq as int) == t1.child_of(y as int, qq as int));
                        }
                        if let Some(l) = last {
                            let nc = chx.push(y);
                            assert(t1.spec_rank()[y as int] < t1.spec_rank()[l as int]);
                            assert forall|i: int| 0 <= i < chx.len() implies #[trigger] chx[i] != y by {
                                if i < chx.len() - 1 {
                                    lemma_chain_rank(t1, chx, i, chx.len() - 1);
                                }
                            }
                            assert forall|i: int| 0 <= i < chx.len() implies t1.spec_rank()[l as int] <= t1.spec_rank()[
                                #[trigger] chx[i] as int] by {
                                if i < chx.len() - 1 {
                                    lemma_chain_rank(t1, chx, i, chx.len() - 1);
                                }
                            }
                            assert forall|i: int| 0 <= i < nc.len() implies #[trigger] nc[i] < n by {
                                if i < chx.len() {
                                    assert(nc[i] == chx[i]);
                                }
                            }
                            assert forall|i: int| 0 <= i < nc.len() - 1 implies t2.sp(#[trigger] nc[i] as int) == Some(
                                nc[i + 1],
                            ) && t2.child_of(nc[i] as int, nc[i + 1] as int) by {
                                assert(nc[i] == chx[i]);
                                if i < chx.len() - 1 {
                                    assert(nc[i + 1] == chx[i + 1]);
                                    assert(t1.child_of(chx[i] as int, chx[i + 1] as int));
                                    assert(chx[i + 1] != y);
                                } else {
                                    assert(nc[i + 1] == y);
                                }
                            }
                            chx = nc;
                        } else {
                            chx = seq![y];
                        }
                        // the next node is above the splay tree of y: it is higher
                        if let Some(qq) = q {
                            assert(t1.sp(y as int) == tb.sp(rb));
                            assert(tb.sp(rb) == Some(qq));
                            assert(tb.spec_rank()[qq as int] < tb.spec_rank()[rb]);
                            assert(in_range(tb.sp(rb), n as int));
                            lemma_depth_frame(tb, t1, rb, qq as int);
                            lemma_depth_step(tb, rb);
                            let cy = chain_of(tb, y as int);
                            lemma_chain_sroot(tb, cy, 0);
                            lemma_chain_depth(tb, cy, 0);
                            lemma_depth_step(t2, qq as int);
                            lemma_depth_step(t1, qq as int);
                            assert forall|k: nat| #[trigger] depth_k(t2, qq as int, k) == depth_k(t1, qq as int, k) by {
                                lemma_depth_k_same(t1, t2, qq as int, k);
                            }
                        }
                    }
                    last = Some(y);
                    p = self.parent(y);
                },
            }
        }
        let ghost t3 = *self;
        proof {
            lemma_chain_sroot(t3, chx, 0);
        }
        self.splay(x);
        proof {
            lemma_untouched_splay(t0, t3, *self, x as int, x as int);
            lemma_same_forest_trans(t0, t3, *self);
        }
        last
    }

    /// The root of the tree of `x`: after exposing `x`, the last node on the right of its
    /// splay tree. It is a node of the tree of `x`.
    pub fn find_root(&mut self, x: usize) -> (r: usize)
        requires
            old(self).linked(),
            x < old(self).spec_len(),
        ensures
            final(self).wf(),
            final(self).linked(),
            final(self).spec_len() == old(self).spec_len(),
            same_forest(*old(self), *final(self)),
            r < old(self).spec_len(),
            old(self).connected(r as int, x as int),
            exists|k: nat|
                #[trigger] right_walk(*final(self), x as int, r as int, k) && (final(self).sr(r as int) is None || k
                    == final(self).spec_len()),
    {
        self.expose(x);
        let n = self.num_vertices();
        let mut y = x;
        let mut steps: usize = 0;
        while steps < n
            invariant
                self.wf(),
                self.linked(),
                self.spec_len() == n,
                y < n,
                x < n,
                steps <= n,
                right_walk(*self, x as int, y as int, steps as nat),
                self.top(y as int) == self.top(x as int),
            ensures
                self.wf(),
                self.spec_len() == n,
                y < n,
                right_walk(*self, x as int, y as int, steps as nat),
                self.sr(y as int) is None || steps == n,
                self.top(y as int) == self.top(x as int),
            decreases n - steps,
        {
            match self.right(y) {
                Some(r) => {
                    proof {
                        lemma_right_walk_extend(*self, x as int, y as int, steps as nat);
                        assert(self.child_of(r as int, y as int));
                        assert(in_range(self.sr(y as int), n as int));
                        lemma_top_step(*self, r as int);
                    }
                    y = r;
                },
                None => {
                    break;
                },
            }
            steps += 1;
        }
        proof {
            assert(self.connected(y as int, x as int));
        }
        y
    }

    /// Makes `x` the root of its tree: it is exposed, and the path above it turned around. It
    /// is then at the top of the tree of parent links of its tree.
    pub fn make_root(&mut self, x: usize)
        requires
            old(self).linked(),
            x < old(self).spec_len(),
        ensures
            final(self).wf(),
            final(self).linked(),
            final(self).spec_len() == old(self).spec_len(),
            same_forest(*old(self), *final(self)),
            final(self).sp(x as int) is None,
            final(self).sl(x as int) != Some(x) && final(self).sr(x as int) != Some(x) ==> final(self).sf(x as int),
            untouched(*old(self), *final(self), x as int),
    {
        self.expose(x);
        let ghost t1 = *self;
        self.flip_revert(x);
        proof {
            assert forall|z: int| 0 <= z < old(self).spec_len() && !old(self).connected(z, x as int) implies #[trigger] self.sp(z)
                == old(self).sp(z) && self.sl(z) == old(self).sl(z) && self.sr(z) == old(self).sr(z) && self.sf(z) == old(
                self,
            ).sf(z) by {
                assert(t1.sp(z) == old(self).sp(z));
            }
            lemma_same_links(t1, *self);
            lemma_same_forest_trans(*old(self), t1, *self);
        }
    }

    /// The top of the tree of parent links of `x`, found by following them.
    pub fn root_of(&self, x: usize) -> (r: usize)
        requires
            self.linked(),
            x < self.spec_len(),
        ensures
            r == self.top(x as int),
    {
        let mut y = x;
        loop
            invariant
                self.linked(),
                y < self.spec_len(),
                x < self.spec_len(),
                self.top(y as int) == self.top(x as int),
            ensures
                y == self.top(x as int),
            decreases depth(*self, y as int),
        {
            proof {
                lemma_top_step(*self, y as int);
                lemma_depth_step(*self, y as int);
            }
            match self.parent(y) {
                Some(q) => {
                    proof {
                        assert(in_range(self.sp(y as int), self.spec_len()));
                    }
                    y = q;
                },
                None => {
                    break;
                },
            }
        }
        y
    }

    /// Whether `x` and `y` are in the same tree: whether their trees of parent links have the
    /// same top.
    pub fn is_connected(&mut self, x: usize, y: usize) -> (r: bool)
        requires
            old(self).linked(),
            x < old(self).spec_len(),
            y < old(self).spec_len(),
        ensures
            *final(self) == *old(self),
            r == old(self).connected(x as int, y as int),
    {
        is_connected(self, x, y)
    }

    /// Links the tree of `x` under `y`, and returns the edge. The two trees become one.
    pub fn link(&mut self, x: usize, y: usize) -> (r: Option<(usize, usize)>)
        requires
            old(self).linked(),
            x < old(self).spec_len(),
            y < old(self).spec_len(),
            !old(self).connected(x as int, y as int),
        ensures
            final(self).linked(),
            final(self).spec_len() == old(self).spec_len(),
            r == Some((x, y)),
            final(self).sp(x as int) == Some(y),
            untouched(*old(self), *final(self), x as int),
            forall|a: int, b: int|
                0 <= a < old(self).spec_len() && 0 <= b < old(self).spec_len() ==> (#[trigger] final(self).connected(a, b)
                    <==> old(self).connected(a, b) || (old(self).connected(a, x as int) && old(self).connected(y as int, b))
                    || (old(self).connected(a, y as int) && old(self).connected(x as int, b))),
    {
        link(self, x, y);
        Some((x, y))
    }

    /// Removes the edge `e`: the tree holding it splits in two, and no other tree changes.
    pub fn cut(&mut self, e: (usize, usize))
        requires
            old(self).linked(),
            e.0 < old(self).spec_len(),
            e.1 < old(self).spec_len(),
        ensures
            final(self).linked(),
            final(self).spec_len() == old(self).spec_len(),
            final(self).sp(e.1 as int) is None,
            final(self).sr(e.1 as int) is None,
            cut_apart(*old(self), *final(self), e.1 as int),
            untouched_both(*old(self), *final(self), e.0 as int, e.1 as int),
            !old(self).connected(e.0 as int, e.1 as int) ==> final(self).sp(e.0 as int) is None,
    {
        cut(self, e.0, e.1);
    }

    /// The ends of the edge `e`: the edge itself.
    pub fn ends(&self, e: &(usize, usize)) -> (r: (usize, usize))
        ensures
            r == *e,
    {
        *e
    }

    /// Removes every link.
    pub fn clear(&mut self)
        requires
            old(self).wf(),
        ensures
            final(self).wf(),
            final(self).linked(),
            final(self).spec_len() == old(self).spec_len(),
            forall|x: int|
                0 <= x < final(self).spec_len() ==> #[trigger] final(self).sp(x) is None && final(self).sl(x) is None
                    && final(self).sr(x) is None && !final(self).sf(x),
            forall|a: int, b: int|
                0 <= a < final(self).spec_len() && 0 <= b < final(self).spec_len() ==> (#[trigger] final(self).connected(a, b)
                    <==> a == b),
    {
        let n = self.nodes.len();
        let mut i: usize = 0;
        while i < n
            invariant
                self.spec_len() == n,
                i <= n,
                self.wf(),
                forall|x: int| 0 <= x < i ==> #[trigger] self.sp(x) is None && self.sl(x) is None && self.sr(x) is None && !self.sf(x),
            decreases n - i,
        {
            let id = self.nodes[i].id();
            let ghost pre = self.spec_nodes();
            let ghost pre_t = *self;
            let nd = UnsafeCellNode::new(id);
            self.nodes.set(i, nd);
            proof {
                assert(self.spec_nodes() == pre.update(i as int, nd));
                assert forall|y: int| 0 <= y < self.spec_len() implies in_range(#[trigger] self.sp(y), self.spec_len())
                    && in_range(self.sl(y), self.spec_len()) && in_range(self.sr(y), self.spec_len()) by {
                    if y != i {
                        assert(self.spec_nodes()[y] == pre[y]);
                        assert(in_range(pre_t.sp(y), self.spec_len()));
                        assert(in_range(pre_t.sl(y), self.spec_len()));
                        assert(in_range(pre_t.sr(y), self.spec_len()));
                    }
                }
                assert forall|x: int| 0 <= x < i + 1 implies #[trigger] self.sp(x) is None && self.sl(x) is None
                    && self.sr(x) is None && !self.sf(x) by {
                    if x < i {
                        assert(self.spec_nodes()[x] == pre[x]);
                        assert(pre_t.sp(x) is None);
                    }
                }
            }
            i += 1;
        }
        let ghost t2 = *self;
        self.rank = Ghost(Seq::new(n as nat, |i: int| 0nat));
        proof {
            assert(self.spec_nodes() == t2.spec_nodes());
            assert forall|y: int| 0 <= y < self.spec_len() implies #[trigger] self.sp(y) is None && self.sl(y) is None
                && self.sr(y) is None && !self.sf(y) by {
                assert(t2.sp(y) is None);
                assert(self.sp(y) == t2.sp(y) && self.sl(y) == t2.sl(y) && self.sr(y) == t2.sr(y) && self.sf(y) == t2.sf(
                    y,
                ));
            }
            assert forall|y: int| 0 <= y < self.spec_len() implies in_range(#[trigger] self.sp(y), self.spec_len())
                && in_range(self.sl(y), self.spec_len()) && in_range(self.sr(y), self.spec_len()) by {
                assert(self.sp(y) is None);
            }
            assert(self.spec_len() == n);
            assert(self.spec_rank().len() == n);
            assert forall|z: int, q: int|
                0 <= z < n && 0 <= q < n && #[trigger] self.child_of(z, q) implies self.sp(z) == Some(q as usize) by {
                assert(self.sp(q) is None);
                assert(self.sl(q) is None && self.sr(q) is None);
            }
            assert forall|z: int| 0 <= z < n && (#[trigger] self.sp(z)) is Some implies self.spec_rank()[self.sp(
                z,
            )->0 as int] < self.spec_rank()[z] by {
                assert(self.sp(z) is None);
            }
            assert forall|q: int| 0 <= q < n && (#[trigger] self.sl(q)) is Some implies self.sl(q) != self.sr(q) by {
                assert(self.sp(q) is None);
            }
            assert(self.linked());
            assert forall|a: int, b: int| 0 <= a < n && 0 <= b < n implies (#[trigger] self.connected(a, b) <==> a == b) by {
                lemma_top_step(*self, a);
                lemma_top_step(*self, b);
            }
        }
    }
}

/// `t2` is `t1` with a tree split in two at the edge above a node: the nodes keep their
/// connections but for one tree, that of `y`, which falls into two parts; `y` and the part
/// cut off are no longer connected.
pub open spec fn cut_apart(t1: LinkCutTree, t2: LinkCutTree, y: int) -> bool {
    &&& forall|a: int, b: int|
        0 <= a < t1.spec_len() && 0 <= b < t1.spec_len() && #[trigger] t2.connected(a, b) ==> t1.connected(a, b)
    &&& forall|a: int, b: int|
        0 <= a < t1.spec_len() && 0 <= b < t1.spec_len() && !t1.connected(a, y) ==> (#[trigger] t2.connected(a, b)
            <==> t1.connected(a, b))
    &&& forall|a: int, b: int|
        0 <= a < t1.spec_len() && 0 <= b < t1.spec_len() && t1.connected(a, y) && t1.connected(b, y) && !t2.connected(
            a,
            y,
        ) && !t2.connected(b, y) ==> #[trigger] t2.connected(a, b)
}

/// Links the tree of `x` under `y`: `x` becomes the root of its tree, then a child of `y`.
/// The two trees become one.
pub fn link(t: &mut LinkCutTree, x: usize, y: usize)
    requires
        old(t).linked(),
        x < old(t).spec_len(),
        y < old(t).spec_len(),
        !old(t).connected(x as int, y as int),
    ensures
        final(t).linked(),
        final(t).spec_len() == old(t).spec_len(),
        final(t).sp(x as int) == Some(y),
        forall|a: int, b: int|
            0 <= a < old(t).spec_len() && 0 <= b < old(t).spec_len() ==> (#[trigger] final(t).connected(a, b)
                <==> old(t).connected(a, b) || (old(t).connected(a, x as int) && old(t).connected(y as int, b))
                || (old(t).connected(a, y as int) && old(t).connected(x as int, b))),
        untouched(*old(t), *final(t), x as int),
{
    t.make_root(x);
    let ghost t1 = *t;
    t.set_parent(x, Some(y));
    let ghost t2 = *t;
    t.rank = Ghost(link_rank(t1, x as int, y as int));
    proof {
        assert(t.spec_nodes() == t2.spec_nodes());
        assert forall|z: int| 0 <= z < t.spec_len() implies in_range(#[trigger] t.sp(z), t.spec_len()) && in_range(
            t.sl(z),
            t.spec_len(),
        ) && in_range(t.sr(z), t.spec_len()) by {
            assert(t.sp(z) == t2.sp(z) && t.sl(z) == t2.sl(z) && t.sr(z) == t2.sr(z));
        }
        assert forall|z: int| 0 <= z < t.spec_len() implies #[trigger] t.sp(z) == (if z == x {
            Some(y)
        } else {
            t1.sp(z)
        }) && t.sl(z) == t1.sl(z) && t.sr(z) == t1.sr(z) by {
            assert(t.sp(z) == t2.sp(z) && t.sl(z) == t2.sl(z) && t.sr(z) == t2.sr(z));
        }
        lemma_link_forest(*old(t), t1, *t, x as int, y as int);
        assert forall|z: int| 0 <= z < old(t).spec_len() && !old(t).connected(z, x as int) implies #[trigger] t.sp(z)
            == old(t).sp(z) && t.sl(z) == old(t).sl(z) && t.sr(z) == old(t).sr(z) && t.sf(z) == old(t).sf(z) by {
            assert(t1.sp(z) == old(t).sp(z));
            assert(t.sf(z) == t2.sf(z));
        }
    }
}

/// Cuts the edge between `x` and `y`: with `x` the root of its tree, `y` exposed has `x` as
/// its right child, which is cut off. The tree of `y` falls into two parts.
pub fn cut(t: &mut LinkCutTree, x: usize, y: usize)
    requires
        old(t).linked(),
        x < old(t).spec_len(),
        y < old(t).spec_len(),
    ensures
        final(t).linked(),
        final(t).spec_len() == old(t).spec_len(),
        final(t).sp(y as int) is None,
        final(t).sr(y as int) is None,
        cut_apart(*old(t), *final(t), y as int),
        untouched_both(*old(t), *final(t), x as int, y as int),
        !old(t).connected(x as int, y as int) ==> final(t).sp(x as int) is None,
{
    t.make_root(x);
    let ghost ta = *t;
    t.expose(y);
    let ghost t1 = *t;
    if let Some(r) = t.right(y) {
        proof {
            assert(in_range(t1.sr(y as int), t1.spec_len()));
            assert(t1.child_of(r as int, y as int));
            lemma_top_step(t1, r as int);
            lemma_top_step(t1, y as int);
        }
        t.set_parent(r, None);
    }
    let ghost t2 = *t;
    t.set_right(y, None);
    proof {
        lemma_cut_forest(*old(t), t1, t2, *t, y as int);
        assert forall|z: int|
            0 <= z < old(t).spec_len() && !old(t).connected(z, x as int) && !old(t).connected(z, y as int) implies #[trigger] t.sp(
            z,
        ) == old(t).sp(z) && t.sl(z) == old(t).sl(z) && t.sr(z) == old(t).sr(z) && t.sf(z) == old(t).sf(z) by {
            assert(ta.sp(z) == old(t).sp(z));
            assert(ta.connected(z, y as int) == old(t).connected(z, y as int));
            assert(t1.sp(z) == ta.sp(z));
            assert(t1.connected(z, y as int) == old(t).connected(z, y as int));
            assert(t2.sp(z) == t1.sp(z));
        }
        if !old(t).connected(x as int, y as int) {
            assert(ta.connected(x as int, y as int) == old(t).connected(x as int, y as int));
            assert(t1.sp(x as int) == ta.sp(x as int));
            assert(t1.connected(x as int, y as int) == old(t).connected(x as int, y as int));
            assert(t2.sp(x as int) == t1.sp(x as int));
        }
    }
}

/// Whether `x` and `y` are the same node or in the same tree.
pub fn is_connected(t: &mut LinkCutTree, x: usize, y: usize) -> (r: bool)
    requires
        old(t).linked(),
        x < old(t).spec_len(),
        y < old(t).spec_len(),
    ensures
        *final(t) == *old(t),
        r == old(t).connected(x as int, y as int),
{
    if x == y {
        return true;
    }
    let rx = t.root_of(x);
    let ry = t.root_of(y);
    rx == ry
}

} // verus!
