//! Sequences of edges for Euler tours.
//!
//! The edges of a tour live in a table of `SeqEdge`s; a sequence holds their ids, and each edge
//! records the sequence that holds it (`tree`) and its position there (`rank`), so that the
//! owner of an edge is found in constant time.
use vstd::prelude::*;

verus! {

/// One direction of an edge of an Euler tour. The ids `2 * i` and `2 * i + 1` are the two
/// directions of the edge with index `i`; the odd one is the reversed direction.
#[derive(Debug, Clone, Copy)]
pub struct SeqEdge {
    id: usize,
    rank: usize,
    tree: usize,
}

/// The other direction of the edge id `x`.
pub open spec fn pair_of(x: int) -> int {
    if x % 2 == 0 {
        x + 1
    } else {
        x - 1
    }
}

impl SeqEdge {
    pub closed spec fn spec_id(&self) -> usize {
        self.id
    }

    pub closed spec fn spec_rank(&self) -> usize {
        self.rank
    }

    pub closed spec fn spec_tree(&self) -> usize {
        self.tree
    }

    /// A new edge direction with id `id`, not yet in any sequence.
    pub fn new(id: usize) -> (r: Self)
        ensures
            r.spec_id() == id,
            r.spec_rank() == 0,
            r.spec_tree() == 0,
    {
        SeqEdge { id: id, rank: 0, tree: 0 }
    }

    /// The id of the other direction of this edge.
    pub fn id_pair(&self) -> (r: usize)
        ensures
            r == pair_of(self.spec_id() as int),
    {
        let id = self.id;
        assert(id ^ 1 == if id % 2 == 0 { id + 1 } else { id - 1 }) by (bit_vector);
        id ^ 1
    }

    /// Whether this is the reversed direction of its edge.
    pub fn is_reversed(&self) -> (r: bool)
        ensures
            r == (self.spec_id() % 2 == 1),
    {
        let id = self.id;
        assert((id & 1 == 1) == (id % 2 == 1)) by (bit_vector);
        id & 1 == 1
    }

    /// The index of the edge that this is a direction of.
    pub fn index(&self) -> (r: usize)
        ensures
            r == self.spec_id() / 2,
    {
        let id = self.id;
        assert(id >> 1 == id / 2) by (bit_vector);
        id >> 1
    }

    /// The id of this edge direction.
    pub fn id(&self) -> (r: usize)
        ensures
            r == self.spec_id(),
    {
        self.id
    }

    pub fn tree(&self) -> (r: usize)
        ensures
            r == self.spec_tree(),
    {
        self.tree
    }

    pub fn rank(&self) -> (r: usize)
        ensures
            r == self.spec_rank(),
    {
        self.rank
    }

    fn set_tree(&mut self, tree: usize)
        ensures
            final(self).spec_tree() == tree,
            final(self).spec_rank() == old(self).spec_rank(),
            final(self).spec_id() == old(self).spec_id(),
    {
        self.tree = tree;
    }

    fn set_rank(&mut self, rank: usize)
        ensures
            final(self).spec_rank() == rank,
            final(self).spec_tree() == old(self).spec_tree(),
            final(self).spec_id() == old(self).spec_id(),
    {
        self.rank = rank;
    }
}

/// Every element of `s` is an edge of the table that records sequence `me` and its position.
pub open spec fn placed_all(edges: Seq<SeqEdge>, s: Seq<usize>, me: usize) -> bool {
    forall|i: int|
        0 <= i < s.len() ==> {
            &&& #[trigger] s[i] < edges.len()
            &&& edges[s[i] as int].spec_tree() == me
            &&& edges[s[i] as int].spec_rank() == i
        }
}

/// The table changed only at the edges in `s` and `t`, and never in an id.
pub open spec fn frame(old_edges: Seq<SeqEdge>, new_edges: Seq<SeqEdge>, s: Seq<usize>, t: Seq<usize>) -> bool {
    &&& new_edges.len() == old_edges.len()
    &&& forall|k: int|
        0 <= k < new_edges.len() ==> (#[trigger] new_edges[k]).spec_id() == old_edges[k].spec_id()
    &&& forall|k: int|
        0 <= k < new_edges.len() && !s.contains(k as usize) && !t.contains(k as usize) ==> #[trigger] new_edges[k]
            == old_edges[k]
}

/// A sequence of edge ids.
pub struct EdgeSeq {
    inner: Vec<usize>,
}

impl View for EdgeSeq {
    type V = Seq<usize>;

    closed spec fn view(&self) -> Seq<usize> {
        self.inner@
    }
}

/// Sets the table entries of `s[from..]` to sequence `me` and their positions.
fn renumber(edges: &mut Vec<SeqEdge>, s: &Vec<usize>, from: usize, me: usize, set_tree: bool)
    requires
        from <= s@.len(),
        forall|i: int| 0 <= i < s@.len() ==> #[trigger] s@[i] < old(edges)@.len(),
        forall|i: int, j: int| 0 <= i < j < s@.len() ==> s@[i] != s@[j],
        forall|i: int|
            0 <= i < from ==> {
                &&& old(edges)@[#[trigger] s@[i] as int].spec_tree() == me
                &&& old(edges)@[s@[i] as int].spec_rank() == i
            },
        !set_tree ==> forall|i: int|
            from <= i < s@.len() ==> old(edges)@[#[trigger] s@[i] as int].spec_tree() == me,
    ensures
        placed_all(final(edges)@, s@, me),
        frame(old(edges)@, final(edges)@, s@, s@),
{
    let mut k = from;
    while k < s.len()
        invariant
            from <= k <= s@.len(),
            edges@.len() == old(edges)@.len(),
            forall|i: int| 0 <= i < s@.len() ==> #[trigger] s@[i] < old(edges)@.len(),
            forall|i: int, j: int| 0 <= i < j < s@.len() ==> s@[i] != s@[j],
            forall|i: int|
                0 <= i < k ==> {
                    &&& edges@[#[trigger] s@[i] as int].spec_tree() == me
                    &&& edges@[s@[i] as int].spec_rank() == i
                },
            !set_tree ==> forall|i: int|
                k <= i < s@.len() ==> edges@[#[trigger] s@[i] as int].spec_tree() == me,
            frame(old(edges)@, edges@, s@, s@),
        decreases s@.len() - k,
    {
        let x = s[k];
        let ghost before = edges@;
        let mut e = edges[x];
        if set_tree {
            e.set_tree(me);
        }
        e.set_rank(k);
        edges.set(x, e);
        proof {
            assert forall|i: int| 0 <= i < k + 1 implies {
                &&& edges@[#[trigger] s@[i] as int].spec_tree() == me
                &&& edges@[s@[i] as int].spec_rank() == i
            } by {
                if i < k {
                    assert(s@[i] != s@[k as int]);
                }
            }
            assert forall|i: int| k + 1 <= i < s@.len() && !set_tree implies edges@[
                #[trigger] s@[i] as int
            ].spec_tree() == me by {
                assert(s@[i] != s@[k as int]);
            }
            assert forall|q: int|
                0 <= q < edges@.len() && !s@.contains(q as usize) && !s@.contains(
                    q as usize,
                ) implies #[trigger] edges@[q] == old(edges)@[q] by {
                if q == x as int {
                    assert(s@.contains(x));
                }
            }
        }
        k = k + 1;
    }
}

impl EdgeSeq {
    /// The sequence holds each edge once, and the table records it at its position in
    /// sequence `me`.
    pub open spec fn placed(&self, edges: Seq<SeqEdge>, me: usize) -> bool {
        placed_all(edges, self@, me)
    }

    /// An empty sequence with room for `cap` edges.
    pub fn with_capacity(cap: usize) -> (s: Self)
        ensures
            s@ == Seq::<usize>::empty(),
    {
        EdgeSeq { inner: Vec::with_capacity(cap) }
    }

    /// The first edge, if any.
    pub fn first(&self) -> (r: Option<usize>)
        ensures
            r == (if self@.len() > 0 { Some(self@[0]) } else { None::<usize> }),
    {
        if self.inner.len() > 0 {
            Some(self.inner[0])
        } else {
            None
        }
    }

    /// The number of edges.
    pub fn len(&self) -> (r: usize)
        ensures
            r == self@.len(),
    {
        self.inner.len()
    }

    /// The edge at position `i`.
    pub fn get(&self, i: usize) -> (r: usize)
        requires
            i < self@.len(),
        ensures
            r == self@[i as int],
    {
        self.inner[i]
    }

    /// Removes every edge; the table is not touched.
    pub fn clear(&mut self)
        ensures
            final(self)@ == Seq::<usize>::empty(),
    {
        self.inner.clear();
    }

    /// Removes and returns the last edge.
    pub fn pop(&mut self) -> (r: Option<usize>)
        ensures
            old(self)@.len() == 0 ==> r is None && final(self)@ == old(self)@,
            old(self)@.len() > 0 ==> r == Some(old(self)@.last()) && final(self)@ == old(
                self,
            )@.drop_last(),
    {
        self.inner.pop()
    }

    proof fn lemma_unique(&self, edges: Seq<SeqEdge>, me: usize)
        requires
            self.placed(edges, me),
        ensures
            forall|i: int, j: int| 0 <= i < j < self@.len() ==> self@[i] != self@[j],
    {
        assert forall|i: int, j: int| 0 <= i < j < self@.len() implies self@[i] != self@[j] by {
            if self@[i] == self@[j] {
                assert(edges[self@[i] as int].spec_rank() == i);
                assert(edges[self@[j] as int].spec_rank() == j);
            }
        }
    }

    /// Appends the edge `e`, which no sequence holds, recording it in the table.
    pub fn push(&mut self, edges: &mut Vec<SeqEdge>, me: usize, e: usize)
        requires
            old(self).placed(old(edges)@, me),
            e < old(edges)@.len(),
            !old(self)@.contains(e),
        ensures
            final(self)@ == old(self)@.push(e),
            final(self).placed(final(edges)@, me),
            frame(old(edges)@, final(edges)@, old(self)@, final(self)@),
    {
        let ghost old_edges = edges@;
        let mut x = edges[e];
        x.set_tree(me);
        x.set_rank(self.inner.len());
        edges.set(e, x);
        self.inner.push(e);
        proof {
            assert forall|i: int| 0 <= i < self@.len() implies {
                &&& #[trigger] self@[i] < edges@.len()
                &&& edges@[self@[i] as int].spec_tree() == me
                &&& edges@[self@[i] as int].spec_rank() == i
            } by {
                if i < self@.len() - 1 {
                    assert(old(self)@[i] != e) by {
                        assert(old(self)@.contains(old(self)@[i]));
                    }
                }
            }
            assert forall|q: int|
                0 <= q < edges@.len() && !old(self)@.contains(q as usize) && !self@.contains(
                    q as usize,
                ) implies #[trigger] edges@[q] == old_edges[q] by {
                if q == e as int {
                    assert(self@[self@.len() - 1] == e);
                    assert(self@.contains(e));
                }
            }
        }
    }

    /// Turns the sequence left by `p` positions: the edge at `p` comes first.
    pub fn rotate(&mut self, edges: &mut Vec<SeqEdge>, me: usize, p: usize)
        requires
            old(self).placed(old(edges)@, me),
            p <= old(self)@.len(),
        ensures
            final(self)@ == old(self)@.skip(p as int) + old(self)@.take(p as int),
            final(self).placed(final(edges)@, me),
            frame(old(edges)@, final(edges)@, old(self)@, final(self)@),
    {
        proof {
            self.lemma_unique(edges@, me);
        }
        let ghost s0 = self@;
        let n = self.inner.len();
        let mut v: Vec<usize> = Vec::with_capacity(n);
        let mut i = p;
        while i < n
            invariant
                p <= i <= n,
                n == s0.len(),
                self@ == s0,
                v@ == s0.subrange(p as int, i as int),
            decreases n - i,
        {
            v.push(self.inner[i]);
            i = i + 1;
        }
        let mut j: usize = 0;
        while j < p
            invariant
                j <= p <= n,
                n == s0.len(),
                self@ == s0,
                v@ == s0.subrange(p as int, n as int) + s0.subrange(0, j as int),
            decreases p - j,
        {
            v.push(self.inner[j]);
            j = j + 1;
        }
        proof {
            assert(v@ =~= s0.skip(p as int) + s0.take(p as int));
            assert forall|a: int| 0 <= a < v@.len() implies #[trigger] v@[a] < edges@.len()
                && edges@[v@[a] as int].spec_tree() == me by {
                if a < n - p {
                    assert(v@[a] == s0[a + p]);
                } else {
                    assert(v@[a] == s0[a - (n - p)]);
                }
            }
            assert forall|a: int, b: int| 0 <= a < b < v@.len() implies v@[a] != v@[b] by {
                let oa = if a < n - p { a + p } else { a - (n - p) };
                let ob = if b < n - p { b + p } else { b - (n - p) };
                assert(v@[a] == s0[oa]);
                assert(v@[b] == s0[ob]);
            }
        }
        renumber(edges, &v, 0, me, false);
        self.inner = v;
        proof {
            assert forall|q: int|
                0 <= q < edges@.len() && !s0.contains(q as usize) && !self@.contains(
                    q as usize,
                ) implies #[trigger] edges@[q] == old(edges)@[q] by {
            }
        }
    }

    /// Moves every edge of `from` (sequence `from_id`) to the end of this sequence.
    pub fn append(&mut self, edges: &mut Vec<SeqEdge>, me: usize, from: &mut EdgeSeq, from_id: usize)
        requires
            old(self).placed(old(edges)@, me),
            old(from).placed(old(edges)@, from_id),
            from_id != me,
        ensures
            final(self)@ == old(self)@ + old(from)@,
            final(from)@ == Seq::<usize>::empty(),
            final(self).placed(final(edges)@, me),
            frame(old(edges)@, final(edges)@, old(self)@, final(self)@),
    {
        proof {
            self.lemma_unique(edges@, me);
            from.lemma_unique(edges@, from_id);
        }
        let ghost s0 = self@;
        let ghost f0 = from@;
        let start = self.inner.len();
        self.inner.append(&mut from.inner);
        proof {
            assert(self@ =~= s0 + f0);
            assert forall|a: int, b: int| 0 <= a < b < self@.len() implies self@[a] != self@[b] by {
                if a < s0.len() && b >= s0.len() {
                    assert(edges@[self@[a] as int].spec_tree() == me);
                    assert(edges@[self@[b] as int].spec_tree() == from_id);
                }
            }
        }
        renumber(edges, &self.inner, start, me, true);
    }

    /// Inserts at position `index` the edge `first`, then the edges of `other` (sequence
    /// `other_id`) turned left by `p` positions, then the edge `last`; `other` is left empty.
    pub fn insert_rotated(
        &mut self,
        edges: &mut Vec<SeqEdge>,
        me: usize,
        index: usize,
        first: usize,
        last: usize,
        other: &mut EdgeSeq,
        other_id: usize,
        p: usize,
    )
        requires
            old(self).placed(old(edges)@, me),
            old(other).placed(old(edges)@, other_id),
            other_id != me,
            index <= old(self)@.len(),
            p <= old(other)@.len(),
            first < old(edges)@.len(),
            last < old(edges)@.len(),
            first != last,
            !old(self)@.contains(first),
            !old(self)@.contains(last),
            !old(other)@.contains(first),
            !old(other)@.contains(last),
        ensures
            final(self)@ == old(self)@.take(index as int) + seq![first] + old(other)@.skip(p as int) + old(
                other,
            )@.take(p as int) + seq![last] + old(self)@.skip(index as int),
            final(other)@ == Seq::<usize>::empty(),
            final(self).placed(final(edges)@, me),
            frame(old(edges)@, final(edges)@, old(self)@, final(self)@),
    {
        proof {
            self.lemma_unique(edges@, me);
            other.lemma_unique(edges@, other_id);
        }
        let ghost s0 = self@;
        let ghost o0 = other@;
        let ghost e0 = edges@;
        let n = self.inner.len();
        let m = other.inner.len();
        let mut v: Vec<usize> = Vec::new();
        let mut j: usize = 0;
        while j < index
            invariant
                j <= index <= n,
                n == s0.len(),
                self@ == s0,
                v@ == s0.subrange(0, j as int),
            decreases index - j,
        {
            v.push(self.inner[j]);
            j = j + 1;
        }
        v.push(first);
        let mut i = p;
        while i < m
            invariant
                p <= i <= m,
                m == o0.len(),
                index <= n,
                other@ == o0,
                v@ == s0.take(index as int) + seq![first] + o0.subrange(p as int, i as int),
            decreases m - i,
        {
            v.push(other.inner[i]);
            i = i + 1;
        }
        let mut i2: usize = 0;
        while i2 < p
            invariant
                i2 <= p <= m,
                m == o0.len(),
                other@ == o0,
                v@ == s0.take(index as int) + seq![first] + o0.skip(p as int) + o0.subrange(0, i2 as int),
            decreases p - i2,
        {
            v.push(other.inner[i2]);
            i2 = i2 + 1;
        }
        v.push(last);
        let mut k = index;
        while k < n
            invariant
                index <= k <= n,
                n == s0.len(),
                self@ == s0,
                v@ == s0.take(index as int) + seq![first] + o0.skip(p as int) + o0.take(p as int) + seq![last]
                    + s0.subrange(index as int, k as int),
            decreases n - k,
        {
            v.push(self.inner[k]);
            k = k + 1;
        }
        other.clear();
        proof {
            let w = v@;
            assert(w =~= s0.take(index as int) + seq![first] + o0.skip(p as int) + o0.take(p as int) + seq![last]
                + s0.skip(index as int));
            let li = index as int;
            let lm = m as int;
            let lp = p as int;
            assert(w.len() == s0.len() + lm + 2);
            assert forall|a: int| 0 <= a < w.len() implies {
                &&& (a < li ==> w[a] == s0[a])
                &&& (a == li ==> w[a] == first)
                &&& (li < a <= li + lm - lp ==> w[a] == o0[a - li - 1 + lp])
                &&& (li + lm - lp < a <= li + lm ==> w[a] == o0[a - li - 1 - (lm - lp)])
                &&& (a == li + lm + 1 ==> w[a] == last)
                &&& (a > li + lm + 1 ==> w[a] == s0[a - lm - 2])
            } by {
            }
            assert forall|a: int| 0 <= a < w.len() implies #[trigger] w[a] < e0.len() by {
                if a < li {
                    assert(w[a] == s0[a]);
                } else if a > li + lm + 1 {
                    assert(w[a] == s0[a - lm - 2]);
                } else if li < a <= li + lm - lp {
                    assert(w[a] == o0[a - li - 1 + lp]);
                } else if li + lm - lp < a <= li + lm {
                    assert(w[a] == o0[a - li - 1 - (lm - lp)]);
                }
            }
            assert forall|a: int, b: int| 0 <= a < b < w.len() implies w[a] != w[b] by {
                let ia = if a < li { a } else { a - lm - 2 };
                let ib = if b < li { b } else { b - lm - 2 };
                let ja = if a <= li + lm - lp { a - li - 1 + lp } else { a - li - 1 - (lm - lp) };
                let jb = if b <= li + lm - lp { b - li - 1 + lp } else { b - li - 1 - (lm - lp) };
                let sa = a < li || a > li + lm + 1;
                let sb = b < li || b > li + lm + 1;
                let oa = li < a <= li + lm;
                let ob = li < b <= li + lm;
                if sa {
                    assert(w[a] == s0[ia]);
                    assert(s0.contains(s0[ia]));
                    assert(e0[s0[ia] as int].spec_tree() == me);
                }
                if sb {
                    assert(w[b] == s0[ib]);
                    assert(s0.contains(s0[ib]));
                    assert(e0[s0[ib] as int].spec_tree() == me);
                }
                if oa {
                    assert(w[a] == o0[ja]);
                    assert(o0.contains(o0[ja]));
                    assert(e0[o0[ja] as int].spec_tree() == other_id);
                }
                if ob {
                    assert(w[b] == o0[jb]);
                    assert(o0.contains(o0[jb]));
                    assert(e0[o0[jb] as int].spec_tree() == other_id);
                }
            }
            assert forall|a: int| 0 <= a < li implies {
                &&& e0[#[trigger] w[a] as int].spec_tree() == me
                &&& e0[w[a] as int].spec_rank() == a
            } by {
                assert(w[a] == s0[a]);
            }
        }
        renumber(edges, &v, index, me, true);
        self.inner = v;
        proof {
            assert forall|q: int|
                0 <= q < edges@.len() && !s0.contains(q as usize) && !self@.contains(
                    q as usize,
                ) implies #[trigger] edges@[q] == e0[q] by {
            }
        }
    }

    /// Removes the edges at positions `start..end`; those strictly inside the range move to the
    /// end of `to` (sequence `to_id`), the two at its ends leave both sequences.
    pub fn extract(
        &mut self,
        edges: &mut Vec<SeqEdge>,
        me: usize,
        start: usize,
        end: usize,
        to: &mut EdgeSeq,
        to_id: usize,
    )
        requires
            old(self).placed(old(edges)@, me),
            old(to).placed(old(edges)@, to_id),
            to_id != me,
            start + 2 <= end <= old(self)@.len(),
        ensures
            final(self)@ == old(self)@.take(start as int) + old(self)@.skip(end as int),
            final(to)@ == old(to)@ + old(self)@.subrange(start + 1, end - 1),
            final(self).placed(final(edges)@, me),
            final(to).placed(final(edges)@, to_id),
            frame(old(edges)@, final(edges)@, old(self)@, final(to)@),
    {
        proof {
            self.lemma_unique(edges@, me);
            to.lemma_unique(edges@, to_id);
        }
        let ghost s0 = self@;
        let ghost t0 = to@;
        let ghost e0 = edges@;
        let tl = to.inner.len();
        let mut i = start + 1;
        while i < end - 1
            invariant
                start + 1 <= i <= end - 1,
                start + 2 <= end <= s0.len(),
                self@ == s0,
                to@ == t0 + s0.subrange(start + 1, i as int),
            decreases end - 1 - i,
        {
            to.inner.push(self.inner[i]);
            i = i + 1;
        }
        let mut rest: Vec<usize> = Vec::with_capacity(self.inner.len());
        let mut j: usize = 0;
        while j < start
            invariant
                j <= start,
                start + 2 <= end <= s0.len(),
                self@ == s0,
                rest@ == s0.subrange(0, j as int),
            decreases start - j,
        {
            rest.push(self.inner[j]);
            j = j + 1;
        }
        let n = self.inner.len();
        let mut k = end;
        while k < n
            invariant
                end <= k <= n,
                start + 2 <= end,
                n == s0.len(),
                self@ == s0,
                rest@ == s0.subrange(0, start as int) + s0.subrange(end as int, k as int),
            decreases n - k,
        {
            rest.push(self.inner[k]);
            k = k + 1;
        }
        proof {
            assert(rest@ =~= s0.take(start as int) + s0.skip(end as int));
            assert forall|a: int| 0 <= a < to@.len() implies #[trigger] to@[a] < e0.len() by {
                if a >= t0.len() {
                    assert(to@[a] == s0[a - t0.len() + start + 1]);
                }
            }
            assert forall|a: int, b: int| 0 <= a < b < to@.len() implies to@[a] != to@[b] by {
                if b >= t0.len() {
                    assert(to@[b] == s0[b - t0.len() + start + 1]);
                    assert(e0[to@[b] as int].spec_tree() == me);
                    if a >= t0.len() {
                        assert(to@[a] == s0[a - t0.len() + start + 1]);
                    } else {
                        assert(e0[to@[a] as int].spec_tree() == to_id);
                    }
                }
            }
            assert forall|a: int| 0 <= a < rest@.len() implies #[trigger] rest@[a] < e0.len() && e0[
                rest@[a] as int].spec_tree() == me by {
                if a >= start {
                    assert(rest@[a] == s0[a - start + end]);
                }
            }
            assert forall|a: int, b: int| 0 <= a < b < rest@.len() implies rest@[a] != rest@[b] by {
                let oa = if a < start { a } else { a - start + end };
                let ob = if b < start { b } else { b - start + end };
                assert(rest@[a] == s0[oa]);
                assert(rest@[b] == s0[ob]);
            }
            assert forall|a: int| 0 <= a < start implies e0[#[trigger] rest@[a] as int].spec_rank() == a by {
                assert(rest@[a] == s0[a]);
            }
        }
        renumber(edges, &to.inner, tl, to_id, true);
        let ghost e1 = edges@;
        proof {
            assert forall|a: int| 0 <= a < rest@.len() implies #[trigger] rest@[a] < e1.len() && e1[
                rest@[a] as int].spec_tree() == me && (a < start ==> e1[rest@[a] as int].spec_rank() == a) by {
                let oa = if a < start { a } else { a - start + end };
                assert(rest@[a] == s0[oa]);
                if to@.contains(rest@[a]) {
                    let c = choose|c: int| 0 <= c < to@.len() && to@[c] == rest@[a];
                    if c < t0.len() {
                        assert(e0[to@[c] as int].spec_tree() == to_id);
                    } else {
                        assert(to@[c] == s0[c - t0.len() + start + 1]);
                    }
                }
            }
        }
        renumber(edges, &rest, start, me, false);
        self.inner = rest;
        proof {
            assert forall|a: int| 0 <= a < to@.len() implies {
                &&& #[trigger] to@[a] < edges@.len()
                &&& edges@[to@[a] as int].spec_tree() == to_id
                &&& edges@[to@[a] as int].spec_rank() == a
            } by {
                if self@.contains(to@[a]) {
                    assert(e1[to@[a] as int].spec_tree() == to_id);
                }
            }
            assert forall|q: int|
                0 <= q < edges@.len() && !s0.contains(q as usize) && !to@.contains(
                    q as usize,
                ) implies #[trigger] edges@[q] == e0[q] by {
                if self@.contains(q as usize) {
                    let c = choose|c: int| 0 <= c < self@.len() && self@[c] == q as usize;
                    let oc = if c < start { c } else { c - start + end };
                    assert(self@[c] == s0[oc]);
                }
            }
        }
    }
}

/// Two successive changes of the table, each within `j`, change it within `j`.
pub proof fn lemma_frame_trans(
    e1: Seq<SeqEdge>,
    e2: Seq<SeqEdge>,
    e3: Seq<SeqEdge>,
    s1: Seq<usize>,
    t1: Seq<usize>,
    s2: Seq<usize>,
    t2: Seq<usize>,
    j: Seq<usize>,
)
    requires
        frame(e1, e2, s1, t1),
        frame(e2, e3, s2, t2),
        forall|x: usize| s1.contains(x) || t1.contains(x) || s2.contains(x) || t2.contains(x) ==> #[trigger] j.contains(x),
    ensures
        frame(e1, e3, j, j),
{
    assert forall|k: int| 0 <= k < e3.len() && !j.contains(k as usize) && !j.contains(k as usize)
        implies #[trigger] e3[k] == e1[k] by {
        assert(e2[k] == e1[k]);
    }
    assert forall|k: int| 0 <= k < e3.len() implies (#[trigger] e3[k]).spec_id() == e1[k].spec_id() by {
        assert(e2[k].spec_id() == e1[k].spec_id());
    }
}

} // verus!
