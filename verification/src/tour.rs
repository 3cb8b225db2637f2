//! Euler tours of trees, as sequences of edge directions.
//!
//! The directions `2 * i` and `2 * i + 1` of the edge `i` with ends `(u, v)` go from `u` to
//! `v` and from `v` to `u`. A tour is a closed walk that holds both directions of each of its
//! edges once. It is *laminar*: between the two directions of an edge the walk only visits
//! vertices that it does not visit outside them. That is what lets a tour be cut at an edge
//! into the tours of the two trees that the cut leaves.
use vstd::prelude::*;
use crate::seq::pair_of;

verus! {

/// The vertex that the edge direction `x` leaves.
pub open spec fn src(ends: Seq<(usize, usize)>, x: int) -> int {
    if x % 2 == 0 {
        ends[x / 2].0 as int
    } else {
        ends[x / 2].1 as int
    }
}

/// The vertex that the edge direction `x` enters.
pub open spec fn tgt(ends: Seq<(usize, usize)>, x: int) -> int {
    if x % 2 == 0 {
        ends[x / 2].1 as int
    } else {
        ends[x / 2].0 as int
    }
}

/// The position after `i` in a cyclic sequence of length `n`.
pub open spec fn nxt(i: int, n: int) -> int {
    if i + 1 < n {
        i + 1
    } else {
        0
    }
}

/// Each direction enters the vertex that the next one (cyclically) leaves.
pub open spec fn walk(ends: Seq<(usize, usize)>, t: Seq<usize>) -> bool {
    forall|i: int|
        0 <= i < t.len() ==> #[trigger] tgt(ends, t[i] as int) == src(ends, t[nxt(i, t.len() as int)] as int)
}

/// The vertices left inside the positions `(a, b]` are not left anywhere else.
#[verifier::opaque]
pub open spec fn apart(ends: Seq<(usize, usize)>, t: Seq<usize>, a: int, b: int) -> bool {
    forall|i: int, j: int|
        #![trigger t[i], t[j]]
        a < i <= b && (0 <= j <= a || b < j < t.len()) ==> src(ends, t[i] as int) != src(
            ends,
            t[j] as int,
        )
}

/// Between the two directions of each edge lie the vertices of one side of it only.
pub open spec fn laminar(ends: Seq<(usize, usize)>, t: Seq<usize>) -> bool {
    forall|a: int, b: int|
        0 <= a < b < t.len() && t[b] as int == pair_of(t[a] as int) ==> #[trigger] apart(ends, t, a, b)
}

/// No direction occurs twice.
pub open spec fn unique(t: Seq<usize>) -> bool {
    forall|i: int, j: int| 0 <= i < j < t.len() ==> t[i] != t[j]
}

/// The other direction of the edge at position `i` occurs too.
#[verifier::opaque]
pub open spec fn has_pair(t: Seq<usize>, i: int) -> bool {
    exists|j: int| 0 <= j < t.len() && t[j] as int == pair_of(t[i] as int)
}

/// With each direction, the other direction of its edge occurs.
pub open spec fn closed(t: Seq<usize>) -> bool {
    forall|i: int| 0 <= i < t.len() ==> #[trigger] has_pair(t, i)
}

/// The sequence is the Euler tour of a tree.
pub open spec fn tour(ends: Seq<(usize, usize)>, t: Seq<usize>) -> bool {
    &&& walk(ends, t)
    &&& laminar(ends, t)
    &&& unique(t)
    &&& closed(t)
}

/// A direction's target is its pair's source.
pub proof fn lemma_pair(ends: Seq<(usize, usize)>, x: int)
    requires
        x >= 0,
    ensures
        tgt(ends, x) == src(ends, pair_of(x)),
        src(ends, x) == tgt(ends, pair_of(x)),
        pair_of(pair_of(x)) == x,
        pair_of(x) >= 0,
{
}

/// The parts that cutting `t` at positions `a < b` leaves: the tour outside and the tour
/// strictly between.
pub open spec fn outer(t: Seq<usize>, a: int, b: int) -> Seq<usize> {
    t.take(a) + t.skip(b + 1)
}

pub open spec fn inner(t: Seq<usize>, a: int, b: int) -> Seq<usize> {
    t.subrange(a + 1, b)
}

/// Where position `i` of the outer part lies in `t`.
pub open spec fn outer_pos(a: int, b: int, i: int) -> int {
    if i < a {
        i
    } else {
        i + b + 1 - a
    }
}

proof fn lemma_split_pos(t: Seq<usize>, a: int, b: int)
    requires
        0 <= a < b < t.len(),
    ensures
        outer(t, a, b).len() + inner(t, a, b).len() + 2 == t.len(),
        forall|i: int|
            0 <= i < outer(t, a, b).len() ==> #[trigger] outer(t, a, b)[i] == t[outer_pos(a, b, i)],
        forall|i: int| 0 <= i < inner(t, a, b).len() ==> #[trigger] inner(t, a, b)[i] == t[i + a + 1],
{
}

/// The vertices at the cut: `src(t[a])` is left by `t[b + 1]` (or, cyclically, `t[0]`), and
/// `tgt(t[a])` by `t[a + 1]`.
proof fn lemma_split_ends(ends: Seq<(usize, usize)>, t: Seq<usize>, a: int, b: int)
    requires
        tour(ends, t),
        0 <= a < b < t.len(),
        t[b] as int == pair_of(t[a] as int),
    ensures
        tgt(ends, t[b] as int) == src(ends, t[a] as int),
        src(ends, t[b] as int) == tgt(ends, t[a] as int),
        src(ends, t[nxt(b, t.len() as int)] as int) == src(ends, t[a] as int),
        src(ends, t[a + 1] as int) == tgt(ends, t[a] as int),
{
    lemma_pair(ends, t[a] as int);
    assert(tgt(ends, t[b] as int) == src(ends, t[nxt(b, t.len() as int)] as int));
    assert(tgt(ends, t[a] as int) == src(ends, t[nxt(a, t.len() as int)] as int));
}

proof fn lemma_split_walk(ends: Seq<(usize, usize)>, t: Seq<usize>, a: int, b: int)
    requires
        tour(ends, t),
        0 <= a < b < t.len(),
        t[b] as int == pair_of(t[a] as int),
    ensures
        walk(ends, outer(t, a, b)),
        walk(ends, inner(t, a, b)),
{
    let n = t.len() as int;
    let t1 = outer(t, a, b);
    let t2 = inner(t, a, b);
    lemma_split_pos(t, a, b);
    lemma_split_ends(ends, t, a, b);
    assert forall|i: int| 0 <= i < t1.len() implies #[trigger] tgt(ends, t1[i] as int) == src(
        ends,
        t1[nxt(i, t1.len() as int)] as int,
    ) by {
        let oi = outer_pos(a, b, i);
        assert(tgt(ends, t[oi] as int) == src(ends, t[nxt(oi, n)] as int));
        if i + 1 < t1.len() {
            if i + 1 == a {
                assert(nxt(oi, n) == a);
                assert(t1[i + 1] == t[b + 1]);
            } else {
                assert(t1[i + 1] == t[nxt(oi, n)]);
            }
        } else {
            assert(t1[0] == t[outer_pos(a, b, 0)]);
            if a > 0 {
                if i < a {
                    assert(nxt(oi, n) == a);
                } else {
                    assert(nxt(oi, n) == 0);
                }
            } else {
                assert(oi == n - 1);
                assert(nxt(b, n) == b + 1);
            }
        }
    }
    assert forall|i: int| 0 <= i < t2.len() implies #[trigger] tgt(ends, t2[i] as int) == src(
        ends,
        t2[nxt(i, t2.len() as int)] as int,
    ) by {
        assert(tgt(ends, t[i + a + 1] as int) == src(ends, t[nxt(i + a + 1, n)] as int));
        assert(t2[nxt(i, t2.len() as int)] == t[nxt(i, t2.len() as int) + a + 1]);
    }
}

proof fn lemma_split_sources(ends: Seq<(usize, usize)>, t: Seq<usize>, a: int, b: int)
    requires
        tour(ends, t),
        0 <= a < b < t.len(),
        t[b] as int == pair_of(t[a] as int),
    ensures
        ({
            let t1 = outer(t, a, b);
            let t2 = inner(t, a, b);
            let u = src(ends, t[a] as int);
            let v = tgt(ends, t[a] as int);
            &&& forall|i: int, j: int|
                0 <= i < t1.len() && 0 <= j < t2.len() ==> src(ends, #[trigger] t1[i] as int) != src(
                    ends,
                    #[trigger] t2[j] as int,
                )
            &&& forall|j: int| 0 <= j < t2.len() ==> src(ends, #[trigger] t2[j] as int) != u
            &&& forall|i: int| 0 <= i < t1.len() ==> src(ends, #[trigger] t1[i] as int) != v
            &&& t2.len() > 0 ==> src(ends, t2[0] as int) == v
            &&& a < t1.len() ==> src(ends, t1[a] as int) == u
            &&& (t1.len() > 0 && a == t1.len()) ==> src(ends, t1[0] as int) == u
        }),
{
    let t1 = outer(t, a, b);
    let t2 = inner(t, a, b);
    let n = t.len() as int;
    lemma_split_pos(t, a, b);
    lemma_split_ends(ends, t, a, b);
    assert(apart(ends, t, a, b));
    reveal(apart);
    assert forall|i: int, j: int|
        0 <= i < t1.len() && 0 <= j < t2.len() implies src(ends, #[trigger] t1[i] as int) != src(
        ends,
        #[trigger] t2[j] as int,
    ) by {
        let oi = outer_pos(a, b, i);
        assert(t[j + a + 1] == t2[j]);
        assert(t[oi] == t1[i]);
    }
    assert forall|j: int| 0 <= j < t2.len() implies src(ends, #[trigger] t2[j] as int) != src(
        ends,
        t[a] as int,
    ) by {
        assert(t[j + a + 1] == t2[j]);
    }
    assert forall|i: int| 0 <= i < t1.len() implies src(ends, #[trigger] t1[i] as int) != tgt(
        ends,
        t[a] as int,
    ) by {
        let oi = outer_pos(a, b, i);
        assert(t[oi] == t1[i]);
        assert(t[b] == t[b]);
    }
    if a < t1.len() {
        assert(t1[a] == t[b + 1]);
        assert(nxt(b, n) == b + 1);
    }
    if t1.len() > 0 && a == t1.len() {
        assert(b + 1 == n);
        if a > 0 {
            assert(t1[0] == t[0]);
        }
    }
}

proof fn lemma_split_elems(ends: Seq<(usize, usize)>, t: Seq<usize>, a: int, b: int)
    requires
        tour(ends, t),
        0 <= a < b < t.len(),
        t[b] as int == pair_of(t[a] as int),
    ensures
        ({
            let t1 = outer(t, a, b);
            let t2 = inner(t, a, b);
            &&& unique(t1)
            &&& unique(t2)
            &&& forall|x: usize|
                t.contains(x) <==> (t1.contains(x) || t2.contains(x) || x == t[a] || x == t[b])
            &&& forall|x: usize| t1.contains(x) ==> x != t[a] && x != t[b] && !t2.contains(x)
            &&& forall|x: usize| t2.contains(x) ==> x != t[a] && x != t[b]
        }),
{
    let t1 = outer(t, a, b);
    let t2 = inner(t, a, b);
    let n = t.len() as int;
    let d = b + 1 - a;
    lemma_split_pos(t, a, b);
    assert forall|i: int, j: int| 0 <= i < j < t1.len() implies t1[i] != t1[j] by {
        assert(t1[i] == t[outer_pos(a, b, i)]);
        assert(t1[j] == t[outer_pos(a, b, j)]);
    }
    assert forall|i: int, j: int| 0 <= i < j < t2.len() implies t2[i] != t2[j] by {
        assert(t2[i] == t[i + a + 1]);
        assert(t2[j] == t[j + a + 1]);
    }
    assert forall|x: usize|
        t.contains(x) implies (t1.contains(x) || t2.contains(x) || x == t[a] || x == t[b]) by {
        let p = choose|p: int| 0 <= p < n && t[p] == x;
        if p < a {
            assert(t1[p] == x);
        } else if a < p < b {
            assert(t2[p - a - 1] == x);
        } else if p > b {
            assert(t1[p - d] == x);
        }
    }
    assert forall|x: usize| t1.contains(x) implies x != t[a] && x != t[b] && !t2.contains(x)
        && t.contains(x) by {
        let p = choose|p: int| 0 <= p < t1.len() && t1[p] == x;
        let op = outer_pos(a, b, p);
        assert(t[op] == x);
        if t2.contains(x) {
            let q = choose|q: int| 0 <= q < t2.len() && t2[q] == x;
            assert(t[q + a + 1] == x);
        }
    }
    assert forall|x: usize| t2.contains(x) implies x != t[a] && x != t[b] && t.contains(x) by {
        let q = choose|q: int| 0 <= q < t2.len() && t2[q] == x;
        assert(t[q + a + 1] == x);
    }
}

proof fn lemma_split_closed(ends: Seq<(usize, usize)>, t: Seq<usize>, a: int, b: int)
    requires
        tour(ends, t),
        0 <= a < b < t.len(),
        t[b] as int == pair_of(t[a] as int),
    ensures
        closed(inner(t, a, b)),
        closed(outer(t, a, b)),
{
    let t1 = outer(t, a, b);
    let t2 = inner(t, a, b);
    let n = t.len() as int;
    let d = b + 1 - a;
    lemma_split_pos(t, a, b);
    lemma_pair(ends, t[a] as int);
    assert(apart(ends, t, a, b));
    reveal(apart);
    reveal(has_pair);
    assert forall|i: int| 0 <= i < t2.len() implies #[trigger] has_pair(t2, i) by {
        let p = i + a + 1;
        assert(t[p] == t2[i]);
        assert(has_pair(t, p));
        let q = choose|q: int| 0 <= q < n && t[q] as int == pair_of(t[p] as int);
        lemma_pair(ends, t[p] as int);
        assert(tgt(ends, t[p] as int) == src(ends, t[nxt(p, n)] as int));
        assert(nxt(p, n) == p + 1);
        assert(src(ends, t[q] as int) == tgt(ends, t[p] as int));
        if q <= a || q >= b {
            if q == a {
                assert(t[p] as int == pair_of(t[a] as int));
                assert(t[p] == t[b]);
            } else if q == b {
                assert(t[p] == t[a]);
            } else {
                assert(src(ends, t[p + 1] as int) != src(ends, t[q] as int));
            }
        }
        assert(t2[q - a - 1] == t[q]);
    }
    assert forall|i: int| 0 <= i < t1.len() implies #[trigger] has_pair(t1, i) by {
        let p = outer_pos(a, b, i);
        assert(t[p] == t1[i]);
        assert(has_pair(t, p));
        let q = choose|q: int| 0 <= q < n && t[q] as int == pair_of(t[p] as int);
        lemma_pair(ends, t[p] as int);
        lemma_pair(ends, t[q] as int);
        if a <= q <= b {
            if q == a {
                assert(t[p] == t[b]);
            } else if q == b {
                assert(t[p] == t[a]);
            } else {
                assert(tgt(ends, t[q] as int) == src(ends, t[nxt(q, n)] as int));
                assert(nxt(q, n) == q + 1);
                assert(tgt(ends, t[q] as int) == src(ends, t[p] as int));
                assert(src(ends, t[q + 1] as int) != src(ends, t[p] as int));
            }
        }
        if q < a {
            assert(t1[q] == t[q]);
        } else {
            assert(t1[q - d] == t[q]);
        }
    }
}

proof fn lemma_split_laminar(ends: Seq<(usize, usize)>, t: Seq<usize>, a: int, b: int)
    requires
        tour(ends, t),
        0 <= a < b < t.len(),
        t[b] as int == pair_of(t[a] as int),
    ensures
        laminar(ends, inner(t, a, b)),
        laminar(ends, outer(t, a, b)),
{
    let t1 = outer(t, a, b);
    let t2 = inner(t, a, b);
    lemma_split_pos(t, a, b);
    reveal(apart);
    assert forall|c: int, e: int|
        0 <= c < e < t1.len() && t1[e] as int == pair_of(t1[c] as int) implies #[trigger] apart(
        ends,
        t1,
        c,
        e,
    ) by {
        let oc = outer_pos(a, b, c);
        let oe = outer_pos(a, b, e);
        assert(t[oc] == t1[c]);
        assert(t[oe] == t1[e]);
        assert(apart(ends, t, oc, oe));
        assert forall|i: int, j: int|
            c < i <= e && (0 <= j <= c || e < j < t1.len()) implies src(ends, t1[i] as int) != src(
            ends,
            t1[j] as int,
        ) by {
            assert(t[outer_pos(a, b, i)] == t1[i]);
            assert(t[outer_pos(a, b, j)] == t1[j]);
        }
    }
    assert forall|c: int, e: int|
        0 <= c < e < t2.len() && t2[e] as int == pair_of(t2[c] as int) implies #[trigger] apart(
        ends,
        t2,
        c,
        e,
    ) by {
        assert(t[c + a + 1] == t2[c]);
        assert(t[e + a + 1] == t2[e]);
        assert(apart(ends, t, c + a + 1, e + a + 1));
        assert forall|i: int, j: int|
            c < i <= e && (0 <= j <= c || e < j < t2.len()) implies src(ends, t2[i] as int) != src(
            ends,
            t2[j] as int,
        ) by {
            assert(t[i + a + 1] == t2[i]);
            assert(t[j + a + 1] == t2[j]);
        }
    }
}

/// Positions of the two parts of a cut tour.
pub proof fn lemma_split_pos_pub(t: Seq<usize>, a: int, b: int)
    requires
        0 <= a < b < t.len(),
    ensures
        outer(t, a, b).len() + inner(t, a, b).len() + 2 == t.len(),
        forall|i: int|
            0 <= i < outer(t, a, b).len() ==> #[trigger] outer(t, a, b)[i] == t[outer_pos(a, b, i)],
        forall|i: int| 0 <= i < inner(t, a, b).len() ==> #[trigger] inner(t, a, b)[i] == t[i + a + 1],
{
    lemma_split_pos(t, a, b);
}

/// In a tour, the two ends of an edge differ: its directions leave different vertices.
pub proof fn lemma_src_ne_tgt_pub(ends: Seq<(usize, usize)>, t: Seq<usize>, a: int, b: int)
    requires
        tour(ends, t),
        0 <= a < b < t.len(),
        t[b] as int == pair_of(t[a] as int),
    ensures
        src(ends, t[a] as int) != tgt(ends, t[a] as int),
{
    lemma_pair(ends, t[a] as int);
    assert(apart(ends, t, a, b));
    reveal(apart);
    assert(src(ends, t[b] as int) != src(ends, t[a] as int));
}

/// Cutting a tour at the two directions of an edge, at positions `a < b`, leaves the tour
/// outside them and the tour between them, on disjoint vertices.
pub proof fn lemma_split(ends: Seq<(usize, usize)>, t: Seq<usize>, a: int, b: int)
    requires
        tour(ends, t),
        0 <= a < b < t.len(),
        t[b] as int == pair_of(t[a] as int),
    ensures
        ({
            let t1 = outer(t, a, b);
            let t2 = inner(t, a, b);
            let u = src(ends, t[a] as int);
            let v = tgt(ends, t[a] as int);
            &&& tour(ends, t1)
            &&& tour(ends, t2)
            &&& t1.len() + t2.len() + 2 == t.len()
            &&& forall|i: int, j: int|
                0 <= i < t1.len() && 0 <= j < t2.len() ==> src(ends, #[trigger] t1[i] as int) != src(
                    ends,
                    #[trigger] t2[j] as int,
                )
            &&& forall|j: int| 0 <= j < t2.len() ==> src(ends, #[trigger] t2[j] as int) != u
            &&& forall|i: int| 0 <= i < t1.len() ==> src(ends, #[trigger] t1[i] as int) != v
            &&& t2.len() > 0 ==> src(ends, t2[0] as int) == v
            &&& a < t1.len() ==> src(ends, t1[a] as int) == u
            &&& (t1.len() > 0 && a == t1.len()) ==> src(ends, t1[0] as int) == u
            &&& forall|x: usize|
                t.contains(x) <==> (t1.contains(x) || t2.contains(x) || x == t[a] || x == t[b])
            &&& forall|x: usize| t1.contains(x) ==> x != t[a] && x != t[b] && !t2.contains(x)
            &&& forall|x: usize| t2.contains(x) ==> x != t[a] && x != t[b]
        }),
{
    lemma_split_pos(t, a, b);
    lemma_split_walk(ends, t, a, b);
    lemma_split_sources(ends, t, a, b);
    lemma_split_elems(ends, t, a, b);
    lemma_split_closed(ends, t, a, b);
    lemma_split_laminar(ends, t, a, b);
}

/// The tour turned left by `p` positions.
pub open spec fn rotated(t: Seq<usize>, p: int) -> Seq<usize> {
    t.skip(p) + t.take(p)
}

/// Where position `k` of the turned tour lies in `t`.
pub open spec fn rot_pos(n: int, p: int, k: int) -> int {
    if k < n - p {
        k + p
    } else {
        k - (n - p)
    }
}

/// Where position `i` of `t` lies in the turned tour.
pub open spec fn rot_inv(n: int, p: int, i: int) -> int {
    if i >= p {
        i - p
    } else {
        i + n - p
    }
}

proof fn lemma_rot_pos(t: Seq<usize>, p: int)
    requires
        0 <= p <= t.len(),
    ensures
        rotated(t, p).len() == t.len(),
        forall|k: int|
            0 <= k < t.len() ==> #[trigger] rotated(t, p)[k] == t[rot_pos(t.len() as int, p, k)]
                && 0 <= rot_pos(t.len() as int, p, k) < t.len(),
        forall|i: int|
            0 <= i < t.len() ==> 0 <= #[trigger] rot_inv(t.len() as int, p, i) < t.len()
                && rot_pos(t.len() as int, p, rot_inv(t.len() as int, p, i)) == i,
{
}

proof fn lemma_rotate_walk(ends: Seq<(usize, usize)>, t: Seq<usize>, p: int)
    requires
        walk(ends, t),
        0 <= p <= t.len(),
    ensures
        walk(ends, rotated(t, p)),
{
    let n = t.len() as int;
    let r = rotated(t, p);
    lemma_rot_pos(t, p);
    assert forall|k: int| 0 <= k < n implies #[trigger] tgt(ends, r[k] as int) == src(
        ends,
        r[nxt(k, n)] as int,
    ) by {
        let ok = rot_pos(n, p, k);
        assert(tgt(ends, t[ok] as int) == src(ends, t[nxt(ok, n)] as int));
        let k2 = nxt(k, n);
        assert(r[k2] == t[rot_pos(n, p, k2)]);
        if p < n {
            assert(rot_pos(n, p, k2) == nxt(ok, n));
        } else {
            assert(r =~= t);
        }
    }
}

proof fn lemma_rotate_elems(t: Seq<usize>, p: int)
    requires
        unique(t),
        closed(t),
        0 <= p <= t.len(),
    ensures
        unique(rotated(t, p)),
        closed(rotated(t, p)),
        forall|x: usize| #[trigger] rotated(t, p).contains(x) <==> t.contains(x),
        p < t.len() ==> rotated(t, p)[0] == t[p],
{
    let n = t.len() as int;
    let r = rotated(t, p);
    lemma_rot_pos(t, p);
    assert forall|i: int, j: int| 0 <= i < j < n implies r[i] != r[j] by {
        assert(r[i] == t[rot_pos(n, p, i)]);
        assert(r[j] == t[rot_pos(n, p, j)]);
    }
    reveal(has_pair);
    assert forall|k: int| 0 <= k < n implies #[trigger] has_pair(r, k) by {
        let ok = rot_pos(n, p, k);
        assert(r[k] == t[ok]);
        assert(has_pair(t, ok));
        let q = choose|q: int| 0 <= q < n && t[q] as int == pair_of(t[ok] as int);
        assert(r[rot_inv(n, p, q)] == t[q]);
    }
    assert forall|x: usize| #[trigger] r.contains(x) <==> t.contains(x) by {
        if r.contains(x) {
            let k = choose|k: int| 0 <= k < n && r[k] == x;
            assert(t[rot_pos(n, p, k)] == x);
        }
        if t.contains(x) {
            let i = choose|i: int| 0 <= i < n && t[i] == x;
            assert(r[rot_inv(n, p, i)] == x);
        }
    }
    if p < n {
        assert(r[0] == t[rot_pos(n, p, 0)]);
    }
}

proof fn lemma_rotate_laminar(ends: Seq<(usize, usize)>, t: Seq<usize>, p: int)
    requires
        laminar(ends, t),
        0 <= p <= t.len(),
    ensures
        laminar(ends, rotated(t, p)),
{
    let n = t.len() as int;
    let r = rotated(t, p);
    lemma_rot_pos(t, p);
    reveal(apart);
    assert forall|c: int, d: int|
        0 <= c < d < n && r[d] as int == pair_of(r[c] as int) implies #[trigger] apart(
        ends,
        r,
        c,
        d,
    ) by {
        let oc = rot_pos(n, p, c);
        let od = rot_pos(n, p, d);
        assert(r[c] == t[oc]);
        assert(r[d] == t[od]);
        if oc < od {
            assert(apart(ends, t, oc, od));
            assert forall|i: int, j: int|
                c < i <= d && (0 <= j <= c || d < j < n) implies src(ends, r[i] as int) != src(
                ends,
                r[j] as int,
            ) by {
                assert(r[i] == t[rot_pos(n, p, i)]);
                assert(r[j] == t[rot_pos(n, p, j)]);
            }
        } else {
            assert(t[oc] as int == pair_of(t[od] as int));
            assert(apart(ends, t, od, oc));
            assert forall|i: int, j: int|
                c < i <= d && (0 <= j <= c || d < j < n) implies src(ends, r[i] as int) != src(
                ends,
                r[j] as int,
            ) by {
                assert(r[i] == t[rot_pos(n, p, i)]);
                assert(r[j] == t[rot_pos(n, p, j)]);
            }
        }
    }
}

/// Turning a tour left keeps it a tour on the same directions.
pub proof fn lemma_rotate(ends: Seq<(usize, usize)>, t: Seq<usize>, p: int)
    requires
        tour(ends, t),
        0 <= p <= t.len(),
    ensures
        tour(ends, rotated(t, p)),
        rotated(t, p).len() == t.len(),
        forall|x: usize| #[trigger] rotated(t, p).contains(x) <==> t.contains(x),
        p < t.len() ==> rotated(t, p)[0] == t[p],
{
    lemma_rot_pos(t, p);
    lemma_rotate_walk(ends, t, p);
    lemma_rotate_elems(t, p);
    lemma_rotate_laminar(ends, t, p);
}

/// The tour of `a`, the direction `e`, the tour of `b` and the direction `f`, in turn.
pub open spec fn joined(a: Seq<usize>, e: usize, b: Seq<usize>, f: usize) -> Seq<usize> {
    a + seq![e] + b + seq![f]
}

/// The conditions for joining the tour `a` of a tree where `u` is, and the tour `b` of a
/// tree where `v` is, by the edge directions `e` (from `u` to `v`) and `f` (back).
pub open spec fn joinable(
    ends: Seq<(usize, usize)>,
    a: Seq<usize>,
    e: usize,
    b: Seq<usize>,
    f: usize,
    u: int,
    v: int,
) -> bool {
    &&& tour(ends, a)
    &&& tour(ends, b)
    &&& f as int == pair_of(e as int)
    &&& src(ends, e as int) == u
    &&& tgt(ends, e as int) == v
    &&& u != v
    &&& a.len() > 0 ==> src(ends, a[0] as int) == u
    &&& b.len() > 0 ==> src(ends, b[0] as int) == v
    &&& forall|i: int, j: int|
        0 <= i < a.len() && 0 <= j < b.len() ==> src(ends, #[trigger] a[i] as int) != src(
            ends,
            #[trigger] b[j] as int,
        )
    &&& forall|j: int| 0 <= j < b.len() ==> src(ends, #[trigger] b[j] as int) != u
    &&& forall|i: int| 0 <= i < a.len() ==> src(ends, #[trigger] a[i] as int) != v
    &&& !a.contains(e) && !a.contains(f) && !b.contains(e) && !b.contains(f)
    &&& forall|i: int, j: int| 0 <= i < a.len() && 0 <= j < b.len() ==> #[trigger] a[i] != #[trigger] b[j]
}

proof fn lemma_join_pos(a: Seq<usize>, e: usize, b: Seq<usize>, f: usize)
    ensures
        ({
            let t = joined(a, e, b, f);
            let la = a.len() as int;
            let lb = b.len() as int;
            &&& t.len() == la + lb + 2
            &&& forall|i: int| 0 <= i < la ==> #[trigger] t[i] == a[i]
            &&& t[la] == e
            &&& forall|j: int| 0 <= j < lb ==> #[trigger] t[la + 1 + j] == b[j]
            &&& t[la + lb + 1] == f
        }),
{
}

proof fn lemma_join_walk(
    ends: Seq<(usize, usize)>,
    a: Seq<usize>,
    e: usize,
    b: Seq<usize>,
    f: usize,
    u: int,
    v: int,
)
    requires
        joinable(ends, a, e, b, f, u, v),
    ensures
        walk(ends, joined(a, e, b, f)),
{
    let t = joined(a, e, b, f);
    let la = a.len() as int;
    let lb = b.len() as int;
    let n = la + lb + 2;
    lemma_join_pos(a, e, b, f);
    lemma_pair(ends, e as int);
    if la > 0 {
        assert(tgt(ends, a[la - 1] as int) == src(ends, a[nxt(la - 1, la)] as int));
    }
    if lb > 0 {
        assert(tgt(ends, b[lb - 1] as int) == src(ends, b[nxt(lb - 1, lb)] as int));
    }
    assert forall|i: int| 0 <= i < n implies #[trigger] tgt(ends, t[i] as int) == src(
        ends,
        t[nxt(i, n)] as int,
    ) by {
        if i < la - 1 {
            assert(tgt(ends, a[i] as int) == src(ends, a[nxt(i, la)] as int));
            assert(t[i + 1] == a[i + 1]);
        } else if i == la - 1 {
        } else if i == la {
            if lb > 0 {
                assert(t[la + 1 + 0] == b[0]);
            }
        } else if i < la + lb {
            let j = i - la - 1;
            assert(t[la + 1 + j] == b[j]);
            assert(tgt(ends, b[j] as int) == src(ends, b[nxt(j, lb)] as int));
            assert(t[la + 1 + (j + 1)] == b[j + 1]);
        } else if i == la + lb {
            let j = lb - 1;
            assert(t[la + 1 + j] == b[j]);
        } else {
            if la > 0 {
                assert(t[0] == a[0]);
            }
        }
    }
}

proof fn lemma_join_elems(
    ends: Seq<(usize, usize)>,
    a: Seq<usize>,
    e: usize,
    b: Seq<usize>,
    f: usize,
    u: int,
    v: int,
)
    requires
        joinable(ends, a, e, b, f, u, v),
    ensures
        unique(joined(a, e, b, f)),
        closed(joined(a, e, b, f)),
        forall|x: usize|
            #[trigger] joined(a, e, b, f).contains(x) <==> (a.contains(x) || b.contains(x) || x == e
                || x == f),
{
    let t = joined(a, e, b, f);
    let la = a.len() as int;
    let lb = b.len() as int;
    let n = la + lb + 2;
    lemma_join_pos(a, e, b, f);
    lemma_pair(ends, e as int);
    assert forall|i: int, j: int| 0 <= i < j < n implies t[i] != t[j] by {
        if i < la {
            assert(a.contains(a[i]));
            if j < la {
            } else if la < j < la + lb + 1 {
                assert(t[la + 1 + (j - la - 1)] == b[j - la - 1]);
            }
        } else if la < i < la + lb + 1 {
            assert(t[la + 1 + (i - la - 1)] == b[i - la - 1]);
            assert(b.contains(b[i - la - 1]));
            if la < j < la + lb + 1 {
                assert(t[la + 1 + (j - la - 1)] == b[j - la - 1]);
            }
        }
    }
    reveal(has_pair);
    assert forall|i: int| 0 <= i < n implies #[trigger] has_pair(t, i) by {
        if i < la {
            assert(has_pair(a, i));
            let q = choose|q: int| 0 <= q < la && a[q] as int == pair_of(a[i] as int);
            assert(t[q] == a[q]);
        } else if i == la {
            assert(t[la + lb + 1] as int == pair_of(t[i] as int));
        } else if i < la + lb + 1 {
            let j = i - la - 1;
            assert(t[la + 1 + j] == b[j]);
            assert(has_pair(b, j));
            let q = choose|q: int| 0 <= q < lb && b[q] as int == pair_of(b[j] as int);
            assert(t[la + 1 + q] == b[q]);
        } else {
            assert(t[la] as int == pair_of(t[i] as int));
        }
    }
    assert forall|x: usize|
        #[trigger] t.contains(x) <==> (a.contains(x) || b.contains(x) || x == e || x == f) by {
        if t.contains(x) {
            let k = choose|k: int| 0 <= k < n && t[k] == x;
            if k < la {
                assert(a[k] == x);
            } else if la < k < la + lb + 1 {
                assert(t[la + 1 + (k - la - 1)] == b[k - la - 1]);
                assert(b.contains(x));
            }
        }
        if a.contains(x) {
            let k = choose|k: int| 0 <= k < la && a[k] == x;
            assert(t[k] == x);
        }
        if b.contains(x) {
            let k = choose|k: int| 0 <= k < lb && b[k] == x;
            assert(t[la + 1 + k] == x);
        }
        if x == e {
            assert(t[la] == x);
        }
        if x == f {
            assert(t[la + lb + 1] == x);
        }
    }
}

proof fn lemma_join_laminar(
    ends: Seq<(usize, usize)>,
    a: Seq<usize>,
    e: usize,
    b: Seq<usize>,
    f: usize,
    u: int,
    v: int,
)
    requires
        joinable(ends, a, e, b, f, u, v),
        unique(joined(a, e, b, f)),
    ensures
        laminar(ends, joined(a, e, b, f)),
{
    let t = joined(a, e, b, f);
    let la = a.len() as int;
    let lb = b.len() as int;
    let n = la + lb + 2;
    lemma_join_pos(a, e, b, f);
    lemma_pair(ends, e as int);
    reveal(apart);
    reveal(has_pair);
    assert forall|c: int, d: int|
        0 <= c < d < n && t[d] as int == pair_of(t[c] as int) implies #[trigger] apart(
        ends,
        t,
        c,
        d,
    ) by {
        if c < la {
            assert(t[c] == a[c]);
            assert(has_pair(a, c));
            let q = choose|q: int| 0 <= q < la && a[q] as int == pair_of(a[c] as int);
            assert(t[q] == a[q]);
            assert(q == d);
            assert(apart(ends, a, c, d));
            assert forall|i: int, j: int|
                c < i <= d && (0 <= j <= c || d < j < n) implies src(ends, t[i] as int) != src(
                ends,
                t[j] as int,
            ) by {
                assert(t[i] == a[i]);
                assert(src(ends, a[i] as int) != src(ends, a[0] as int));
                if j < la {
                    assert(t[j] == a[j]);
                } else if la < j < la + lb + 1 {
                    assert(t[la + 1 + (j - la - 1)] == b[j - la - 1]);
                }
            }
        } else if c == la {
            assert(d == la + lb + 1);
            assert forall|i: int, j: int|
                c < i <= d && (0 <= j <= c || d < j < n) implies src(ends, t[i] as int) != src(
                ends,
                t[j] as int,
            ) by {
                assert(j <= la);
                if j < la {
                    assert(t[j] == a[j]);
                }
                if i < la + lb + 1 {
                    assert(t[la + 1 + (i - la - 1)] == b[i - la - 1]);
                }
            }
        } else if c < la + lb + 1 {
            let cb = c - la - 1;
            assert(t[la + 1 + cb] == b[cb]);
            assert(has_pair(b, cb));
            let q = choose|q: int| 0 <= q < lb && b[q] as int == pair_of(b[cb] as int);
            assert(t[la + 1 + q] == b[q]);
            assert(la + 1 + q == d);
            let db = d - la - 1;
            assert(apart(ends, b, cb, db));
            assert forall|i: int, j: int|
                c < i <= d && (0 <= j <= c || d < j < n) implies src(ends, t[i] as int) != src(
                ends,
                t[j] as int,
            ) by {
                assert(t[la + 1 + (i - la - 1)] == b[i - la - 1]);
                assert(src(ends, b[i - la - 1] as int) != src(ends, b[0] as int));
                if j < la {
                    assert(t[j] == a[j]);
                } else if la < j < la + lb + 1 {
                    assert(t[la + 1 + (j - la - 1)] == b[j - la - 1]);
                }
            }
        }
    }
}

/// Positions in a joined tour.
pub proof fn lemma_join_pos_pub(a: Seq<usize>, e: usize, b: Seq<usize>, f: usize)
    ensures
        ({
            let t = joined(a, e, b, f);
            let la = a.len() as int;
            let lb = b.len() as int;
            &&& t.len() == la + lb + 2
            &&& forall|i: int| 0 <= i < la ==> #[trigger] t[i] == a[i]
            &&& t[la] == e
            &&& forall|j: int| 0 <= j < lb ==> #[trigger] t[la + 1 + j] == b[j]
            &&& t[la + lb + 1] == f
        }),
{
    lemma_join_pos(a, e, b, f);
}

/// Joining two tours on disjoint vertices by the two directions of a new edge gives a tour.
pub proof fn lemma_join(
    ends: Seq<(usize, usize)>,
    a: Seq<usize>,
    e: usize,
    b: Seq<usize>,
    f: usize,
    u: int,
    v: int,
)
    requires
        joinable(ends, a, e, b, f, u, v),
    ensures
        tour(ends, joined(a, e, b, f)),
        joined(a, e, b, f).len() == a.len() + b.len() + 2,
        forall|x: usize|
            #[trigger] joined(a, e, b, f).contains(x) <==> (a.contains(x) || b.contains(x) || x == e
                || x == f),
{
    lemma_join_pos(a, e, b, f);
    lemma_join_walk(ends, a, e, b, f, u, v);
    lemma_join_elems(ends, a, e, b, f, u, v);
    lemma_join_laminar(ends, a, e, b, f, u, v);
}

/// A tour stays a tour under other ends for edges that it does not hold.
pub proof fn lemma_tour_ends(ends: Seq<(usize, usize)>, ends2: Seq<(usize, usize)>, t: Seq<usize>)
    requires
        tour(ends, t),
        forall|k: int|
            0 <= k < t.len() ==> src(ends, #[trigger] t[k] as int) == src(ends2, t[k] as int) && tgt(
                ends,
                t[k] as int,
            ) == tgt(ends2, t[k] as int),
    ensures
        tour(ends2, t),
{
    let n = t.len() as int;
    assert forall|i: int| 0 <= i < n implies #[trigger] tgt(ends2, t[i] as int) == src(
        ends2,
        t[nxt(i, n)] as int,
    ) by {
        assert(tgt(ends, t[i] as int) == src(ends, t[nxt(i, n)] as int));
    }
    reveal(apart);
    assert forall|a: int, b: int|
        0 <= a < b < n && t[b] as int == pair_of(t[a] as int) implies #[trigger] apart(ends2, t, a, b) by {
        assert(apart(ends, t, a, b));
        assert forall|i: int, j: int|
            a < i <= b && (0 <= j <= a || b < j < n) implies src(ends2, t[i] as int) != src(
            ends2,
            t[j] as int,
        ) by {
            assert(src(ends, t[i] as int) != src(ends, t[j] as int));
        }
    }
}

} // verus!
