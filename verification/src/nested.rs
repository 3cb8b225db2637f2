//! A sequence of edge ids kept as a list of chunks of about the square root of its capacity,
//! so that rotating it moves chunks rather than ids.
use vstd::prelude::*;
use vstd::seq_lib::lemma_flatten_concat;

verus! {

/// The ids of the chunks, one after the other.
pub open spec fn flat(c: Seq<Vec<usize>>) -> Seq<usize> {
    c.map_values(|v: Vec<usize>| v@).flatten()
}

/// The number of ids in the first `i` chunks.
pub open spec fn count_before(c: Seq<Vec<usize>>, i: int) -> int {
    flat(c.take(i)).len() as int
}

proof fn lemma_flat_push(c: Seq<Vec<usize>>, v: Vec<usize>)
    ensures
        flat(c.push(v)) =~= flat(c) + v@,
{
    assert(c.push(v).map_values(|v: Vec<usize>| v@) =~= c.map_values(|v: Vec<usize>| v@).push(v@));
    c.map_values(|v: Vec<usize>| v@).lemma_flatten_push(v@);
}

proof fn lemma_flat_concat(a: Seq<Vec<usize>>, b: Seq<Vec<usize>>)
    ensures
        flat(a + b) =~= flat(a) + flat(b),
{
    assert((a + b).map_values(|v: Vec<usize>| v@) =~= a.map_values(|v: Vec<usize>| v@) + b.map_values(
        |v: Vec<usize>| v@,
    ));
    lemma_flatten_concat(a.map_values(|v: Vec<usize>| v@), b.map_values(|v: Vec<usize>| v@));
}

proof fn lemma_flat_one(v: Vec<usize>)
    ensures
        flat(seq![v]) =~= v@,
{
    assert(seq![v].map_values(|v: Vec<usize>| v@) =~= seq![v@]);
    seq![v@].lemma_flatten_one_element();
}

proof fn lemma_flat_empty()
    ensures
        flat(Seq::<Vec<usize>>::empty()) =~= Seq::<usize>::empty(),
{
    assert(Seq::<Vec<usize>>::empty().map_values(|v: Vec<usize>| v@) =~= Seq::<Seq<usize>>::empty());
}

/// The chunks split at `i`: those before, chunk `i`, those after.
proof fn lemma_flat_split(c: Seq<Vec<usize>>, i: int)
    requires
        0 <= i < c.len(),
    ensures
        flat(c) =~= flat(c.take(i)) + c[i]@ + flat(c.skip(i + 1)),
        count_before(c, i + 1) == count_before(c, i) + c[i]@.len(),
{
    assert(c =~= c.take(i) + seq![c[i]] + c.skip(i + 1));
    lemma_flat_concat(c.take(i) + seq![c[i]], c.skip(i + 1));
    lemma_flat_concat(c.take(i), seq![c[i]]);
    lemma_flat_one(c[i]);
    assert(c.take(i + 1) =~= c.take(i) + seq![c[i]]);
}

/// The chunks `l` turned left so that position `j` of chunk `i` comes first: whole chunks
/// move when `j` is 0; otherwise the part of chunk `i` before `j` joins the chunk before it
/// (the last chunk, when `i` is 0), and a lone chunk turns in place.
pub open spec fn rotate_layout(l: Seq<Seq<usize>>, i: int, j: int) -> Seq<Seq<usize>> {
    if j == 0 {
        l.skip(i) + l.take(i)
    } else if i == 0 {
        if l.len() == 1 {
            seq![l[0].skip(j) + l[0].take(j)]
        } else {
            seq![l[0].skip(j)] + l.subrange(1, l.len() - 1).push(l[l.len() - 1] + l[0].take(j))
        }
    } else {
        seq![l[i].skip(j)] + l.skip(i + 1) + l.take(i - 1).push(l[i - 1] + l[i].take(j))
    }
}

/// Position `j` of chunk `i` is position `p` of the ids.
pub open spec fn chunk_at(l: Seq<Seq<usize>>, p: int, i: int, j: int) -> bool {
    &&& 0 <= i < l.len()
    &&& 0 <= j < l[i].len()
    &&& l.take(i).flatten().len() + j == p
}

proof fn lemma_flatten_take_mono(l: Seq<Seq<usize>>, a: int, b: int)
    requires
        0 <= a <= b <= l.len(),
    ensures
        l.take(a).flatten().len() <= l.take(b).flatten().len(),
        a < b ==> l.take(a + 1).flatten().len() == l.take(a).flatten().len() + l[a].len(),
    decreases b - a,
{
    if a < b {
        assert(l.take(a + 1) =~= l.take(a).push(l[a]));
        l.take(a).lemma_flatten_push(l[a]);
        lemma_flatten_take_mono(l, a + 1, b);
    }
}

/// A position lies in one chunk only.
proof fn lemma_chunk_unique(l: Seq<Seq<usize>>, p: int, i: int, j: int, i2: int, j2: int)
    requires
        chunk_at(l, p, i, j),
        chunk_at(l, p, i2, j2),
    ensures
        i == i2 && j == j2,
{
    if i < i2 {
        lemma_flatten_take_mono(l, i, i2);
        lemma_flatten_take_mono(l, i + 1, i2);
    } else if i2 < i {
        lemma_flatten_take_mono(l, i2, i);
        lemma_flatten_take_mono(l, i2 + 1, i);
    }
}

proof fn lemma_rotate_layout_at(l: Seq<Seq<usize>>, p: int, i: int, j: int, m: Seq<Seq<usize>>)
    requires
        chunk_at(l, p, i, j),
        m == rotate_layout(l, i, j),
    ensures
        forall|i2: int, j2: int| chunk_at(l, p, i2, j2) ==> #[trigger] rotate_layout(l, i2, j2) == m,
{
    assert forall|i2: int, j2: int| chunk_at(l, p, i2, j2) implies #[trigger] rotate_layout(l, i2, j2) == m by {
        lemma_chunk_unique(l, p, i, j, i2, j2);
    }
}

/// `s` as a list of chunks: one chunk, or none where `s` is empty.
pub open spec fn lopt(s: Seq<usize>) -> Seq<Seq<usize>> {
    if s.len() > 0 {
        seq![s]
    } else {
        Seq::empty()
    }
}

/// The chunks `l` left when the ids from position `j1` of chunk `i1` to position `j2` of chunk
/// `i2` are taken out: the parts of those two chunks outside the range stay, and a chunk
/// left empty goes.
pub open spec fn extract_kept(l: Seq<Seq<usize>>, i1: int, j1: int, i2: int, j2: int) -> Seq<Seq<usize>> {
    if i1 == i2 {
        l.take(i1) + lopt(l[i1].take(j1) + l[i1].skip(j2 + 1)) + l.skip(i1 + 1)
    } else {
        l.take(i1) + lopt(l[i1].take(j1)) + lopt(l[i2].skip(j2 + 1)) + l.skip(i2 + 1)
    }
}

/// The chunks that the same extraction hands over: the inner part of the range, the whole
/// chunks between its ends kept as they are, and no empty chunk.
pub open spec fn extract_moved(l: Seq<Seq<usize>>, i1: int, j1: int, i2: int, j2: int) -> Seq<Seq<usize>> {
    if i1 == i2 {
        lopt(l[i1].subrange(j1 + 1, j2))
    } else {
        lopt(l[i1].skip(j1 + 1)) + l.subrange(i1 + 1, i2) + lopt(l[i2].take(j2))
    }
}

proof fn lemma_extract_layout_at(
    l: Seq<Seq<usize>>,
    a: int,
    b: int,
    i1: int,
    j1: int,
    i2: int,
    j2: int,
    ks: Seq<Seq<usize>>,
    lt0: Seq<Seq<usize>>,
    lt: Seq<Seq<usize>>,
)
    requires
        chunk_at(l, a, i1, j1),
        chunk_at(l, b, i2, j2),
        ks == extract_kept(l, i1, j1, i2, j2),
        lt == lt0 + extract_moved(l, i1, j1, i2, j2),
    ensures
        forall|x1: int, y1: int, x2: int, y2: int|
            chunk_at(l, a, x1, y1) && chunk_at(l, b, x2, y2) ==> #[trigger] extract_kept(l, x1, y1, x2, y2) == ks
                && lt0 + extract_moved(l, x1, y1, x2, y2) == lt,
{
    assert forall|x1: int, y1: int, x2: int, y2: int|
        chunk_at(l, a, x1, y1) && chunk_at(l, b, x2, y2) implies #[trigger] extract_kept(l, x1, y1, x2, y2) == ks
        && lt0 + extract_moved(l, x1, y1, x2, y2) == lt by {
        lemma_chunk_unique(l, a, i1, j1, x1, y1);
        lemma_chunk_unique(l, b, i2, j2, x2, y2);
    }
}

/// The chunks of ids, chunk by chunk.
pub open spec fn lay(c: Seq<Vec<usize>>) -> Seq<Seq<usize>> {
    c.map_values(|w: Vec<usize>| w@)
}

proof fn lemma_lay_within(
    c: Seq<Vec<usize>>,
    d: Seq<Vec<usize>>,
    k: int,
    si: int,
    ei: int,
    kept: Vec<usize>,
    mid: Vec<usize>,
    c2: Seq<Vec<usize>>,
    d2: Seq<Vec<usize>>,
)
    requires
        0 <= k < c.len(),
        kept@ == c[k]@.take(si) + c[k]@.skip(ei + 1),
        mid@ == c[k]@.subrange(si + 1, ei),
        c2 == c.take(k) + opt(kept) + c.skip(k + 1),
        d2 == d + opt(mid),
    ensures
        lay(c2) == extract_kept(lay(c), k, si, k, ei),
        lay(d2) == lay(d) + extract_moved(lay(c), k, si, k, ei),
{
    lemma_opt_layout(kept);
    lemma_opt_layout(mid);
    assert(lay(c2) =~= lay(c).take(k) + lopt(kept@) + lay(c).skip(k + 1));
    assert(lay(d2) =~= lay(d) + lopt(mid@));
}

proof fn lemma_lay_across(
    c: Seq<Vec<usize>>,
    d: Seq<Vec<usize>>,
    k1: int,
    k2: int,
    si: int,
    ei: int,
    f1: Vec<usize>,
    r2: Vec<usize>,
    p1: Vec<usize>,
    p2: Vec<usize>,
    c2: Seq<Vec<usize>>,
    d2: Seq<Vec<usize>>,
)
    requires
        0 <= k1 < k2 < c.len(),
        f1@ == c[k1]@.take(si),
        p1@ == c[k1]@.skip(si + 1),
        p2@ == c[k2]@.take(ei),
        r2@ == c[k2]@.skip(ei + 1),
        c2 == c.take(k1) + opt(f1) + opt(r2) + c.skip(k2 + 1),
        d2 == d + opt(p1) + c.subrange(k1 + 1, k2) + opt(p2),
    ensures
        lay(c2) == extract_kept(lay(c), k1, si, k2, ei),
        lay(d2) == lay(d) + extract_moved(lay(c), k1, si, k2, ei),
{
    lemma_opt_layout(f1);
    lemma_opt_layout(r2);
    lemma_opt_layout(p1);
    lemma_opt_layout(p2);
    assert(lay(c2) =~= lay(c).take(k1) + lopt(f1@) + lopt(r2@) + lay(c).skip(k2 + 1));
    assert(lay(d2) =~= lay(d) + (lopt(p1@) + lay(c).subrange(k1 + 1, k2) + lopt(p2@)));
}

proof fn lemma_opt_layout(v: Vec<usize>)
    ensures
        opt(v).map_values(|w: Vec<usize>| w@) =~= lopt(v@),
{
    if v@.len() > 0 {
        assert(opt(v).map_values(|w: Vec<usize>| w@) =~= seq![v@]);
    } else {
        assert(opt(v).map_values(|w: Vec<usize>| w@) =~= Seq::<Seq<usize>>::empty());
    }
}

/// No chunk is empty.
pub open spec fn all_nonempty(c: Seq<Vec<usize>>) -> bool {
    forall|i: int| 0 <= i < c.len() ==> (#[trigger] c[i])@.len() > 0
}

/// `v` as a list of chunks: one chunk, or none where `v` is empty.
pub open spec fn opt(v: Vec<usize>) -> Seq<Vec<usize>> {
    if v@.len() > 0 {
        seq![v]
    } else {
        Seq::empty()
    }
}

proof fn lemma_flat_opt(v: Vec<usize>)
    ensures
        flat(opt(v)) =~= v@,
        all_nonempty(opt(v)),
{
    if v@.len() > 0 {
        lemma_flat_one(v);
    } else {
        lemma_flat_empty();
    }
}

proof fn lemma_nonempty_concat(a: Seq<Vec<usize>>, b: Seq<Vec<usize>>)
    requires
        all_nonempty(a),
        all_nonempty(b),
    ensures
        all_nonempty(a + b),
{
    assert forall|i: int| 0 <= i < (a + b).len() implies (#[trigger] (a + b)[i])@.len() > 0 by {
        if i < a.len() {
            assert((a + b)[i] == a[i]);
        } else {
            assert((a + b)[i] == b[i - a.len()]);
        }
    }
}

proof fn lemma_nonempty_subrange(a: Seq<Vec<usize>>, i: int, j: int)
    requires
        all_nonempty(a),
        0 <= i <= j <= a.len(),
    ensures
        all_nonempty(a.subrange(i, j)),
{
    assert forall|k: int| 0 <= k < j - i implies (#[trigger] a.subrange(i, j)[k])@.len() > 0 by {
        assert(a.subrange(i, j)[k] == a[i + k]);
    }
}

/// Splits the chunks into those before `k`, chunk `k` and those after.
proof fn lemma_pieces(c: Seq<Vec<usize>>, k: int)
    requires
        0 <= k < c.len(),
    ensures
        c =~= c.take(k) + seq![c[k]] + c.skip(k + 1),
        flat(c) =~= flat(c.take(k)) + c[k]@ + flat(c.skip(k + 1)),
        flat(c.take(k)).len() == count_before(c, k),
        flat(c.skip(k)) =~= c[k]@ + flat(c.skip(k + 1)),
        flat(c.take(k + 1)) =~= flat(c.take(k)) + c[k]@,
{
    lemma_flat_split(c, k);
    assert(c.skip(k) =~= seq![c[k]] + c.skip(k + 1));
    lemma_flat_concat(seq![c[k]], c.skip(k + 1));
    lemma_flat_one(c[k]);
    assert(c.take(k + 1) =~= c.take(k) + seq![c[k]]);
    lemma_flat_concat(c.take(k), seq![c[k]]);
}

/// Ids before a later chunk are at least those before an earlier one and the earlier chunk.
proof fn lemma_count_mono(c: Seq<Vec<usize>>, a: int, b: int)
    requires
        0 <= a < b <= c.len(),
    ensures
        count_before(c, a) + c[a]@.len() <= count_before(c, b),
    decreases b - a,
{
    lemma_pieces(c, a);
    if a + 1 < b {
        lemma_count_mono(c, a + 1, b);
        lemma_pieces(c, a + 1);
    }
}

/// The chunks around two chunks `k1 < k2`.
proof fn lemma_two_chunks(c: Seq<Vec<usize>>, k1: int, k2: int)
    requires
        0 <= k1 < k2 < c.len(),
    ensures
        flat(c) =~= flat(c.take(k1)) + c[k1]@ + flat(c.subrange(k1 + 1, k2)) + c[k2]@ + flat(
            c.skip(k2 + 1),
        ),
        count_before(c, k2) == count_before(c, k1) + c[k1]@.len() + flat(
            c.subrange(k1 + 1, k2),
        ).len(),
{
    lemma_pieces(c, k1);
    lemma_pieces(c, k2);
    let m = c.subrange(k1 + 1, k2);
    assert(c.skip(k1 + 1) =~= m + seq![c[k2]] + c.skip(k2 + 1));
    lemma_flat_concat(m + seq![c[k2]], c.skip(k2 + 1));
    lemma_flat_concat(m, seq![c[k2]]);
    lemma_flat_one(c[k2]);
    assert(c.take(k2) =~= c.take(k1) + seq![c[k1]] + m);
    lemma_flat_concat(c.take(k1) + seq![c[k1]], m);
    lemma_flat_concat(c.take(k1), seq![c[k1]]);
    lemma_flat_one(c[k1]);
}

/// What `extract` leaves when the range lies in one chunk `k`.
proof fn lemma_extract_within(
    c: Seq<Vec<usize>>,
    d: Seq<Vec<usize>>,
    k: int,
    si: int,
    ei: int,
    start: int,
    end: int,
    kept: Vec<usize>,
    mid: Vec<usize>,
)
    requires
        0 <= k < c.len(),
        0 <= si < ei < c[k]@.len(),
        count_before(c, k) + si == start,
        count_before(c, k) + ei == end - 1,
        kept@ == c[k]@.take(si) + c[k]@.skip(ei + 1),
        mid@ == c[k]@.subrange(si + 1, ei),
        all_nonempty(c),
        all_nonempty(d),
    ensures
        flat(c.take(k) + opt(kept) + c.skip(k + 1)) == flat(c).take(start) + flat(c).skip(end),
        flat(d + opt(mid)) == flat(d) + flat(c).subrange(start + 1, end - 1),
        all_nonempty(c.take(k) + opt(kept) + c.skip(k + 1)),
        all_nonempty(d + opt(mid)),
{
    let s = flat(c);
    let w = c[k]@;
    lemma_pieces(c, k);
    lemma_flat_opt(kept);
    lemma_flat_opt(mid);
    lemma_flat_concat(c.take(k) + opt(kept), c.skip(k + 1));
    lemma_flat_concat(c.take(k), opt(kept));
    lemma_flat_concat(d, opt(mid));
    assert(s.take(start) =~= flat(c.take(k)) + w.take(si));
    assert(s.skip(end) =~= w.skip(ei + 1) + flat(c.skip(k + 1)));
    assert(flat(c.take(k) + opt(kept) + c.skip(k + 1)) =~= s.take(start) + s.skip(end));
    assert(s.subrange(start + 1, end - 1) =~= w.subrange(si + 1, ei));
    lemma_nonempty_subrange(c, 0, k);
    lemma_nonempty_subrange(c, k + 1, c.len() as int);
    lemma_nonempty_concat(c.take(k), opt(kept));
    lemma_nonempty_concat(c.take(k) + opt(kept), c.skip(k + 1));
    lemma_nonempty_concat(d, opt(mid));
}

/// What `extract` leaves when the range starts in chunk `a` and ends in chunk `b > a`.
proof fn lemma_extract_across(
    c: Seq<Vec<usize>>,
    d: Seq<Vec<usize>>,
    a: int,
    b: int,
    si: int,
    ei: int,
    start: int,
    end: int,
    f1: Vec<usize>,
    r2: Vec<usize>,
    p1: Vec<usize>,
    p2: Vec<usize>,
)
    requires
        0 <= a < b < c.len(),
        0 <= si < c[a]@.len(),
        0 <= ei < c[b]@.len(),
        count_before(c, a) + si == start,
        count_before(c, b) + ei == end - 1,
        f1@ == c[a]@.take(si),
        p1@ == c[a]@.skip(si + 1),
        p2@ == c[b]@.take(ei),
        r2@ == c[b]@.skip(ei + 1),
        all_nonempty(c),
        all_nonempty(d),
    ensures
        flat(c.take(a) + opt(f1) + opt(r2) + c.skip(b + 1)) == flat(c).take(start) + flat(
            c,
        ).skip(end),
        flat(d + opt(p1) + c.subrange(a + 1, b) + opt(p2)) == flat(d) + flat(c).subrange(
            start + 1,
            end - 1,
        ),
        all_nonempty(c.take(a) + opt(f1) + opt(r2) + c.skip(b + 1)),
        all_nonempty(d + opt(p1) + c.subrange(a + 1, b) + opt(p2)),
{
    let s = flat(c);
    let ms = c.subrange(a + 1, b);
    let w1 = c[a]@;
    let w2 = c[b]@;
    lemma_two_chunks(c, a, b);
    lemma_pieces(c, a);
    lemma_flat_opt(p1);
    lemma_flat_opt(p2);
    lemma_flat_opt(f1);
    lemma_flat_opt(r2);
    lemma_flat_concat(c.take(a) + opt(f1) + opt(r2), c.skip(b + 1));
    lemma_flat_concat(c.take(a) + opt(f1), opt(r2));
    lemma_flat_concat(c.take(a), opt(f1));
    lemma_flat_concat(d + opt(p1) + ms, opt(p2));
    lemma_flat_concat(d + opt(p1), ms);
    lemma_flat_concat(d, opt(p1));
    let pa = flat(c.take(a));
    let mf = flat(ms);
    assert(s.take(start) =~= pa + w1.take(si));
    assert(s.skip(end) =~= w2.skip(ei + 1) + flat(c.skip(b + 1)));
    assert(flat(c.take(a) + opt(f1) + opt(r2) + c.skip(b + 1)) =~= s.take(start) + s.skip(end));
    assert(s.subrange(start + 1, end - 1) =~= w1.skip(si + 1) + mf + w2.take(ei));
    lemma_nonempty_subrange(c, 0, a);
    lemma_nonempty_subrange(c, b + 1, c.len() as int);
    lemma_nonempty_subrange(c, a + 1, b);
    lemma_nonempty_concat(c.take(a), opt(f1));
    lemma_nonempty_concat(c.take(a) + opt(f1), opt(r2));
    lemma_nonempty_concat(c.take(a) + opt(f1) + opt(r2), c.skip(b + 1));
    lemma_nonempty_concat(d, opt(p1));
    lemma_nonempty_concat(d + opt(p1), ms);
    lemma_nonempty_concat(d + opt(p1) + ms, opt(p2));
}

/// Appends `v` to the chunks unless it is empty.
fn push_nonempty(c: &mut Vec<Vec<usize>>, v: Vec<usize>)
    ensures
        final(c)@ == old(c)@ + opt(v),
{
    if v.len() > 0 {
        c.push(v);
        proof {
            assert(c@ =~= old(c)@ + opt(v));
        }
    } else {
        proof {
            assert(old(c)@ =~= old(c)@ + opt(v));
        }
    }
}

/// A sequence of edge ids kept in chunks.
pub struct NestedSeq {
    pref_seq_len: usize,
    inner: Vec<Vec<usize>>,
}

impl View for NestedSeq {
    type V = Seq<usize>;

    closed spec fn view(&self) -> Seq<usize> {
        flat(self.inner@)
    }
}

impl NestedSeq {
    /// The chunks.
    pub closed spec fn spec_chunks(&self) -> Seq<Vec<usize>> {
        self.inner@
    }

    /// The ids of each chunk, chunk by chunk.
    pub closed spec fn layout(&self) -> Seq<Seq<usize>> {
        lay(self.inner@)
    }

    /// The length that chunks are made for.
    pub closed spec fn spec_pref(&self) -> usize {
        self.pref_seq_len
    }

    /// No chunk is empty, and the length fits.
    pub closed spec fn wf(&self) -> bool {
        &&& all_nonempty(self.inner@)
        &&& flat(self.inner@).len() < usize::MAX
        &&& self.pref_seq_len <= usize::MAX / 2
    }

    /// An empty sequence with chunks of about the square root of `cap`.
    pub fn with_capacity(cap: usize) -> (s: Self)
        ensures
            s.wf(),
            s@ == Seq::<usize>::empty(),
            s.layout() == Seq::<Seq<usize>>::empty(),
            s.spec_pref() * s.spec_pref() <= cap < (s.spec_pref() + 1) * (s.spec_pref() + 1),
    {
        let r = isqrt(cap);
        let s = NestedSeq { pref_seq_len: r, inner: Vec::with_capacity(r) };
        proof {
            lemma_flat_empty();
            assert(s.inner@ =~= Seq::<Vec<usize>>::empty());
            assert(r <= usize::MAX / 2) by (nonlinear_arith)
                requires
                    r * r <= cap,
                    cap <= usize::MAX,
            ;
        }
        s
    }

    /// The longest a chunk grows by pushes.
    pub fn max_seq_len(&self) -> (r: usize)
        requires
            self.wf(),
        ensures
            r == 2 * self.spec_pref(),
    {
        2 * self.pref_seq_len
    }

    /// The shortest a chunk should be.
    pub fn min_seq_len(&self) -> (r: usize)
        ensures
            r == self.spec_pref() / 2,
    {
        self.pref_seq_len / 2
    }

    /// The first id, if any.
    pub fn first(&self) -> (r: Option<usize>)
        requires
            self.wf(),
        ensures
            r == (if self@.len() > 0 { Some(self@[0]) } else { None::<usize> }),
    {
        if self.inner.len() == 0 {
            proof {
                assert(self.inner@ =~= Seq::<Vec<usize>>::empty());
                lemma_flat_empty();
            }
            None
        } else {
            proof {
                lemma_flat_split(self.inner@, 0);
                assert(self.inner@.take(0) =~= Seq::<Vec<usize>>::empty());
                lemma_flat_empty();
            }
            let c = &self.inner[0];
            if c.len() > 0 {
                Some(c[0])
            } else {
                None
            }
        }
    }

    /// The number of ids.
    pub fn len(&self) -> (r: usize)
        requires
            self.wf(),
        ensures
            r == self@.len(),
    {
        let mut total: usize = 0;
        let mut i: usize = 0;
        while i < self.inner.len()
            invariant
                self.wf(),
                i <= self.inner@.len(),
                total == count_before(self.inner@, i as int),
            decreases self.inner@.len() - i,
        {
            proof {
                lemma_flat_split(self.inner@, i as int);
            }
            total = total + self.inner[i].len();
            i += 1;
        }
        proof {
            assert(self.inner@.take(i as int) =~= self.inner@);
        }
        total
    }

    /// The chunk and the position in it of the id at position `index`.
    pub fn find_seq(&self, index: usize) -> (r: (usize, usize))
        requires
            self.wf(),
            index < self@.len(),
        ensures
            r.0 < self.spec_chunks().len(),
            count_before(self.spec_chunks(), r.0 as int) + r.1 == index,
            r.1 < self.spec_chunks()[r.0 as int]@.len(),
            r.0 < self.layout().len(),
            self.layout().take(r.0 as int).flatten().len() + r.1 == index,
            r.1 < self.layout()[r.0 as int].len(),
    {
        let mut count: usize = 0;
        let mut i: usize = 0;
        while i < self.inner.len()
            invariant
                self.wf(),
                i <= self.inner@.len(),
                count == count_before(self.inner@, i as int),
                count <= index,
                index < self@.len(),
            decreases self.inner@.len() - i,
        {
            proof {
                lemma_flat_split(self.inner@, i as int);
            }
            let l = self.inner[i].len();
            if index < count + l {
                proof {
                    assert(self.inner@.take(i as int).map_values(|v: Vec<usize>| v@) =~= self.layout().take(i as int));
                }
                return (i, index - count);
            }
            count = count + l;
            i += 1;
        }
        proof {
            assert(self.inner@.take(i as int) =~= self.inner@);
        }
        (0, 0)
    }

    /// The id at position `index`.
    pub fn get(&self, index: usize) -> (r: usize)
        requires
            self.wf(),
            index < self@.len(),
        ensures
            r == self@[index as int],
    {
        let (i, j) = self.find_seq(index);
        proof {
            lemma_flat_split(self.inner@, i as int);
        }
        self.inner[i][j]
    }

    /// Adds `e` at the end: to the last chunk, unless it is full.
    pub fn push(&mut self, e: usize)
        requires
            old(self).wf(),
            old(self)@.len() + 1 < usize::MAX,
        ensures
            final(self).wf(),
            final(self)@ == old(self)@.push(e),
            final(self).spec_pref() == old(self).spec_pref(),
            final(self).layout() == if old(self).layout().len() > 0 && old(self).layout().last().len() < 2
                * old(self).spec_pref() {
                old(self).layout().drop_last().push(old(self).layout().last().push(e))
            } else {
                old(self).layout().push(seq![e])
            },
    {
        let n = self.inner.len();
        if n > 0 {
            let l = self.inner[n - 1].len();
            if l < self.max_seq_len() {
                let ghost c0 = self.inner@;
                self.inner[n - 1].push(e);
                proof {
                    let last = self.inner@[n - 1];
                    assert(c0 =~= c0.drop_last().push(c0[n - 1]));
                    assert(self.inner@ =~= c0.drop_last().push(last));
                    lemma_flat_push(c0.drop_last(), c0[n - 1]);
                    lemma_flat_push(c0.drop_last(), last);
                    assert(last@ =~= c0[n - 1]@.push(e));
                    assert forall|i: int| 0 <= i < self.inner@.len() implies (#[trigger] self.inner@[i])@.len() > 0 by {
                        if i < n - 1 {
                            assert(self.inner@[i] == c0[i]);
                        }
                    }
                }
                return;
            }
        }
        let ghost c0 = self.inner@;
        let v: Vec<usize> = vec![e];
        self.inner.push(v);
        proof {
            lemma_flat_push(c0, v);
            assert(v@ =~= seq![e]);
            assert forall|i: int| 0 <= i < self.inner@.len() implies (#[trigger] self.inner@[i])@.len() > 0 by {
                if i < n {
                    assert(self.inner@[i] == c0[i]);
                }
            }
        }
    }

    /// Turns the sequence left by `p` positions: the id at `p` comes first.
    #[verifier::rlimit(40)]
    pub fn rotate(&mut self, p: usize)
        requires
            old(self).wf(),
            p < old(self)@.len(),
        ensures
            final(self).wf(),
            final(self)@ == old(self)@.skip(p as int) + old(self)@.take(p as int),
            final(self).spec_pref() == old(self).spec_pref(),
            forall|i: int, j: int|
                chunk_at(old(self).layout(), p as int, i, j) ==> #[trigger] rotate_layout(old(self).layout(), i, j)
                    == final(self).layout(),
    {
        let ghost c = self.inner@;
        let ghost s = self@;
        let ghost lo = self.layout();
        let (i, j) = self.find_seq(p);
        proof {
            lemma_pieces(c, i as int);
            assert(c =~= c.take(i as int) + c.skip(i as int));
            lemma_flat_concat(c.take(i as int), c.skip(i as int));
            lemma_nonempty_subrange(c, 0, i as int);
            lemma_nonempty_subrange(c, i as int + 1, c.len() as int);
        }
        if j == 0 {
            let mut tail = self.inner.split_off(i);
            tail.append(&mut self.inner);
            self.inner = tail;
            proof {
                assert(self.inner@ =~= c.skip(i as int) + c.take(i as int));
                lemma_flat_concat(c.skip(i as int), c.take(i as int));
                lemma_nonempty_subrange(c, i as int, c.len() as int);
                lemma_nonempty_concat(c.skip(i as int), c.take(i as int));
                assert(s.skip(p as int) =~= flat(c.skip(i as int)));
                assert(s.take(p as int) =~= flat(c.take(i as int)));
                assert(self.layout() =~= rotate_layout(lo, i as int, j as int));
                lemma_rotate_layout_at(lo, p as int, i as int, j as int, self.layout());
            }
            return;
        }
        if i == 0 {
            proof {
                assert(c.take(0) =~= Seq::<Vec<usize>>::empty());
                lemma_flat_empty();
            }
            if self.inner.len() == 1 {
                let mut v = self.inner.pop().unwrap();
                let mut rest = v.split_off(j);
                rest.append(&mut v);
                self.inner.push(rest);
                proof {
                    assert(c.skip(1) =~= Seq::<Vec<usize>>::empty());
                    lemma_flat_one(rest);
                    assert(self.inner@ =~= seq![rest]);
                    assert(s =~= c[0]@);
                    assert(rest@ =~= lo[0].skip(j as int) + lo[0].take(j as int));
                    assert(self.layout() =~= rotate_layout(lo, i as int, j as int));
                    lemma_rotate_layout_at(lo, p as int, i as int, j as int, self.layout());
                }
            } else {
                let ghost n = c.len() as int;
                let mut tail = self.inner.split_off(1);
                let mut v0 = self.inner.pop().unwrap();
                let rest = v0.split_off(j);
                let mut lastc = tail.pop().unwrap();
                lastc.append(&mut v0);
                tail.push(lastc);
                self.inner.push(rest);
                self.inner.append(&mut tail);
                proof {
                    let mid = c.subrange(1, n - 1);
                    assert(c.skip(1) =~= mid.push(c[n - 1]));
                    lemma_flat_push(mid, c[n - 1]);
                    lemma_flat_push(mid, lastc);
                    assert(self.inner@ =~= seq![rest] + mid.push(lastc));
                    lemma_flat_concat(seq![rest], mid.push(lastc));
                    lemma_flat_one(rest);
                    assert(s.skip(p as int) =~= c[0]@.skip(j as int) + flat(c.skip(1)));
                    assert(s.take(p as int) =~= c[0]@.take(j as int));
                    assert(self@ =~= s.skip(p as int) + s.take(p as int));
                    lemma_nonempty_subrange(c, 1, n - 1);
                    assert(all_nonempty(seq![rest]));
                    assert(all_nonempty(seq![lastc]));
                    lemma_nonempty_concat(mid, seq![lastc]);
                    assert(mid.push(lastc) =~= mid + seq![lastc]);
                    lemma_nonempty_concat(seq![rest], mid.push(lastc));
                    assert(rest@ =~= lo[0].skip(j as int));
                    assert(lastc@ =~= lo[n - 1] + lo[0].take(j as int));
                    assert(self.layout() =~= rotate_layout(lo, i as int, j as int));
                    lemma_rotate_layout_at(lo, p as int, i as int, j as int, self.layout());
                }
            }
        } else {
            let mut tail = self.inner.split_off(i);
            let mut after = tail.split_off(1);
            let mut vi = tail.pop().unwrap();
            let rest = vi.split_off(j);
            let mut prev = self.inner.pop().unwrap();
            prev.append(&mut vi);
            self.inner.push(prev);
            let mut res: Vec<Vec<usize>> = Vec::new();
            res.push(rest);
            res.append(&mut after);
            res.append(&mut self.inner);
            self.inner = res;
            proof {
                let k = i as int;
                lemma_pieces(c, k - 1);
                let front = c.take(k - 1).push(prev);
                assert(self.inner@ =~= seq![rest] + c.skip(k + 1) + front);
                lemma_flat_concat(seq![rest] + c.skip(k + 1), front);
                lemma_flat_concat(seq![rest], c.skip(k + 1));
                lemma_flat_one(rest);
                lemma_flat_push(c.take(k - 1), prev);
                assert(s.skip(p as int) =~= c[k]@.skip(j as int) + flat(c.skip(k + 1)));
                assert(s.take(p as int) =~= flat(c.take(k)) + c[k]@.take(j as int));
                assert(self@ =~= s.skip(p as int) + s.take(p as int));
                lemma_nonempty_subrange(c, 0, k - 1);
                assert(all_nonempty(seq![rest]));
                assert(all_nonempty(seq![prev]));
                lemma_nonempty_concat(c.take(k - 1), seq![prev]);
                assert(front =~= c.take(k - 1) + seq![prev]);
                lemma_nonempty_concat(seq![rest], c.skip(k + 1));
                lemma_nonempty_concat(seq![rest] + c.skip(k + 1), front);
                assert(rest@ =~= lo[k].skip(j as int));
                assert(prev@ =~= lo[k - 1] + lo[k].take(j as int));
                assert(self.layout() =~= rotate_layout(lo, i as int, j as int));
                lemma_rotate_layout_at(lo, p as int, i as int, j as int, self.layout());
            }
        }
    }

    /// Moves every id of `from` to the end; the last chunk here and the first of `from` are
    /// merged where together they stay shorter than `max_seq_len`.
    pub fn append(&mut self, from: &mut NestedSeq)
        requires
            old(self).wf(),
            old(from).wf(),
            old(self)@.len() + old(from)@.len() < usize::MAX,
        ensures
            final(self).wf(),
            final(from).wf(),
            final(self)@ == old(self)@ + old(from)@,
            final(from)@ == Seq::<usize>::empty(),
            final(self).spec_pref() == old(self).spec_pref(),
            final(from).spec_pref() == old(from).spec_pref(),
            final(self).layout() == if old(self).layout().len() > 0 && old(from).layout().len() > 0 && old(
                self,
            ).layout().last().len() + old(from).layout()[0].len() < 2 * old(self).spec_pref() {
                old(self).layout().drop_last().push(old(self).layout().last() + old(from).layout()[0]) + old(
                    from,
                ).layout().skip(1)
            } else {
                old(self).layout() + old(from).layout()
            },
            final(from).layout() == Seq::<Seq<usize>>::empty(),
    {
        let ghost c = self.inner@;
        let ghost d = from.inner@;
        let n = self.inner.len();
        let m = from.inner.len();
        proof {
            lemma_flat_empty();
            assert(Seq::<Vec<usize>>::empty() =~= Seq::<Vec<usize>>::empty());
        }
        if n > 0 && m > 0 {
            proof {
                lemma_pieces(c, n - 1);
                lemma_pieces(d, 0);
            }
            if self.inner[n - 1].len() + from.inner[0].len() < self.max_seq_len() {
                let mut rest = from.inner.split_off(1);
                let mut f0 = from.inner.pop().unwrap();
                let mut l = self.inner.pop().unwrap();
                l.append(&mut f0);
                self.inner.push(l);
                self.inner.append(&mut rest);
                proof {
                    let k = n - 1;
                    assert(c.skip(n as int) =~= Seq::<Vec<usize>>::empty());
                    assert(d.take(0) =~= Seq::<Vec<usize>>::empty());
                    assert(self.inner@ =~= c.take(k as int).push(l) + d.skip(1));
                    lemma_flat_concat(c.take(k as int).push(l), d.skip(1));
                    lemma_flat_push(c.take(k as int), l);
                    assert(self@ =~= old(self)@ + old(from)@);
                    assert(from.inner@ =~= Seq::<Vec<usize>>::empty());
                    lemma_nonempty_subrange(c, 0, k as int);
                    lemma_nonempty_subrange(d, 1, m as int);
                    assert(all_nonempty(seq![l]));
                    lemma_nonempty_concat(c.take(k as int), seq![l]);
                    assert(c.take(k as int).push(l) =~= c.take(k as int) + seq![l]);
                    lemma_nonempty_concat(c.take(k as int).push(l), d.skip(1));
                }
                return;
            }
        }
        self.inner.append(&mut from.inner);
        proof {
            lemma_flat_concat(c, d);
            lemma_nonempty_concat(c, d);
            assert(from.inner@ =~= Seq::<Vec<usize>>::empty());
        }
    }

    /// Removes the ids at positions `start..end`; those strictly inside the range go to the end
    /// of `to`, the two at its ends leave both sequences.
    pub fn extract(&mut self, start: usize, end: usize, to: &mut NestedSeq)
        requires
            old(self).wf(),
            old(to).wf(),
            start + 2 <= end <= old(self)@.len(),
            old(self)@.len() + old(to)@.len() < usize::MAX,
        ensures
            final(self).wf(),
            final(to).wf(),
            final(self)@ == old(self)@.take(start as int) + old(self)@.skip(end as int),
            final(to)@ == old(to)@ + old(self)@.subrange(start + 1, end - 1),
            final(self).spec_pref() == old(self).spec_pref(),
            final(to).spec_pref() == old(to).spec_pref(),
            forall|i1: int, j1: int, i2: int, j2: int|
                chunk_at(old(self).layout(), start as int, i1, j1) && chunk_at(old(self).layout(), end - 1, i2, j2)
                    ==> #[trigger] extract_kept(old(self).layout(), i1, j1, i2, j2) == final(self).layout()
                    && old(to).layout() + extract_moved(old(self).layout(), i1, j1, i2, j2) == final(to).layout(),
    {
        let ghost c = self.inner@;
        let ghost s = self@;
        let ghost d = to.inner@;
        let ghost lo = self.layout();
        let ghost ld = to.layout();
        let (k1, si) = self.find_seq(start);
        let (k2, ei) = self.find_seq(end - 1);
        proof {
            if k2 < k1 {
                lemma_count_mono(c, k2 as int, k1 as int);
            }
            assert(k1 <= k2);
            assert(k2 < self.inner.len());
        }
        if k1 == k2 {
            let mut tail = self.inner.split_off(k1);
            let mut after = tail.split_off(1);
            let mut v = tail.pop().unwrap();
            let ghost w = v@;
            let mut rest = v.split_off(ei + 1);
            v.pop();
            let mid = v.split_off(si + 1);
            v.pop();
            v.append(&mut rest);
            let ghost kept = v;
            proof {
                assert(kept@ =~= w.take(si as int) + w.skip(ei + 1));
                assert(mid@ =~= w.subrange(si + 1, ei as int));
                lemma_extract_within(c, d, k1 as int, si as int, ei as int, start as int, end as int, kept, mid);
            }
            push_nonempty(&mut self.inner, v);
            self.inner.append(&mut after);
            push_nonempty(&mut to.inner, mid);
            proof {
                assert(self.inner@ =~= c.take(k1 as int) + opt(kept) + c.skip(k1 + 1));
                lemma_lay_within(c, d, k1 as int, si as int, ei as int, kept, mid, self.inner@, to.inner@);
                lemma_extract_layout_at(lo, start as int, end - 1, k1 as int, si as int, k2 as int, ei as int, self.layout(), ld, to.layout());
            }
        } else {
            let mut tail = self.inner.split_off(k1);
            let mut after = tail.split_off(k2 - k1 + 1);
            let mut last = tail.pop().unwrap();
            let mut mids = tail.split_off(1);
            let mut first = tail.pop().unwrap();
            let ghost w1 = first@;
            let ghost w2 = last@;
            let ghost ms = mids@;
            let piece1 = first.split_off(si + 1);
            first.pop();
            let rest2 = last.split_off(ei + 1);
            last.pop();
            let ghost (p1, p2, f1, r2) = (piece1, last, first, rest2);
            proof {
                assert(ms =~= c.subrange(k1 + 1, k2 as int));
                assert(f1@ =~= w1.take(si as int));
                assert(p1@ =~= w1.skip(si + 1));
                assert(p2@ =~= w2.take(ei as int));
                assert(r2@ =~= w2.skip(ei + 1));
                lemma_extract_across(
                    c,
                    d,
                    k1 as int,
                    k2 as int,
                    si as int,
                    ei as int,
                    start as int,
                    end as int,
                    f1,
                    r2,
                    p1,
                    p2,
                );
            }
            push_nonempty(&mut to.inner, piece1);
            to.inner.append(&mut mids);
            push_nonempty(&mut to.inner, last);
            push_nonempty(&mut self.inner, first);
            push_nonempty(&mut self.inner, rest2);
            self.inner.append(&mut after);
            proof {
                assert(self.inner@ =~= c.take(k1 as int) + opt(f1) + opt(r2) + c.skip(k2 + 1));
                assert(to.inner@ =~= d + opt(p1) + c.subrange(k1 + 1, k2 as int) + opt(p2));
                lemma_lay_across(c, d, k1 as int, k2 as int, si as int, ei as int, f1, r2, p1, p2, self.inner@, to.inner@);
                lemma_extract_layout_at(lo, start as int, end - 1, k1 as int, si as int, k2 as int, ei as int, self.layout(), ld, to.layout());
            }
        }
    }

    /// Removes every id.
    pub fn clear(&mut self)
        requires
            old(self).wf(),
        ensures
            final(self).wf(),
            final(self)@ == Seq::<usize>::empty(),
            final(self).spec_pref() == old(self).spec_pref(),
            final(self).layout() == Seq::<Seq<usize>>::empty(),
    {
        self.inner.clear();
        proof {
            lemma_flat_empty();
            assert(self.inner@ =~= Seq::<Vec<usize>>::empty());
        }
    }
}

/// The largest `r` with `r * r <= n`.
pub fn isqrt(n: usize) -> (r: usize)
    ensures
        r * r <= n < (r + 1) * (r + 1),
{
    let mut r: usize = 0;
    while r < n && (r + 1) <= n / (r + 1)
        invariant
            r * r <= n,
            r <= n,
        decreases n - r,
    {
        proof {
            assert((r + 1) * (r + 1) <= n) by (nonlinear_arith)
                requires
                    r as int + 1 <= n as int / (r as int + 1),
                    r + 1 > 0,
            ;
        }
        r = r + 1;
    }
    proof {
        if r < n {
            assert(n < (r + 1) * (r + 1)) by (nonlinear_arith)
                requires
                    r as int + 1 > n as int / (r as int + 1),
                    r + 1 > 0,
            ;
        } else {
            assert(n < (r + 1) * (r + 1)) by (nonlinear_arith)
                requires
                    r == n,
            ;
        }
    }
    r
}

} // verus!
