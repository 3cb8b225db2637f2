//! Union-find (disjoint-set) with path compression and the rank heuristic: over the keys
//! `0..n`, and over arbitrary `u64` keys added one by one.
use std::collections::HashMap;
use vstd::prelude::*;

verus! {

/// The representative that the parent pointers lead `x` to. Each step goes to a parent of
/// strictly larger rank, which bounds the walk; off the well-formed states the walk stops.
pub closed spec fn find_root(parent: Seq<usize>, rank: Seq<usize>, x: int) -> int
    decreases parent.len() - rank[x],
{
    if 0 <= x < parent.len() && rank.len() == parent.len() && parent[x] != x && 0 <= parent[x]
        < parent.len() && rank[x] < rank[parent[x] as int] && rank[parent[x] as int]
        <= parent.len() {
        find_root(parent, rank, parent[x] as int)
    } else {
        x
    }
}

/// A union-find structure whose keys are `0..n`.
pub struct UnionFind {
    parent: Vec<usize>,
    rank: Vec<usize>,
    num_sets: usize,
}

impl UnionFind {
    /// The number of keys.
    pub closed spec fn len(&self) -> nat {
        self.parent@.len()
    }

    /// The representative of the set that holds `x`.
    pub closed spec fn rep(&self, x: int) -> int {
        find_root(self.parent@, self.rank@, x)
    }

    /// `x` and `y` are in the same set.
    pub open spec fn same(&self, x: int, y: int) -> bool {
        self.rep(x) == self.rep(y)
    }

    /// The keys that represent their own set: one per set.
    pub open spec fn reps(&self) -> Set<int> {
        Set::new(|i: int| 0 <= i < self.len() && self.rep(i) == i)
    }

    /// The counter that `num_sets` reports.
    pub closed spec fn count(&self) -> nat {
        self.num_sets as nat
    }

    spec fn roots(&self) -> Set<int> {
        Set::new(|i: int| 0 <= i < self.parent@.len() && self.parent@[i] == i)
    }

    /// The structure is well formed: parents are keys, ranks grow strictly towards a root and
    /// stay below the number of unions made, and the counter is the number of roots.
    pub closed spec fn wf(&self) -> bool {
        let n = self.parent@.len();
        &&& self.rank@.len() == n
        &&& forall|i: int| 0 <= i < n ==> #[trigger] self.parent@[i] < n
        &&& forall|i: int|
            0 <= i < n && self.parent@[i] != i ==> #[trigger] self.rank@[i] < self.rank@[
                self.parent@[i] as int
            ]
        &&& self.num_sets <= n
        &&& forall|i: int| 0 <= i < n ==> #[trigger] self.rank@[i] + self.num_sets <= n
        &&& self.roots().len() == self.num_sets
    }

    proof fn lemma_roots_finite(&self)
        ensures
            self.roots().finite(),
    {
        let n = self.parent@.len() as int;
        assert(self.roots() =~= Set::new(|i: int| 0 <= i < n).filter(
            |i: int| self.parent@[i] == i,
        ));
        vstd::set_lib::lemma_int_range(0, n);
        assert(Set::new(|i: int| 0 <= i < n) =~= vstd::set_lib::set_int_range(0, n));
    }

    /// The walk from `x` ends at a root, and `x` is its own representative exactly when it is
    /// a root.
    proof fn lemma_find_root(&self, x: int)
        requires
            self.wf(),
            0 <= x < self.len(),
        ensures
            0 <= self.rep(x) < self.len(),
            self.parent@[self.rep(x)] == self.rep(x),
            self.rep(self.rep(x)) == self.rep(x),
            (self.rep(x) == x) == (self.parent@[x] == x),
            self.parent@[x] != x ==> self.rep(x) == self.rep(self.parent@[x] as int),
            self.parent@[x] != x ==> self.rank@[x] < self.rank@[self.rep(x)],
        decreases self.len() - self.rank@[x],
    {
        let p = self.parent@[x] as int;
        if self.parent@[x] != x {
            assert(self.rank@[x] < self.rank@[p]);
            assert(self.rank@[p] + self.num_sets <= self.len());
            self.lemma_find_root(p);
        }
    }

    /// A key's representative is its own representative.
    pub proof fn law_rep_idempotent(&self, x: int)
        requires
            self.wf(),
            0 <= x < self.len(),
        ensures
            0 <= self.rep(x) < self.len(),
            self.rep(self.rep(x)) == self.rep(x),
    {
        self.lemma_find_root(x);
    }

    /// With at most one set, all keys are in the same set.
    pub proof fn law_at_most_one_set(&self, x: int, y: int)
        requires
            self.wf(),
            self.count() <= 1,
            0 <= x < self.len(),
            0 <= y < self.len(),
        ensures
            self.same(x, y),
    {
        self.law_count_is_number_of_sets();
        self.law_rep_idempotent(x);
        self.law_rep_idempotent(y);
        let s = self.reps();
        assert(s.contains(self.rep(x)));
        assert(s.contains(self.rep(y)));
        if self.rep(x) != self.rep(y) {
            assert(s.remove(self.rep(x)).contains(self.rep(y)));
            assert(s.remove(self.rep(x)).len() == s.len() - 1);
            assert(s.remove(self.rep(x)).len() > 0);
        }
    }

    /// The counter equals the number of distinct sets.
    pub proof fn law_count_is_number_of_sets(&self)
        requires
            self.wf(),
        ensures
            self.reps().finite(),
            self.count() == self.reps().len(),
    {
        assert forall|i: int| 0 <= i < self.len() implies (self.rep(i) == i) == (self.parent@[i]
            == i) by {
            self.lemma_find_root(i);
        }
        assert(self.reps() =~= self.roots());
        self.lemma_roots_finite();
    }

    /// Creates a structure with keys `0..n`, each in its own set.
    pub fn with_keys_in_range(n: usize) -> (s: Self)
        ensures
            s.wf(),
            s.len() == n,
            s.count() == n,
            forall|i: int| 0 <= i < n ==> #[trigger] s.rep(i) == i,
    {
        let mut parent: Vec<usize> = Vec::with_capacity(n);
        let mut rank: Vec<usize> = Vec::with_capacity(n);
        let mut i: usize = 0;
        while i < n
            invariant
                i <= n,
                parent@.len() == i,
                rank@.len() == i,
                forall|j: int| 0 <= j < i ==> #[trigger] parent@[j] == j,
                forall|j: int| 0 <= j < i ==> #[trigger] rank@[j] == 0,
            decreases n - i,
        {
            parent.push(i);
            rank.push(0);
            i = i + 1;
        }
        let s = UnionFind { parent, rank, num_sets: n };
        proof {
            assert(s.roots() =~= Set::new(|j: int| 0 <= j < n));
            vstd::set_lib::lemma_int_range(0, n as int);
            assert(Set::new(|j: int| 0 <= j < n) =~= vstd::set_lib::set_int_range(0, n as int));
        }
        s
    }

    /// Puts each key back in its own set.
    pub fn reset(&mut self)
        requires
            old(self).wf(),
        ensures
            final(self).wf(),
            final(self).len() == old(self).len(),
            final(self).count() == old(self).len(),
            forall|i: int| 0 <= i < final(self).len() ==> #[trigger] final(self).rep(i) == i,
    {
        let n = self.parent.len();
        let mut i: usize = 0;
        while i < n
            invariant
                i <= n,
                self.parent@.len() == n,
                self.rank@.len() == n,
                forall|j: int| 0 <= j < i ==> #[trigger] self.parent@[j] == j,
                forall|j: int| 0 <= j < i ==> #[trigger] self.rank@[j] == 0,
            decreases n - i,
        {
            self.parent.set(i, i);
            self.rank.set(i, 0);
            i = i + 1;
        }
        self.num_sets = n;
        proof {
            assert(self.roots() =~= Set::new(|j: int| 0 <= j < n));
            vstd::set_lib::lemma_int_range(0, n as int);
            assert(Set::new(|j: int| 0 <= j < n) =~= vstd::set_lib::set_int_range(0, n as int));
        }
    }

    /// Appending a key in a set of its own leaves every other key's representative alone.
    proof fn lemma_push(&self, other: &Self, y: int)
        requires
            self.wf(),
            other.parent@ == self.parent@.push(self.len() as usize),
            other.rank@ == self.rank@.push(0),
            0 <= y < self.len(),
        ensures
            other.rep(y) == self.rep(y),
        decreases self.len() - self.rank@[y],
    {
        let p = self.parent@[y] as int;
        if p != y {
            assert(self.rank@[y] < self.rank@[p]);
            assert(self.rank@[p] + self.num_sets <= self.len());
            self.lemma_push(other, p);
            assert(other.parent@[y] == p);
            assert(other.rep(y) == find_root(other.parent@, other.rank@, p));
        } else {
            assert(other.parent@[y] == y);
        }
    }

    /// Adds the key `len()` in a set of its own.
    pub(crate) fn push_singleton(&mut self) -> (k: usize)
        requires
            old(self).wf(),
            old(self).len() < usize::MAX,
        ensures
            final(self).wf(),
            k == old(self).len(),
            final(self).len() == old(self).len() + 1,
            final(self).count() == old(self).count() + 1,
            final(self).rep(k as int) == k,
            forall|y: int| 0 <= y < old(self).len() ==> #[trigger] final(self).rep(y) == old(self).rep(y),
    {
        let ghost s0 = *self;
        let n = self.parent.len();
        self.parent.push(n);
        self.rank.push(0);
        self.num_sets = self.num_sets + 1;
        proof {
            assert forall|y: int| 0 <= y < s0.len() implies #[trigger] self.rep(y) == s0.rep(y) by {
                let t = UnionFind { parent: self.parent, rank: self.rank, num_sets: s0.num_sets };
                s0.lemma_push(&t, y);
                assert(t.rep(y) == self.rep(y));
            }
            assert(self.parent@[n as int] == n);
            s0.lemma_roots_finite();
            assert(self.roots() =~= s0.roots().insert(n as int));
        }
        n
    }

    /// The number of distinct sets.
    pub fn num_sets(&self) -> (r: usize)
        ensures
            r == self.count(),
    {
        self.num_sets
    }

    fn parent(&self, k: usize) -> (r: usize)
        requires
            k < self.parent@.len(),
        ensures
            r == self.parent@[k as int],
    {
        self.parent[k]
    }

    fn rank(&self, k: usize) -> (r: usize)
        requires
            k < self.rank@.len(),
        ensures
            r == self.rank@[k as int],
    {
        self.rank[k]
    }

    /// Setting `x`'s parent to a key of the same set with larger rank keeps every
    /// representative.
    proof fn lemma_redirect(&self, other: &Self, x: int, g: usize, y: int)
        requires
            self.wf(),
            0 <= x < self.len(),
            g < self.len(),
            0 <= y < self.len(),
            self.parent@[x] != x,
            self.rank@[x] < self.rank@[g as int],
            self.rep(g as int) == self.rep(x),
            other.parent@ == self.parent@.update(x, g),
            other.rank@ == self.rank@,
            other.num_sets == self.num_sets,
        ensures
            other.rep(y) == self.rep(y),
        decreases self.len() - self.rank@[y],
    {
        let p = self.parent@[y] as int;
        self.lemma_find_root(y);
        if y == x {
            assert(self.rank@[g as int] + self.num_sets <= self.len());
            self.lemma_redirect(other, x, g, g as int);
            assert(other.parent@[x] == g);
            assert(other.rep(x) == find_root(other.parent@, other.rank@, g as int));
        } else if p != y {
            assert(self.rank@[p] + self.num_sets <= self.len());
            self.lemma_redirect(other, x, g, p);
            assert(other.parent@[y] == p);
            assert(other.rep(y) == find_root(other.parent@, other.rank@, p));
        } else {
            assert(other.parent@[y] == y);
        }
    }

    /// Returns the representative of the set that contains `x`, halving the path on the way.
    pub fn find_set(&mut self, x: usize) -> (r: usize)
        requires
            old(self).wf(),
            x < old(self).len(),
        ensures
            final(self).wf(),
            final(self).len() == old(self).len(),
            final(self).count() == old(self).count(),
            r == old(self).rep(x as int),
            forall|y: int| 0 <= y < old(self).len() ==> #[trigger] final(self).rep(y) == old(self).rep(y),
    {
        let ghost orig = *self;
        let ghost x0 = x as int;
        let mut x = x;
        while self.parent(x) != x
            invariant
                self.wf(),
                self.len() == orig.len(),
                self.num_sets == orig.num_sets,
                x < self.len(),
                orig.rep(x as int) == orig.rep(x0),
                forall|y: int| 0 <= y < orig.len() ==> #[trigger] self.rep(y) == orig.rep(y),
            decreases self.len() - self.rank@[x as int],
        {
            let p = self.parent(x);
            let g = self.parent(p);
            let ghost before = *self;
            proof {
                before.lemma_find_root(x as int);
                before.lemma_find_root(p as int);
                assert(before.rank@[x as int] < before.rank@[g as int]);
            }
            self.parent.set(x, g);
            proof {
                assert(self.parent@ == before.parent@.update(x as int, g));
                assert forall|y: int| 0 <= y < orig.len() implies #[trigger] self.rep(y)
                    == orig.rep(y) by {
                    before.lemma_redirect(self, x as int, g, y);
                }
                assert(self.roots() =~= before.roots());
            }
            proof {
                before.lemma_find_root(x as int);
            }
            x = g;
        }
        proof {
            self.lemma_find_root(x as int);
            orig.lemma_find_root(x as int);
        }
        x
    }

    /// Hanging the root `c` below the root `d` sends every key of `c`'s set to `d` and leaves
    /// the others alone.
    proof fn lemma_hang(&self, other: &Self, c: usize, d: usize, z: int)
        requires
            self.wf(),
            c < self.len(),
            d < self.len(),
            c != d,
            self.parent@[c as int] == c,
            self.parent@[d as int] == d,
            other.parent@ == self.parent@.update(c as int, d),
            other.rank@.len() == self.rank@.len(),
            forall|i: int| 0 <= i < self.len() && i != d ==> other.rank@[i] == self.rank@[i],
            self.rank@[d as int] <= other.rank@[d as int] <= self.len(),
            other.rank@[c as int] < other.rank@[d as int],
            0 <= z < self.len(),
        ensures
            other.rep(z) == (if self.rep(z) == c { d as int } else { self.rep(z) }),
        decreases self.len() - self.rank@[z],
    {
        let p = self.parent@[z] as int;
        self.lemma_find_root(z);
        if p == z {
            if z == c {
                assert(other.parent@[c as int] == d);
                assert(other.parent@[d as int] == d);
                assert(other.rep(d as int) == d);
                assert(other.rep(c as int) == find_root(other.parent@, other.rank@, d as int));
            } else {
                assert(other.parent@[z] == z);
            }
        } else {
            assert(self.rank@[p] + self.num_sets <= self.len());
            self.lemma_hang(other, c, d, p);
            assert(other.parent@[z] == p);
            assert(self.rank@[z] < self.rank@[p]);
            assert(other.rep(z) == find_root(other.parent@, other.rank@, p));
        }
    }

    /// Joins the sets of the roots `a` and `b`, by rank.
    fn link(&mut self, a: usize, b: usize)
        requires
            old(self).wf(),
            a < old(self).len(),
            b < old(self).len(),
            a != b,
            old(self).parent@[a as int] == a,
            old(self).parent@[b as int] == b,
        ensures
            final(self).wf(),
            final(self).len() == old(self).len(),
            final(self).count() + 1 == old(self).count(),
            final(self).rep(a as int) == final(self).rep(b as int),
            final(self).rep(a as int) == a || final(self).rep(a as int) == b,
            forall|z: int|
                0 <= z < old(self).len() ==> #[trigger] final(self).rep(z) == (if old(self).rep(z)
                    == a || old(self).rep(z) == b {
                    final(self).rep(a as int)
                } else {
                    old(self).rep(z)
                }),
    {
        let ghost s0 = *self;
        proof {
            s0.lemma_find_root(a as int);
            s0.lemma_find_root(b as int);
            s0.lemma_roots_finite();
            assert(s0.roots().contains(a as int));
            assert(s0.roots().contains(b as int));
            assert(s0.num_sets >= 2) by {
                assert(s0.roots().remove(a as int).contains(b as int));
            }
        }
        let n = self.parent.len();
        self.num_sets = self.num_sets - 1;
        let ra = self.rank(a);
        let rb = self.rank(b);
        if ra > rb {
            self.parent.set(b, a);
            proof {
                assert forall|z: int| 0 <= z < s0.len() implies #[trigger] self.rep(z) == (if s0.rep(
                    z,
                ) == b {
                    a as int
                } else {
                    s0.rep(z)
                }) by {
                    let t = UnionFind { parent: self.parent, rank: self.rank, num_sets: s0.num_sets };
                    s0.lemma_hang(&t, b, a, z);
                }
                assert(self.roots() =~= s0.roots().remove(b as int));
            }
        } else {
            self.parent.set(a, b);
            if ra == rb {
                assert(rb + 2 <= n);
                self.rank.set(b, rb + 1);
            }
            proof {
                assert forall|z: int| 0 <= z < s0.len() implies #[trigger] self.rep(z) == (if s0.rep(
                    z,
                ) == a {
                    b as int
                } else {
                    s0.rep(z)
                }) by {
                    let t = UnionFind { parent: self.parent, rank: self.rank, num_sets: s0.num_sets };
                    s0.lemma_hang(&t, a, b, z);
                }
                assert(self.roots() =~= s0.roots().remove(a as int));
            }
        }
    }

    /// Joins the sets that hold `x` and `y`; the number of sets goes down by one.
    ///
    /// `x` and `y` must be in different sets (the operation panics otherwise).
    pub fn union(&mut self, x: usize, y: usize)
        requires
            old(self).wf(),
            x < old(self).len(),
            y < old(self).len(),
            !old(self).same(x as int, y as int),
        ensures
            final(self).wf(),
            final(self).len() == old(self).len(),
            final(self).count() + 1 == old(self).count(),
            final(self).same(x as int, y as int),
            final(self).rep(x as int) == old(self).rep(x as int) || final(self).rep(x as int)
                == old(self).rep(y as int),
            forall|z: int|
                0 <= z < old(self).len() ==> #[trigger] final(self).rep(z) == (if old(self).same(
                    z,
                    x as int,
                ) || old(self).same(z, y as int) {
                    final(self).rep(x as int)
                } else {
                    old(self).rep(z)
                }),
    {
        let ghost s0 = *self;
        let a = self.find_set(x);
        let b = self.find_set(y);
        proof {
            s0.lemma_find_root(x as int);
            s0.lemma_find_root(y as int);
            self.lemma_find_root(a as int);
            self.lemma_find_root(b as int);
        }
        self.link(a, b);
    }

    /// Whether `x` and `y` are in the same set; the sets do not change.
    pub fn in_same_set(&mut self, x: usize, y: usize) -> (r: bool)
        requires
            old(self).wf(),
            x < old(self).len(),
            y < old(self).len(),
        ensures
            final(self).wf(),
            final(self).len() == old(self).len(),
            final(self).count() == old(self).count(),
            r == old(self).same(x as int, y as int),
            forall|z: int| 0 <= z < old(self).len() ==> #[trigger] final(self).rep(z) == old(self).rep(z),
    {
        let a = self.find_set(x);
        let b = self.find_set(y);
        a == b
    }
}

/// A union-find structure over arbitrary `u64` keys: each key added by `make_set` gets the
/// next index of a range structure, which does the work.
pub struct HashUnionFind {
    index: HashMap<u64, usize>,
    keys: Vec<u64>,
    sets: UnionFind,
}

impl HashUnionFind {
    /// The keys that are in some set.
    pub closed spec fn keys(&self) -> Set<u64> {
        self.index@.dom()
    }

    /// The number of keys added so far.
    pub closed spec fn len(&self) -> nat {
        self.keys@.len()
    }

    /// The key that represents the set holding `k`.
    pub closed spec fn rep_key(&self, k: u64) -> u64 {
        self.keys@[self.sets.rep(self.index@[k] as int)]
    }

    /// `x` and `y` are in the same set.
    pub open spec fn same(&self, x: u64, y: u64) -> bool {
        self.rep_key(x) == self.rep_key(y)
    }

    /// The counter that `num_sets` reports.
    pub closed spec fn count(&self) -> nat {
        self.sets.count()
    }

    /// The keys and the indices of the range structure are in one-to-one correspondence.
    pub closed spec fn wf(&self) -> bool {
        &&& self.sets.wf()
        &&& self.keys@.len() == self.sets.len()
        &&& forall|k: u64| #[trigger]
            self.index@.contains_key(k) ==> self.index@[k] < self.keys@.len() && self.keys@[self.index@[k] as int] == k
        &&& forall|i: int|
            0 <= i < self.keys@.len() ==> #[trigger] self.index@.contains_key(self.keys@[i])
                && self.index@[self.keys@[i]] == i
    }

    /// Creates a structure with no keys.
    pub fn new() -> (s: Self)
        ensures
            s.wf(),
            s.keys() == Set::<u64>::empty(),
            s.len() == 0,
            s.count() == 0,
    {
        let s = HashUnionFind {
            index: HashMap::new(),
            keys: Vec::new(),
            sets: UnionFind::with_keys_in_range(0),
        };
        proof {
            assert(s.keys() =~= Set::<u64>::empty());
        }
        s
    }

    /// Adds `x` in a set of its own; the number of sets goes up by one.
    ///
    /// `x` must not be in any set yet.
    pub fn make_set(&mut self, x: u64)
        requires
            old(self).wf(),
            !old(self).keys().contains(x),
            old(self).len() < usize::MAX,
        ensures
            final(self).wf(),
            final(self).keys() == old(self).keys().insert(x),
            final(self).len() == old(self).len() + 1,
            final(self).count() == old(self).count() + 1,
            final(self).rep_key(x) == x,
            forall|k: u64| #[trigger]
                old(self).keys().contains(k) ==> final(self).rep_key(k) == old(self).rep_key(k),
            forall|k: u64| #[trigger] old(self).keys().contains(k) ==> !final(self).same(x, k),
    {
        let ghost s0 = *self;
        let i = self.sets.push_singleton();
        self.keys.push(x);
        self.index.insert(x, i);
        proof {
            assert(self.keys() =~= s0.keys().insert(x));
            assert forall|k: u64| #[trigger] self.index@.contains_key(k) implies self.index@[k]
                < self.keys@.len() && self.keys@[self.index@[k] as int] == k by {
                if k != x {
                    assert(s0.index@.contains_key(k));
                }
            }
            assert forall|j: int| 0 <= j < self.keys@.len() implies #[trigger] self.index@.contains_key(
                self.keys@[j],
            ) && self.index@[self.keys@[j]] == j by {
                if j < s0.keys@.len() {
                    assert(s0.index@.contains_key(s0.keys@[j]));
                    assert(s0.keys@[j] != x);
                }
            }
            assert forall|k: u64| #[trigger] s0.keys().contains(k) implies self.rep_key(k)
                == s0.rep_key(k) by {
                assert(s0.index@.contains_key(k));
                s0.sets.law_rep_idempotent(s0.index@[k] as int);
            }
            assert forall|k: u64| #[trigger] s0.keys().contains(k) implies !self.same(x, k) by {
                assert(s0.index@.contains_key(k));
                s0.lemma_same_iff(k, k);
                let r = s0.sets.rep(s0.index@[k] as int);
                assert(s0.index@.contains_key(s0.keys@[r]));
                assert(self.rep_key(k) == s0.keys@[r]);
            }
        }
    }

    /// Returns the key that represents the set holding `x`.
    ///
    /// `x` must be in some set (the operation panics otherwise).
    pub fn find_set(&mut self, x: u64) -> (r: u64)
        requires
            old(self).wf(),
            old(self).keys().contains(x),
        ensures
            final(self).wf(),
            final(self).keys() == old(self).keys(),
            final(self).len() == old(self).len(),
            final(self).count() == old(self).count(),
            r == old(self).rep_key(x),
            forall|k: u64| #[trigger]
                old(self).keys().contains(k) ==> final(self).rep_key(k) == old(self).rep_key(k),
    {
        let ghost s0 = *self;
        let i = *self.index.get(&x).unwrap();
        proof {
            assert(s0.index@.contains_key(x));
        }
        let r = self.sets.find_set(i);
        proof {
            assert forall|k: u64| #[trigger] s0.keys().contains(k) implies self.rep_key(k)
                == s0.rep_key(k) by {
                assert(s0.index@.contains_key(k));
            }
            s0.sets.law_rep_idempotent(i as int);
        }
        self.keys[r]
    }

    /// Whether `x` and `y` are in the same set; the sets do not change.
    ///
    /// `x` and `y` must be in some set (the operation panics otherwise).
    pub fn in_same_set(&mut self, x: u64, y: u64) -> (r: bool)
        requires
            old(self).wf(),
            old(self).keys().contains(x),
            old(self).keys().contains(y),
        ensures
            final(self).wf(),
            final(self).keys() == old(self).keys(),
            final(self).len() == old(self).len(),
            final(self).count() == old(self).count(),
            r == old(self).same(x, y),
            forall|k: u64| #[trigger]
                old(self).keys().contains(k) ==> final(self).rep_key(k) == old(self).rep_key(k),
    {
        let a = self.find_set(x);
        let b = self.find_set(y);
        a == b
    }

    /// Joins the sets that hold `x` and `y`; the number of sets goes down by one.
    ///
    /// `x` and `y` must be in different sets (the operation panics otherwise).
    pub fn union(&mut self, x: u64, y: u64)
        requires
            old(self).wf(),
            old(self).keys().contains(x),
            old(self).keys().contains(y),
            !old(self).same(x, y),
        ensures
            final(self).wf(),
            final(self).keys() == old(self).keys(),
            final(self).len() == old(self).len(),
            final(self).count() + 1 == old(self).count(),
            final(self).same(x, y),
            final(self).rep_key(x) == old(self).rep_key(x) || final(self).rep_key(x)
                == old(self).rep_key(y),
            forall|k: u64| #[trigger]
                old(self).keys().contains(k) ==> final(self).rep_key(k) == (if old(self).same(k, x)
                    || old(self).same(k, y) {
                    final(self).rep_key(x)
                } else {
                    old(self).rep_key(k)
                }),
    {
        let ghost s0 = *self;
        let i = *self.index.get(&x).unwrap();
        let j = *self.index.get(&y).unwrap();
        proof {
            assert(s0.index@.contains_key(x));
            assert(s0.index@.contains_key(y));
            s0.lemma_same_iff(x, y);
        }
        self.sets.union(i, j);
        proof {
            assert forall|k: u64| #[trigger] s0.keys().contains(k) implies self.rep_key(k) == (
            if s0.same(k, x) || s0.same(k, y) {
                self.rep_key(x)
            } else {
                s0.rep_key(k)
            }) by {
                assert(s0.index@.contains_key(k));
                s0.lemma_same_iff(k, x);
                s0.lemma_same_iff(k, y);
            }
        }
    }

    /// Two keys are in the same set exactly when their indices are.
    proof fn lemma_same_iff(&self, x: u64, y: u64)
        requires
            self.wf(),
            self.keys().contains(x),
            self.keys().contains(y),
        ensures
            self.same(x, y) == self.sets.same(self.index@[x] as int, self.index@[y] as int),
            0 <= self.sets.rep(self.index@[x] as int) < self.keys@.len(),
    {
        assert(self.index@.contains_key(x));
        assert(self.index@.contains_key(y));
        let i = self.index@[x] as int;
        let j = self.index@[y] as int;
        self.sets.law_rep_idempotent(i);
        self.sets.law_rep_idempotent(j);
        let ri = self.sets.rep(i);
        let rj = self.sets.rep(j);
        assert(0 <= ri < self.keys@.len());
        assert(0 <= rj < self.keys@.len());
        assert(self.index@.contains_key(self.keys@[ri]) && self.index@[self.keys@[ri]] == ri);
        assert(self.index@.contains_key(self.keys@[rj]) && self.index@[self.keys@[rj]] == rj);
    }

    /// The keys that represent their own set: one per set.
    pub open spec fn rep_keys(&self) -> Set<u64> {
        self.keys().filter(|k: u64| self.rep_key(k) == k)
    }

    /// The counter equals the number of distinct sets of keys.
    pub proof fn law_count_is_number_of_sets(&self)
        requires
            self.wf(),
        ensures
            self.rep_keys().finite(),
            self.count() == self.rep_keys().len(),
    {
        self.sets.law_count_is_number_of_sets();
        let x = self.sets.reps();
        let f = |i: int| self.keys@[i];
        assert forall|i: int, j: int| #[trigger] x.contains(i) && #[trigger] x.contains(j) && f(i)
            == f(j) implies i == j by {
            assert(self.index@.contains_key(self.keys@[i]));
            assert(self.index@.contains_key(self.keys@[j]));
        }
        assert forall|k: u64| #[trigger] self.rep_keys().contains(k) implies x.map(f).contains(k) by {
            assert(self.index@.contains_key(k));
            let i = self.index@[k] as int;
            self.sets.law_rep_idempotent(i);
            let r = self.sets.rep(i);
            assert(0 <= r < self.keys@.len());
            assert(self.index@.contains_key(self.keys@[r]));
            assert(x.contains(i));
            assert(f(i) == k);
        }
        assert forall|k: u64| #[trigger] x.map(f).contains(k) implies self.rep_keys().contains(k) by {
            let i = choose|i: int| x.contains(i) && f(i) == k;
            assert(self.index@.contains_key(self.keys@[i]));
        }
        assert(x.map(f) =~= self.rep_keys());
        vstd::set_lib::lemma_map_size(x, self.rep_keys(), f);
    }

    /// The number of distinct sets.
    pub fn num_sets(&self) -> (r: usize)
        ensures
            r == self.count(),
    {
        self.sets.num_sets()
    }
}

} // verus!
