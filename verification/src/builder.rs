//! Builders of well-known graphs: complete graphs and complete binary trees.
use vstd::prelude::*;
use vstd::arithmetic::power2::{pow2, lemma_pow2_unfold, lemma_pow2_pos};
use crate::graph::{Static, StaticBuilder};

verus! {

/// The ends of the edges `(u, v)`, `u < v < n`, for a fixed `u`, in increasing order of `v`.
pub open spec fn complete_row(n: int, u: int) -> Seq<usize> {
    Seq::new(
        (2 * (n - u - 1)) as nat,
        |k: int|
            if k % 2 == 0 {
                u as usize
            } else {
                (u + 1 + k / 2) as usize
            },
    )
}

/// The ends of the edges `(u, v)`, `u < v < n`, for `u < m`, in increasing order.
pub open spec fn complete_ends(n: int, m: int) -> Seq<usize>
    decreases m,
{
    if m <= 0 {
        Seq::empty()
    } else {
        complete_ends(n, m - 1) + complete_row(n, m - 1)
    }
}

/// The ends of the first `m` inner vertices' edges of a complete binary tree: vertex `i`
/// has the children `2i + 1` and `2i + 2`.
pub open spec fn tree_ends(m: int) -> Seq<usize> {
    Seq::new(
        (4 * m) as nat,
        |k: int|
            if k % 4 == 1 {
                (2 * (k / 4) + 1) as usize
            } else if k % 4 == 3 {
                (2 * (k / 4) + 2) as usize
            } else {
                (k / 4) as usize
            },
    )
}

/// The rows below `m` hold `m * (2n - m - 1)` ends.
pub proof fn lemma_complete_len(n: int, m: int)
    requires
        0 <= m <= n,
    ensures
        complete_ends(n, m).len() == m * (2 * n - m - 1),
    decreases m,
{
    if m == 0 {
        assert(complete_ends(n, m) =~= Seq::<usize>::empty());
        assert(m * (2 * n - m - 1) == 0);
    } else {
        lemma_complete_len(n, m - 1);
        assert(complete_ends(n, m) == complete_ends(n, m - 1) + complete_row(n, m - 1));
        assert(complete_row(n, m - 1).len() == 2 * (n - m));
        assert((m - 1) * (2 * n - (m - 1) - 1) + 2 * (n - (m - 1) - 1) == m * (2 * n - m - 1)) by (nonlinear_arith);
    }
}

/// No more ends are added than the whole graph has.
proof fn lemma_complete_bound(n: int, u: int, v: int)
    requires
        0 <= u < v < n,
    ensures
        u * (2 * n - u - 1) + 2 * (v - u - 1) + 2 <= n * (n - 1),
{
    assert(u * (2 * n - u - 1) + 2 * (v - u - 1) + 2 <= (u + 1) * (2 * n - u - 2)) by (nonlinear_arith)
        requires
            v < n,
            0 <= u,
    ;
    assert((n - u - 1) * (n - u - 2) >= 0) by (nonlinear_arith)
        requires
            u + 1 <= n,
    ;
    assert((u + 1) * (2 * n - u - 2) <= n * (n - 1)) by (nonlinear_arith)
        requires
            (n - u - 1) * (n - u - 2) >= 0,
    ;
}

/// A builder holding the complete graph on `n` vertices: an edge `(u, v)` for each `u < v`,
/// in increasing order.
pub fn complete(n: usize) -> (b: StaticBuilder)
    requires
        n * n + 4 < usize::MAX,
    ensures
        b.wf(),
        b.spec_num_vertices() == n,
        !b.spec_directed(),
        b.spec_ends() == complete_ends(n as int, n as int),
        b.spec_ends().len() == n * (n - 1),
{
    proof {
        lemma_complete_len(n as int, n as int);
        assert(n * (2 * n - n - 1) == n * (n - 1)) by (nonlinear_arith);
    }
    if n == 0 {
        let b = StaticBuilder::new(0, 0, false);
        proof {
            assert(complete_ends(0, 0) =~= Seq::<usize>::empty());
        }
        return b;
    }
    assert(n <= n * n && n * (n - 1) <= n * n) by (nonlinear_arith)
        requires
            n > 0,
    ;
    let mut b = StaticBuilder::new(n, n * (n - 1) / 2, false);
    let mut u: usize = 0;
    while u < n
        invariant
            b.wf(),
            b.spec_num_vertices() == n,
            !b.spec_directed(),
            u <= n,
            n * n + 4 < usize::MAX,
            b.spec_ends() == complete_ends(n as int, u as int),
        decreases n - u,
    {
        let mut v = u + 1;
        while v < n
            invariant
                b.wf(),
                b.spec_num_vertices() == n,
                !b.spec_directed(),
                u < n,
                u + 1 <= v <= n,
                n * n + 4 < usize::MAX,
                b.spec_ends() == complete_ends(n as int, u as int) + complete_row(n as int, u as int).take(
                    2 * (v - u - 1),
                ),
            decreases n - v,
        {
            proof {
                lemma_complete_len(n as int, u as int);
                lemma_complete_bound(n as int, u as int, v as int);
                assert(n * (n - 1) <= n * n) by (nonlinear_arith);
            }
            let ghost e0 = b.spec_ends();
            b.add_edge(u, v);
            proof {
                let row = complete_row(n as int, u as int);
                let k = 2 * (v - u - 1);
                assert(row[k] == u);
                assert(row[k + 1] == v);
                assert(row.take(k + 2) =~= row.take(k).push(u).push(v));
                assert(b.spec_ends() =~= complete_ends(n as int, u as int) + row.take(k + 2));
            }
            v = v + 1;
        }
        proof {
            let row = complete_row(n as int, u as int);
            assert(row.take(2 * (n - u - 1)) =~= row);
        }
        u = u + 1;
    }
    b
}

/// A builder holding the complete binary tree of height `height`: `2^(height + 1) - 1`
/// vertices, vertex `i` with the children `2i + 1` and `2i + 2`, added in this order.
pub fn complete_binary_tree(height: u32) -> (b: StaticBuilder)
    requires
        pow2((height + 2) as nat) < usize::MAX,
    ensures
        b.wf(),
        b.spec_num_vertices() == pow2((height + 1) as nat) - 1,
        !b.spec_directed(),
        b.spec_ends() == tree_ends(pow2(height as nat) - 1),
{
    let mut p: usize = 1;
    let mut j: u32 = 0;
    proof {
        vstd::arithmetic::power2::lemma2_to64();
        lemma_pow2_unfold((height + 1) as nat);
        lemma_pow2_unfold((height + 2) as nat);
        lemma_pow2_pos(height as nat);
        if 0 < height {
            vstd::arithmetic::power2::lemma_pow2_strictly_increases(0, height as nat);
        }
    }
    while j < height
        invariant
            j <= height,
            p == pow2(j as nat),
            pow2(height as nat) < usize::MAX,
            pow2(j as nat) <= pow2(height as nat),
        decreases height - j,
    {
        proof {
            lemma_pow2_unfold((j + 1) as nat);
            if j + 1 < height {
                vstd::arithmetic::power2::lemma_pow2_strictly_increases((j + 1) as nat, height as nat);
            }
        }
        p = p * 2;
        j = j + 1;
    }
    let inner = p - 1;
    let num_vertices = 2 * p - 1;
    let mut b = StaticBuilder::new(num_vertices, num_vertices - 1, false);
    let mut i: usize = 0;
    while i < inner
        invariant
            b.wf(),
            b.spec_num_vertices() == num_vertices,
            num_vertices == 2 * p - 1,
            inner == p - 1,
            4 * p < usize::MAX,
            !b.spec_directed(),
            i <= inner,
            b.spec_ends() == tree_ends(i as int),
        decreases inner - i,
    {
        let ghost e0 = b.spec_ends();
        b.add_edge(i, 2 * i + 1);
        b.add_edge(i, 2 * i + 2);
        proof {
            assert(b.spec_ends() =~= tree_ends(i + 1)) by {
                let t = tree_ends(i + 1);
                assert forall|k: int| 0 <= k < t.len() implies #[trigger] b.spec_ends()[k] == t[k] by {
                    if k < 4 * i {
                        assert(t[k] == tree_ends(i as int)[k]);
                    }
                }
            }
        }
        i = i + 1;
    }
    b
}

impl StaticBuilder {
    /// The graph with the added edges, with its vertices and its edges.
    pub fn finalize_(self) -> (r: (Static, Vec<usize>, Vec<usize>))
        requires
            self.wf(),
        ensures
            r.0.wf(),
            r.0.spec_num_vertices() == self.spec_num_vertices(),
            r.0.spec_directed() == self.spec_directed(),
            r.0.spec_ends() == self.spec_ends(),
            r.1@ == Seq::new(self.spec_num_vertices(), |i: int| i as usize),
            r.2@ == r.0.spec_edge_list(),
    {
        let g = self.finalize();
        let v = g.vertices();
        let e = g.edges();
        (g, v, e)
    }
}

impl Static {
    /// The complete graph on `n` vertices.
    pub fn complete(n: usize) -> (g: Static)
        requires
            n * n + 4 < usize::MAX,
        ensures
            g.wf(),
            g.spec_num_vertices() == n,
            !g.spec_directed(),
            g.spec_ends() == complete_ends(n as int, n as int),
            g.spec_num_edges() == n * (n - 1) / 2,
    {
        complete(n).finalize()
    }

    /// The complete binary tree of height `height`.
    pub fn complete_binary_tree(height: u32) -> (g: Static)
        requires
            pow2((height + 2) as nat) < usize::MAX,
        ensures
            g.wf(),
            g.spec_num_vertices() == pow2((height + 1) as nat) - 1,
            !g.spec_directed(),
            g.spec_ends() == tree_ends(pow2(height as nat) - 1),
            g.spec_num_edges() == pow2((height + 1) as nat) - 2,
    {
        proof {
            lemma_pow2_unfold((height + 1) as nat);
        }
        complete_binary_tree(height).finalize()
    }
}

} // verus!
