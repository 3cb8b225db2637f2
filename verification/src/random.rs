//! Vertices and edges of a static graph drawn at random.
use vstd::prelude::*;
use rand::{Rng, StdRng};
use crate::graph::{Static, index_of};

verus! {

/// The standard random number generator of `rand`.
#[verifier::external_type_specification]
#[verifier::external_body]
pub struct ExStdRng(StdRng);

/// Calls `Rng::gen_range(rng, 0, n)` of `rand`, which draws a value from `0..n` (and panics
/// when `n` is 0). The value drawn depends on the state of `rng`; nothing is claimed of it
/// but that it lies in `0..n`.
#[verifier::external_body]
fn gen_index(rng: &mut StdRng, n: usize) -> (r: usize)
    requires
        n > 0,
    ensures
        r < n,
{
    rng.gen_range(0, n)
}

impl Static {
    /// The number of handles of the edges: one for each directed edge, two for each
    /// undirected one.
    pub open spec fn spec_num_handles(&self) -> nat {
        if self.spec_directed() {
            self.spec_num_edges()
        } else {
            2 * self.spec_num_edges()
        }
    }

    /// A vertex drawn at random; `None` when there is none.
    pub fn choose_vertex(&self, rng: &mut StdRng) -> (r: Option<usize>)
        requires
            self.wf(),
        ensures
            r is None <==> self.spec_num_vertices() == 0,
            r matches Some(v) ==> v < self.spec_num_vertices(),
    {
        let n = self.num_vertices();
        if n == 0 {
            None
        } else {
            Some(gen_index(rng, n))
        }
    }

    /// The handle that the draw `i` of `0..spec_num_handles()` stands for: `i` itself in a
    /// directed graph; in an undirected one, the edge `i / 2`, forward when `i` is even and
    /// backward when it is odd.
    pub fn edge_of_draw(&self, i: usize) -> (r: usize)
        requires
            self.wf(),
            i < self.spec_num_handles(),
        ensures
            self.has_edge(r as int),
            index_of(self.spec_directed(), r as int) == (if self.spec_directed() {
                i as int
            } else {
                i as int / 2
            }),
            self.spec_directed() ==> r == i,
            !self.spec_directed() ==> r == (if i % 2 == 0 {
                i + 1
            } else {
                i - 1
            }),
    {
        proof {
            self.lemma_edge_list();
        }
        if self.is_directed() {
            proof {
                assert(self.spec_edge_list()[i as int] == i);
            }
            i
        } else if i % 2 == 0 {
            proof {
                assert(self.spec_edge_list()[i as int / 2] == i + 1);
            }
            i + 1
        } else {
            proof {
                assert(self.spec_edge_list()[i as int / 2] == i);
            }
            let f = i;
            self.reverse(f)
        }
    }

    /// An edge drawn at random, each handle alike; `None` when there is none.
    pub fn choose_edge(&self, rng: &mut StdRng) -> (r: Option<usize>)
        requires
            self.wf(),
        ensures
            r is None <==> self.spec_num_edges() == 0,
            r matches Some(e) ==> self.has_edge(e as int),
    {
        let m = self.num_edges();
        if m == 0 {
            None
        } else if self.is_undirected_edge(0) {
            proof {
                self.lemma_num_edges_bound();
            }
            let i = gen_index(rng, 2 * m);
            Some(self.edge_of_draw(i))
        } else {
            let i = gen_index(rng, m);
            Some(self.edge_of_draw(i))
        }
    }

    /// An out-edge of `v` drawn at random; `None` when there is none.
    pub fn choose_out_edge(&self, v: usize, rng: &mut StdRng) -> (r: Option<usize>)
        requires
            self.wf(),
            v < self.spec_num_vertices(),
        ensures
            r is None <==> self.spec_out_edges(v as int).len() == 0,
            r matches Some(e) ==> self.spec_out_edges(v as int).contains(e),
    {
        let d = self.out_degree(v);
        if d == 0 {
            None
        } else {
            let k = gen_index(rng, d);
            let e = self.out_edge(v, k);
            proof {
                assert(self.spec_out_edges(v as int)[k as int] == e);
            }
            Some(e)
        }
    }

    /// An out-neighbor of `v` drawn at random, by way of one of its out-edges; `None` when
    /// there is none.
    pub fn choose_out_neighbor(&self, v: usize, rng: &mut StdRng) -> (r: Option<usize>)
        requires
            self.wf(),
            v < self.spec_num_vertices(),
        ensures
            r is None <==> self.spec_out_edges(v as int).len() == 0,
            r matches Some(w) ==> exists|e: usize|
                self.spec_out_edges(v as int).contains(e) && #[trigger] self.spec_target(e as int) == w,
    {
        match self.choose_out_edge(v, rng) {
            Some(e) => {
                proof {
                    self.lemma_out_edges(v as int, 0);
                    let k = choose|k: int| 0 <= k < self.spec_out_edges(v as int).len() && self.spec_out_edges(v as int)[k] == e;
                    assert(self.has_edge(self.spec_out_edges(v as int)[k] as int));
                }
                Some(self.target(e))
            },
            None => None,
        }
    }
}

} // verus!
