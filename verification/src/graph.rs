//! Simple undirected graphs, held as one bit row of adjacency per vertex.

use crate::bits::count_true;
use crate::bits::lemma_count_true_bound;
use crate::bits::row_bits;
use crate::bits::row_count_ones;
use crate::bits::row_repeat;
use crate::bits::row_set;
use crate::bits::BitRow;
use vstd::prelude::*;

verus! {

/// `g` is the adjacency matrix of a simple undirected graph: square,
/// symmetric, and with `false` on the diagonal.
pub open spec fn is_adjacency(g: Seq<Seq<bool>>) -> bool {
    &&& forall|u: int| 0 <= u < g.len() ==> (#[trigger] g[u]).len() == g.len()
    &&& forall|u: int| 0 <= u < g.len() ==> !(#[trigger] g[u])[u]
    &&& forall|u: int, v: int| 0 <= u < g.len() && 0 <= v < g.len() ==> #[trigger] g[u][v] == g[v][u]
}

/// The sum of the degrees of the first `k` vertices.
pub open spec fn degree_sum(g: Seq<Seq<bool>>, k: int) -> nat
    decreases k,
{
    if k <= 0 {
        0
    } else {
        degree_sum(g, k - 1) + count_true(g[k - 1], g.len() as int)
    }
}

/// Some entry of `edges` joins `a` and `b`, in either direction.
pub open spec fn edge_listed(edges: Seq<(usize, usize)>, a: int, b: int) -> bool {
    exists|i: int|
        0 <= i < edges.len() && ((#[trigger] edges[i]).0 == a && edges[i].1 == b || edges[i].0 == b
            && edges[i].1 == a)
}

/// The degrees of the first `k` vertices sum to at most `k` times the number
/// of vertices.
pub proof fn lemma_degree_sum_bound(g: Seq<Seq<bool>>, k: int)
    requires
        0 <= k,
    ensures
        degree_sum(g, k) <= k * g.len(),
    decreases k,
{
    if k > 0 {
        lemma_degree_sum_bound(g, k - 1);
        lemma_count_true_bound(g[k - 1], g.len() as int);
        assert((k - 1) * g.len() + g.len() == k * g.len()) by (nonlinear_arith);
    }
}

/// A number whose square fits in `usize` is a legal row length.
pub proof fn lemma_square_bounds_row(n: usize)
    requires
        n * n <= usize::MAX,
    ensures
        n <= usize::MAX / 8,
        n <= 0xFFFF_FFFF,
{
    if n >= 8 {
        assert(n * 8 <= n * n) by (nonlinear_arith)
            requires
                n >= 8,
        ;
    }
    if n > 0xFFFF_FFFF {
        assert(n * n >= 0x1_0000_0000 * 0x1_0000_0000) by (nonlinear_arith)
            requires
                n >= 0x1_0000_0000,
        ;
    }
}

/// An undirected simple graph on the vertices `0 .. n`.
pub struct Graph {
    adj: Vec<BitRow>,
}

impl Graph {
    /// The adjacency matrix: entry `[u][v]` says whether `u` and `v` are
    /// joined.
    pub closed spec fn view(&self) -> Seq<Seq<bool>> {
        Seq::new(self.adj@.len(), |u: int| row_bits(self.adj@[u]))
    }

    /// The graph is simple and undirected, and its matrix has at most
    /// `usize::MAX` cells.
    pub open spec fn wf(&self) -> bool {
        &&& is_adjacency(self@)
        &&& self@.len() * self@.len() <= usize::MAX
    }

    /// The number of vertices.
    pub open spec fn spec_n(&self) -> nat {
        self@.len()
    }

    /// The number of neighbours of `v`.
    pub open spec fn spec_degree(&self, v: int) -> nat {
        count_true(self@[v], self@.len() as int)
    }

    /// The number of edges: half the sum of all degrees.
    pub open spec fn spec_m(&self) -> nat {
        degree_sum(self@, self@.len() as int) / 2
    }

    /// The graph on `n` vertices without edges.
    pub fn with_vertices(n: usize) -> (g: Graph)
        requires
            n * n <= usize::MAX,
        ensures
            g.wf(),
            g@.len() == n,
            forall|u: int, v: int| 0 <= u < n && 0 <= v < n ==> !#[trigger] g@[u][v],
    {
        proof {
            lemma_square_bounds_row(n);
        }
        let mut rows: Vec<BitRow> = Vec::new();
        let mut i: usize = 0;
        while i < n
            invariant
                i <= n,
                n <= usize::MAX / 8,
                rows@.len() == i,
                forall|u: int| 0 <= u < i ==> (#[trigger] row_bits(rows@[u])).len() == n,
                forall|u: int, v: int| 0 <= u < i && 0 <= v < n ==> !#[trigger] row_bits(rows@[u])[v],
            decreases n - i,
        {
            rows.push(row_repeat(false, n));
            i = i + 1;
        }
        Graph { adj: rows }
    }

    /// The graph on `n` vertices whose edges are the pairs of `edges` that lie
    /// within range; pairs with an endpoint out of range are passed over.
    pub fn from_edge_list(n: usize, edges: &[(usize, usize)]) -> (g: Graph)
        requires
            n * n <= usize::MAX,
            forall|i: int|
                0 <= i < edges@.len() && (#[trigger] edges@[i]).0 < n && edges@[i].1 < n
                    ==> edges@[i].0 != edges@[i].1,
        ensures
            g.wf(),
            g@.len() == n,
            forall|a: int, b: int|
                0 <= a < n && 0 <= b < n ==> (#[trigger] g@[a][b] <==> edge_listed(edges@, a, b)),
    {
        let mut g = Graph::with_vertices(n);
        let mut i: usize = 0;
        while i < edges.len()
            invariant
                i <= edges@.len(),
                g.wf(),
                g@.len() == n,
                forall|j: int|
                    0 <= j < edges@.len() && (#[trigger] edges@[j]).0 < n && edges@[j].1 < n
                        ==> edges@[j].0 != edges@[j].1,
                forall|a: int, b: int|
                    0 <= a < n && 0 <= b < n ==> (#[trigger] g@[a][b] <==> edge_listed(
                        edges@.take(i as int),
                        a,
                        b,
                    )),
            decreases edges@.len() - i,
        {
            let (u, v) = edges[i];
            let ghost before = g@;
            if u < n && v < n {
                g.add_edge(u, v);
            }
            proof {
                let prev = edges@.take(i as int);
                let next = edges@.take(i as int + 1);
                assert(next[i as int] == edges@[i as int]);
                assert forall|a: int, b: int| 0 <= a < n && 0 <= b < n implies (#[trigger] g@[a][b]
                    <==> edge_listed(next, a, b)) by {
                    if edge_listed(prev, a, b) {
                        let j = choose|j: int|
                            0 <= j < prev.len() && ((#[trigger] prev[j]).0 == a && prev[j].1 == b
                                || prev[j].0 == b && prev[j].1 == a);
                        assert(next[j] == prev[j]);
                    }
                    if edge_listed(next, a, b) {
                        let j = choose|j: int|
                            0 <= j < next.len() && ((#[trigger] next[j]).0 == a && next[j].1 == b
                                || next[j].0 == b && next[j].1 == a);
                        if j < i {
                            assert(prev[j] == next[j]);
                        }
                    }
                    assert(before[a][b] <==> edge_listed(prev, a, b));
                }
            }
            i = i + 1;
        }
        assert(edges@.take(i as int) =~= edges@);
        g
    }

    /// The number of vertices.
    #[verifier::when_used_as_spec(spec_n_usize)]
    pub fn n(&self) -> (n: usize)
        ensures
            n == self@.len(),
    {
        self.adj.len()
    }

    /// The number of vertices, as the machine integer that `n` returns.
    pub closed spec fn spec_n_usize(&self) -> usize {
        self.adj@.len() as usize
    }

    /// The number of edges, each counted once.
    pub fn m(&self) -> (m: usize)
        requires
            self.wf(),
        ensures
            m == self.spec_m(),
    {
        let n = self.adj.len();
        let mut total: usize = 0;
        let mut i: usize = 0;
        while i < n
            invariant
                i <= n,
                n == self@.len(),
                self.wf(),
                total == degree_sum(self@, i as int),
            decreases n - i,
        {
            proof {
                lemma_degree_sum_bound(self@, i as int + 1);
                assert((i + 1) * n <= n * n) by (nonlinear_arith)
                    requires
                        i + 1 <= n,
                ;
            }
            total = total + row_count_ones(&self.adj[i]);
            i = i + 1;
        }
        total / 2
    }

    /// The number of neighbours of `v`.
    pub fn degree(&self, v: usize) -> (d: usize)
        requires
            self.wf(),
            v < self@.len(),
        ensures
            d == self.spec_degree(v as int),
            d <= self@.len(),
    {
        proof {
            lemma_count_true_bound(self@[v as int], self@.len() as int);
        }
        row_count_ones(&self.adj[v])
    }

    /// The adjacency row of `v`: bit `u` says whether `u` and `v` are joined.
    pub fn neigh_row(&self, v: usize) -> (row: &BitRow)
        requires
            v < self@.len(),
        ensures
            row@ == self@[v as int],
    {
        &self.adj[v]
    }

    /// Joins `u` and `v`. Joining them a second time changes nothing.
    pub fn add_edge(&mut self, u: usize, v: usize)
        requires
            old(self).wf(),
            u < old(self)@.len(),
            v < old(self)@.len(),
            u != v,
        ensures
            final(self).wf(),
            final(self)@.len() == old(self)@.len(),
            forall|a: int, b: int|
                0 <= a < old(self)@.len() && 0 <= b < old(self)@.len() ==> (
                #[trigger] final(self)@[a][b] <==> old(self)@[a][b] || (a == u && b == v) || (a == v
                    && b == u)),
    {
        let ghost before = self@;
        assert(before[u as int].len() == before.len());
        assert(before[v as int].len() == before.len());
        row_set(&mut self.adj[u], v, true);
        assert(self@[v as int] == before[v as int]);
        row_set(&mut self.adj[v], u, true);
        proof {
            let after = self@;
            assert(after.len() == before.len());
            assert forall|a: int| 0 <= a < after.len() implies (#[trigger] after[a]).len()
                == after.len() by {
                assert(before[a].len() == before.len());
            }
            assert forall|a: int, b: int| 0 <= a < before.len() && 0 <= b < before.len() implies (
            #[trigger] after[a][b] <==> before[a][b] || (a == u && b == v) || (a == v && b == u)) by {
                assert(before[a].len() == before.len());
            }
            assert forall|a: int| 0 <= a < after.len() implies !(#[trigger] after[a])[a] by {
                assert(!before[a][a]);
                assert(after[a][a] <==> before[a][a] || (a == u && a == v) || (a == v && a == u));
            }
            assert forall|a: int, b: int| 0 <= a < after.len() && 0 <= b < after.len() implies #[trigger] after[a][b]
                == after[b][a] by {
                assert(before[a][b] == before[b][a]);
                assert(after[b][a] <==> before[b][a] || (b == u && a == v) || (b == v && a == u));
            }
        }
    }
}

} // verus!
