//! A candidate solution: a vertex subset of a graph, with its size and the
//! number of edges that it induces kept up to date across every change.

use crate::bits::count_intersecting_ones;
use crate::bits::count_true;
use crate::bits::lemma_count_true_none;
use crate::bits::row_bits;
use crate::bits::row_clone;
use crate::bits::row_get;
use crate::bits::row_repeat;
use crate::bits::row_set;
use crate::bits::BitRow;
use crate::graph::lemma_square_bounds_row;
use crate::graph::Graph;
use crate::induced::conn;
use crate::induced::conn_sum;
use crate::induced::induced_edges;
use crate::induced::lemma_conn_bound;
use crate::induced::lemma_conn_sum_is_twice_edges;
use crate::induced::lemma_edges_upto_empty;
use crate::induced::lemma_induced_bounds;
use crate::induced::lemma_induced_insert;
use crate::induced::lemma_induced_remove;
use crate::ratio::lemma_product_fits;
use crate::ratio::Ratio;
use vstd::prelude::*;

verus! {

/// The tolerance of the feasibility test is one part in this many.
pub const TOLERANCE_PARTS: u64 = 1_000_000_000;

/// The density of a subset with `size` members and `edges` induced edges:
/// the share of its vertex pairs that are joined, and zero below two members.
pub open spec fn density_of(size: int, edges: int) -> Ratio {
    if size < 2 {
        Ratio { num: 0, den: 1 }
    } else {
        Ratio { num: (2 * edges) as u64, den: (size * (size - 1)) as u64 }
    }
}

/// `density + 1 / TOLERANCE_PARTS >= gamma`, as rational numbers.
pub open spec fn reaches(density: Ratio, gamma: Ratio) -> bool {
    (density.num * TOLERANCE_PARTS + density.den) * gamma.den >= gamma.num * density.den
        * TOLERANCE_PARTS
}

/// Where the density zero reaches `gamma`, every density does.
pub proof fn lemma_reaches_from_zero(density: Ratio, gamma: Ratio)
    requires
        density.wf(),
        reaches(Ratio { num: 0, den: 1 }, gamma),
    ensures
        reaches(density, gamma),
{
    let t = TOLERANCE_PARTS as int;
    let lifted = gamma.num * t;
    assert((0 * t + 1) * gamma.den == gamma.den) by (nonlinear_arith);
    assert(gamma.num * 1 * t == lifted) by (nonlinear_arith)
        requires
            lifted == gamma.num * t,
    ;
    assert((density.num * t + density.den) * gamma.den >= gamma.num * density.den * t)
        by (nonlinear_arith)
        requires
            gamma.den >= gamma.num * t,
            density.num >= 0,
            density.den > 0,
            gamma.den >= 0,
            gamma.num >= 0,
            t > 0,
    ;
}

/// A vertex subset of a graph.
pub struct Solution<'g> {
    graph: &'g Graph,
    vertices: BitRow,
    edge_count: usize,
    size: usize,
}

impl<'g> Solution<'g> {
    /// The membership row: entry `v` says whether `v` belongs to the subset.
    pub closed spec fn view(&self) -> Seq<bool> {
        row_bits(self.vertices)
    }

    /// The graph that the subset lives in.
    pub closed spec fn spec_graph(&self) -> &'g Graph {
        self.graph
    }

    /// The stored number of members.
    pub closed spec fn spec_size(&self) -> usize {
        self.size
    }

    /// The stored number of induced edges.
    pub closed spec fn spec_edges(&self) -> usize {
        self.edge_count
    }

    /// The stored counts are those of the membership row: the size is the
    /// number of set bits, and the edge count is the number of joined pairs of
    /// members.
    pub open spec fn wf(&self) -> bool {
        &&& self.spec_graph().wf()
        &&& self@.len() == self.spec_graph()@.len()
        &&& self.spec_size() == count_true(self@, self@.len() as int)
        &&& self.spec_edges() == induced_edges(self.spec_graph()@, self@)
    }

    /// The density of the subset.
    pub open spec fn spec_density(&self) -> Ratio {
        density_of(self.spec_size() as int, self.spec_edges() as int)
    }

    /// The counts of a well-formed solution obey the bounds of a simple
    /// graph.
    pub proof fn lemma_bounds(&self)
        requires
            self.wf(),
        ensures
            self.spec_size() <= self@.len(),
            self@.len() <= usize::MAX,
            2 * self.spec_edges() <= self.spec_size() * (self.spec_size() - 1),
            self.spec_size() * self.spec_size() <= usize::MAX,
            self.spec_size() * (self.spec_size() - 1) <= usize::MAX,
            self.spec_density().wf(),
            self.spec_density().num <= self.spec_density().den,
            self.spec_size() >= 2 ==> self.spec_density().num == 2 * self.spec_edges()
                && self.spec_density().den == self.spec_size() * (self.spec_size() - 1),
    {
        lemma_induced_bounds(self.spec_graph()@, self@);
        let n = self@.len() as int;
        let k = self.spec_size() as int;
        assert(k * k <= n * n && k * (k - 1) <= k * k && n <= n * n) by (nonlinear_arith)
            requires
                0 <= k <= n,
        ;
        if k >= 2 {
            assert(k * (k - 1) >= 2) by (nonlinear_arith)
                requires
                    k >= 2,
            ;
        }
    }

    /// The neighbours that the members have inside the subset, summed over
    /// the members, are twice the stored number of edges.
    pub proof fn lemma_twice_edges(&self)
        requires
            self.wf(),
        ensures
            conn_sum(self.spec_graph()@, self@, self@.len() as int) == 2 * self.spec_edges(),
    {
        lemma_conn_sum_is_twice_edges(self.spec_graph()@, self@);
    }

    /// The empty subset of `graph`.
    pub fn new(graph: &'g Graph) -> (s: Self)
        requires
            graph.wf(),
        ensures
            s.wf(),
            s.spec_graph() == graph,
            s@.len() == graph@.len(),
            forall|v: int| 0 <= v < s@.len() ==> !s@[v],
            s.spec_size() == 0,
            s.spec_edges() == 0,
    {
        let n = graph.n();
        proof {
            lemma_square_bounds_row(n);
        }
        let vertices = row_repeat(false, n);
        proof {
            lemma_count_true_none(row_bits(vertices), n as int);
            lemma_edges_upto_empty(graph@, row_bits(vertices), n as int);
        }
        Solution { graph, vertices, edge_count: 0, size: 0 }
    }

    /// The number of members.
    #[verifier::when_used_as_spec(spec_size)]
    pub fn size(&self) -> (k: usize)
        ensures
            k == self.spec_size(),
    {
        self.size
    }

    /// The number of induced edges.
    #[verifier::when_used_as_spec(spec_edges)]
    pub fn edges(&self) -> (e: usize)
        ensures
            e == self.spec_edges(),
    {
        self.edge_count
    }

    /// The membership row.
    pub fn bitset(&self) -> (row: &BitRow)
        ensures
            row@ == self@,
    {
        &self.vertices
    }

    /// The graph that the subset lives in.
    #[verifier::when_used_as_spec(spec_graph)]
    pub fn graph(&self) -> (g: &'g Graph)
        ensures
            g == self.spec_graph(),
    {
        self.graph
    }

    /// Whether `v` is a member.
    pub fn contains(&self, v: usize) -> (b: bool)
        requires
            v < self@.len(),
        ensures
            b == self@[v as int],
    {
        row_get(&self.vertices, v)
    }

    /// The number of neighbours of `v` inside the subset.
    pub fn count_connections(&self, v: usize) -> (c: usize)
        requires
            self.wf(),
            v < self@.len(),
        ensures
            c == conn(self.spec_graph()@, self@, v as int),
            c <= self.spec_size(),
            self@[v as int] ==> c < self.spec_size() && c <= self.spec_edges(),
    {
        proof {
            lemma_conn_bound(self.spec_graph()@, self@, v as int);
            assert(self.spec_graph()@[v as int].len() == self.spec_graph()@.len());
        }
        count_intersecting_ones(self.graph.neigh_row(v), &self.vertices)
    }

    /// The density: twice the edges over the ordered pairs of members, and
    /// zero below two members.
    pub fn density(&self) -> (d: Ratio)
        requires
            self.wf(),
        ensures
            d == self.spec_density(),
            d.wf(),
            d.num <= d.den,
    {
        proof {
            self.lemma_bounds();
        }
        if self.size < 2 {
            Ratio { num: 0, den: 1 }
        } else {
            let pairs: usize = self.size * (self.size - 1);
            let twice: usize = 2 * self.edge_count;
            Ratio { num: twice as u64, den: pairs as u64 }
        }
    }

    /// Whether the density reaches `gamma`, within the tolerance.
    pub fn is_gamma_feasible(&self, gamma: &Ratio) -> (b: bool)
        requires
            self.wf(),
            gamma.num <= u32::MAX,
            gamma.den <= u32::MAX,
        ensures
            b == reaches(self.spec_density(), *gamma),
    {
        let d = self.density();
        proof {
            lemma_product_fits(d.num, TOLERANCE_PARTS);
            lemma_product_fits(d.den, TOLERANCE_PARTS);
            assert(d.num * TOLERANCE_PARTS <= d.den * TOLERANCE_PARTS) by (nonlinear_arith)
                requires
                    d.num <= d.den,
            ;
            assert(d.den * TOLERANCE_PARTS + d.den <= 0xFFFF_FFFF_FFFF_FFFF * 1_000_000_001)
                by (nonlinear_arith)
                requires
                    d.den <= 0xFFFF_FFFF_FFFF_FFFF,
                    TOLERANCE_PARTS == 1_000_000_000,
            ;
            assert((d.num * TOLERANCE_PARTS + d.den) * gamma.den <= 0xFFFF_FFFF_FFFF_FFFF
                * 1_000_000_001 * 0xFFFF_FFFF) by (nonlinear_arith)
                requires
                    0 <= d.num * TOLERANCE_PARTS + d.den <= 0xFFFF_FFFF_FFFF_FFFF * 1_000_000_001,
                    0 <= gamma.den <= 0xFFFF_FFFF,
            ;
            assert(gamma.num * d.den <= 0xFFFF_FFFF * 0xFFFF_FFFF_FFFF_FFFF) by (nonlinear_arith)
                requires
                    0 <= gamma.num <= 0xFFFF_FFFF,
                    0 <= d.den <= 0xFFFF_FFFF_FFFF_FFFF,
            ;
            assert(gamma.num * d.den * TOLERANCE_PARTS <= 0xFFFF_FFFF * 0xFFFF_FFFF_FFFF_FFFF
                * 1_000_000_000) by (nonlinear_arith)
                requires
                    0 <= gamma.num * d.den <= 0xFFFF_FFFF * 0xFFFF_FFFF_FFFF_FFFF,
                    TOLERANCE_PARTS == 1_000_000_000,
            ;
        }
        let lifted: u128 = (d.num as u128) * (TOLERANCE_PARTS as u128) + (d.den as u128);
        let left: u128 = lifted * (gamma.den as u128);
        let scaled: u128 = (gamma.num as u128) * (d.den as u128);
        let right: u128 = scaled * (TOLERANCE_PARTS as u128);
        left >= right
    }

    /// Puts `v` into the subset. Where `v` is a member already, nothing
    /// changes.
    pub fn add(&mut self, v: usize)
        requires
            old(self).wf(),
            v < old(self)@.len(),
        ensures
            final(self).wf(),
            final(self).spec_graph() == old(self).spec_graph(),
            final(self)@ == old(self)@.update(v as int, true),
            old(self)@[v as int] ==> final(self)@ == old(self)@,
            old(self)@[v as int] ==> final(self).spec_size() == old(self).spec_size(),
            old(self)@[v as int] ==> final(self).spec_edges() == old(self).spec_edges(),
            !old(self)@[v as int] ==> final(self).spec_size() == old(self).spec_size() + 1,
            !old(self)@[v as int] ==> final(self).spec_edges() == old(self).spec_edges()
                + conn(old(self).spec_graph()@, old(self)@, v as int),
    {
        if row_get(&self.vertices, v) {
            assert(self@.update(v as int, true) =~= self@);
            return ;
        }
        let added = self.count_connections(v);
        proof {
            self.lemma_bounds();
            lemma_induced_insert(self.spec_graph()@, self@, v as int);
            lemma_induced_bounds(self.spec_graph()@, self@.update(v as int, true));
        }
        row_set(&mut self.vertices, v, true);
        self.size = self.size + 1;
        self.edge_count = self.edge_count + added;
    }

    /// Takes `v` out of the subset. Where `v` is no member, nothing changes.
    pub fn remove(&mut self, v: usize)
        requires
            old(self).wf(),
            v < old(self)@.len(),
        ensures
            final(self).wf(),
            final(self).spec_graph() == old(self).spec_graph(),
            final(self)@ == old(self)@.update(v as int, false),
            !old(self)@[v as int] ==> final(self)@ == old(self)@,
            !old(self)@[v as int] ==> final(self).spec_size() == old(self).spec_size(),
            !old(self)@[v as int] ==> final(self).spec_edges() == old(self).spec_edges(),
            old(self)@[v as int] ==> final(self).spec_size() + 1 == old(self).spec_size(),
            old(self)@[v as int] ==> final(self).spec_edges()
                + conn(old(self).spec_graph()@, old(self)@, v as int) == old(self).spec_edges(),
    {
        if !row_get(&self.vertices, v) {
            assert(self@.update(v as int, false) =~= self@);
            return ;
        }
        let removed = self.count_connections(v);
        proof {
            lemma_induced_remove(self.spec_graph()@, self@, v as int);
        }
        row_set(&mut self.vertices, v, false);
        self.size = self.size - 1;
        self.edge_count = self.edge_count - removed;
    }
}

impl<'g> Clone for Solution<'g> {
    /// A copy with the same graph, members and counts.
    fn clone(&self) -> (c: Self)
        ensures
            c@ == self@,
            c.spec_graph() == self.spec_graph(),
            c.spec_size() == self.spec_size(),
            c.spec_edges() == self.spec_edges(),
    {
        Solution {
            graph: self.graph,
            vertices: row_clone(&self.vertices),
            edge_count: self.edge_count,
            size: self.size,
        }
    }
}

} // verus!
