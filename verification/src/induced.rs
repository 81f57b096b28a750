//! The edges that a vertex subset induces, and how their number moves when one
//! vertex enters or leaves the subset.

use crate::bits::count_common;
use crate::bits::count_true;
use crate::bits::lemma_count_common_agree;
use crate::bits::lemma_count_common_bound;
use crate::bits::lemma_count_common_update;
use crate::bits::lemma_count_true_bound;
use crate::bits::lemma_count_true_update;
use crate::graph::is_adjacency;
use vstd::prelude::*;

verus! {

/// The number of neighbours of `v` inside the subset `s`.
pub open spec fn conn(g: Seq<Seq<bool>>, s: Seq<bool>, v: int) -> nat {
    count_common(g[v], s, s.len() as int)
}

/// The number of edges between members of `s` below `k`: each member `u`
/// contributes its neighbours in `s` that come before it.
pub open spec fn edges_upto(g: Seq<Seq<bool>>, s: Seq<bool>, k: int) -> nat
    decreases k,
{
    if k <= 0 {
        0
    } else {
        edges_upto(g, s, k - 1) + if s[k - 1] {
            count_common(g[k - 1], s, k - 1)
        } else {
            0nat
        }
    }
}

/// The number of unordered pairs of members of `s` that are joined.
pub open spec fn induced_edges(g: Seq<Seq<bool>>, s: Seq<bool>) -> nat {
    edges_upto(g, s, s.len() as int)
}

/// The sum over the members `u < k` of `s` of their neighbours inside `s`.
pub open spec fn conn_sum(g: Seq<Seq<bool>>, s: Seq<bool>, k: int) -> nat
    decreases k,
{
    if k <= 0 {
        0
    } else {
        conn_sum(g, s, k - 1) + if s[k - 1] {
            conn(g, s, k - 1)
        } else {
            0nat
        }
    }
}

/// The subset without members induces no edge.
pub proof fn lemma_edges_upto_empty(g: Seq<Seq<bool>>, s: Seq<bool>, k: int)
    requires
        forall|i: int| 0 <= i < k ==> !s[i],
    ensures
        edges_upto(g, s, k) == 0,
    decreases k,
{
    if k > 0 {
        lemma_edges_upto_empty(g, s, k - 1);
    }
}

/// Among `c` members there are at most `c * (c - 1) / 2` edges.
pub proof fn lemma_edges_upto_bound(g: Seq<Seq<bool>>, s: Seq<bool>, k: int)
    requires
        0 <= k,
    ensures
        2 * edges_upto(g, s, k) <= count_true(s, k) * (count_true(s, k) - 1),
        edges_upto(g, s, k) == 0 || count_true(s, k) >= 2,
    decreases k,
{
    if k > 0 {
        lemma_edges_upto_bound(g, s, k - 1);
        let c = count_true(s, k - 1) as int;
        let e = edges_upto(g, s, k - 1) as int;
        if s[k - 1] {
            lemma_count_common_bound(g[k - 1], s, k - 1);
            let d = count_common(g[k - 1], s, k - 1) as int;
            assert(2 * (e + d) <= (c + 1) * c) by (nonlinear_arith)
                requires
                    2 * e <= c * (c - 1),
                    0 <= d <= c,
            ;
        }
    } else {
        assert(count_true(s, k) == 0);
    }
}

/// When `v` enters the subset, the edges among the members below `k` grow by
/// the neighbours of `v` below `k`, once `k` has passed `v`.
pub proof fn lemma_edges_upto_insert(g: Seq<Seq<bool>>, s: Seq<bool>, v: int, k: int)
    requires
        is_adjacency(g),
        s.len() == g.len(),
        0 <= v < s.len(),
        !s[v],
        0 <= k <= s.len(),
    ensures
        edges_upto(g, s.update(v, true), k) == edges_upto(g, s, k) + (if k <= v {
            0nat
        } else {
            count_common(g[v], s, k)
        }),
    decreases k,
{
    if k > 0 {
        lemma_edges_upto_insert(g, s, v, k - 1);
        let s2 = s.update(v, true);
        let u = k - 1;
        assert(g[u].len() == g.len());
        assert(g[v].len() == g.len());
        if u < v {
            lemma_count_common_agree(g[u], s2, g[u], s, u);
        } else if u == v {
            lemma_count_common_agree(g[u], s2, g[u], s, u);
            assert(!g[v][v]);
        } else {
            lemma_count_common_update(g[u], s, v, true, u);
            assert(g[u][v] == g[v][u]);
        }
    }
}

/// When `v` enters the subset, the induced edges grow by the neighbours that
/// `v` has in it.
pub proof fn lemma_induced_insert(g: Seq<Seq<bool>>, s: Seq<bool>, v: int)
    requires
        is_adjacency(g),
        s.len() == g.len(),
        0 <= v < s.len(),
        !s[v],
    ensures
        induced_edges(g, s.update(v, true)) == induced_edges(g, s) + conn(g, s, v),
        count_true(s.update(v, true), s.len() as int) == count_true(s, s.len() as int) + 1,
{
    lemma_edges_upto_insert(g, s, v, s.len() as int);
    lemma_count_true_update(s, v, true, s.len() as int);
}

/// When `v` leaves the subset, the induced edges shrink by the neighbours
/// that `v` has in it.
pub proof fn lemma_induced_remove(g: Seq<Seq<bool>>, s: Seq<bool>, v: int)
    requires
        is_adjacency(g),
        s.len() == g.len(),
        0 <= v < s.len(),
        s[v],
    ensures
        induced_edges(g, s.update(v, false)) + conn(g, s, v) == induced_edges(g, s),
        conn(g, s.update(v, false), v) == conn(g, s, v),
        count_true(s.update(v, false), s.len() as int) + 1 == count_true(s, s.len() as int),
{
    let s0 = s.update(v, false);
    assert(s0.update(v, true) =~= s);
    lemma_induced_insert(g, s0, v);
    assert(g[v].len() == g.len());
    assert(!g[v][v]);
    lemma_count_common_update(g[v], s, v, false, s.len() as int);
}

/// A member has fewer neighbours inside the subset than the subset has
/// members; a vertex outside has at most as many.
pub proof fn lemma_conn_bound(g: Seq<Seq<bool>>, s: Seq<bool>, v: int)
    requires
        is_adjacency(g),
        s.len() == g.len(),
        0 <= v < s.len(),
    ensures
        conn(g, s, v) <= count_true(s, s.len() as int),
        s[v] ==> conn(g, s, v) + 1 <= count_true(s, s.len() as int),
        s[v] ==> conn(g, s, v) <= induced_edges(g, s),
{
    let n = s.len() as int;
    lemma_count_common_bound(g[v], s, n);
    if s[v] {
        let s0 = s.update(v, false);
        lemma_induced_remove(g, s, v);
        lemma_count_common_bound(g[v], s0, n);
    }
}

/// What the induced edges gain when the member `u` is exchanged for the
/// outside vertex `v`: the neighbours of `v` in the subset, less those of `u`,
/// less the edge between the two.
pub open spec fn swap_gain(g: Seq<Seq<bool>>, s: Seq<bool>, u: int, v: int) -> int {
    conn(g, s, v) - conn(g, s, u) - if g[u][v] { 1int } else { 0int }
}

/// Exchanging the member `u` for the outside vertex `v` keeps the size and
/// moves the induced edges by the gain of the swap.
pub proof fn lemma_induced_swap(g: Seq<Seq<bool>>, s: Seq<bool>, u: int, v: int)
    requires
        is_adjacency(g),
        s.len() == g.len(),
        0 <= u < s.len(),
        0 <= v < s.len(),
        s[u],
        !s[v],
    ensures
        induced_edges(g, s.update(u, false).update(v, true)) == induced_edges(g, s) + swap_gain(
            g,
            s,
            u,
            v,
        ),
        induced_edges(g, s) + swap_gain(g, s, u, v) >= 0,
        count_true(s.update(u, false).update(v, true), s.len() as int) == count_true(
            s,
            s.len() as int,
        ),
        conn(g, s.update(u, false), v) == conn(g, s, v) - if g[u][v] { 1int } else { 0int },
{
    let n = s.len() as int;
    let s1 = s.update(u, false);
    lemma_induced_remove(g, s, u);
    assert(g[v].len() == g.len());
    lemma_count_common_update(g[v], s, u, false, n);
    assert(g[v][u] == g[u][v]);
    lemma_induced_insert(g, s1, v);
}

/// For a member `w` at or beyond `k`, the members below `k` that are joined to
/// `w` are the neighbours of `w` below `k`: each member below `k` has one
/// neighbour more among the first `w + 1` vertices than among the first `w`.
proof fn lemma_column_sum(g: Seq<Seq<bool>>, s: Seq<bool>, w: int, k: int)
    requires
        is_adjacency(g),
        s.len() == g.len(),
        0 <= k <= w < s.len(),
    ensures
        upper_sum(g, s, k, w + 1) == upper_sum(g, s, k, w) + (if s[w] {
            count_common(g[w], s, k)
        } else {
            0nat
        }),
    decreases k,
{
    if k > 0 {
        lemma_column_sum(g, s, w, k - 1);
        let u = k - 1;
        assert(g[u][w] == g[w][u]);
    }
}

/// The sum over the members `u < k` of their neighbours among the first `top`
/// vertices.
spec fn upper_sum(g: Seq<Seq<bool>>, s: Seq<bool>, k: int, top: int) -> nat
    decreases k,
{
    if k <= 0 {
        0
    } else {
        upper_sum(g, s, k - 1, top) + if s[k - 1] {
            count_common(g[k - 1], s, top)
        } else {
            0nat
        }
    }
}

/// Counted over the first `k` vertices alone, every edge is seen from both of
/// its ends.
proof fn lemma_upper_sum_twice(g: Seq<Seq<bool>>, s: Seq<bool>, k: int)
    requires
        is_adjacency(g),
        s.len() == g.len(),
        0 <= k <= s.len(),
    ensures
        upper_sum(g, s, k, k) == 2 * edges_upto(g, s, k),
    decreases k,
{
    if k > 0 {
        let w = k - 1;
        lemma_upper_sum_twice(g, s, w);
        lemma_column_sum(g, s, w, w);
        assert(g[w].len() == g.len());
        assert(!g[w][w]);
    }
}

/// `upper_sum` with the whole vertex range as its top is `conn_sum`.
proof fn lemma_upper_sum_is_conn_sum(g: Seq<Seq<bool>>, s: Seq<bool>, k: int)
    requires
        0 <= k <= s.len(),
    ensures
        upper_sum(g, s, k, s.len() as int) == conn_sum(g, s, k),
    decreases k,
{
    if k > 0 {
        lemma_upper_sum_is_conn_sum(g, s, k - 1);
    }
}

/// Summing over the members of a subset the neighbours that each has inside
/// it counts every induced edge twice.
pub proof fn lemma_conn_sum_is_twice_edges(g: Seq<Seq<bool>>, s: Seq<bool>)
    requires
        is_adjacency(g),
        s.len() == g.len(),
    ensures
        conn_sum(g, s, s.len() as int) == 2 * induced_edges(g, s),
{
    lemma_upper_sum_twice(g, s, s.len() as int);
    lemma_upper_sum_is_conn_sum(g, s, s.len() as int);
}

/// A subset of `n` vertices has at most `n` members and induces at most
/// `n * n / 2` edges.
pub proof fn lemma_induced_bounds(g: Seq<Seq<bool>>, s: Seq<bool>)
    ensures
        count_true(s, s.len() as int) <= s.len(),
        2 * induced_edges(g, s) <= count_true(s, s.len() as int) * (count_true(s, s.len() as int)
            - 1),
        2 * induced_edges(g, s) <= s.len() * s.len(),
{
    let n = s.len() as int;
    lemma_count_true_bound(s, n);
    lemma_edges_upto_bound(g, s, n);
    let c = count_true(s, n) as int;
    assert(c * (c - 1) <= n * n) by (nonlinear_arith)
        requires
            0 <= c <= n,
    ;
}

} // verus!
