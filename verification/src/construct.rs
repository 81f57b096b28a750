//! The greedy random construction of a first solution of a given size.

use crate::bits::lemma_count_true_all;
use crate::graph::Graph;
use crate::induced::conn;
use crate::neighbour::inner;
use crate::rng::pick_one;
use crate::rng::uniform_inclusive;
use crate::select::is_outside;
use crate::select::outside_between;
use crate::select::outside_extremes;
use crate::solution::Solution;
use rand::rngs::StdRng;
use vstd::prelude::*;

verus! {

/// The membership row over `n` vertices after the first `i` vertices of
/// `order` have entered the empty subset.
pub open spec fn members_after(n: nat, order: Seq<usize>, i: int) -> Seq<bool>
    decreases i,
{
    if i <= 0 {
        Seq::new(n, |v: int| false)
    } else {
        members_after(n, order, i - 1).update(order[i - 1] as int, true)
    }
}

/// `order` is an order in which a greedy construction may take its
/// vertices: the first is any vertex, and each later one is a vertex outside
/// the subset built so far with the most neighbours inside it.
pub open spec fn is_greedy_order(g: Seq<Seq<bool>>, order: Seq<usize>) -> bool {
    &&& forall|i: int| 0 <= i < order.len() ==> (#[trigger] order[i]) < g.len()
    &&& forall|i: int|
        0 <= i < order.len() ==> !(#[trigger] members_after(g.len(), order, i))[order[i] as int]
    &&& forall|i: int, w: int|
        1 <= i < order.len() && 0 <= w < g.len() && !(#[trigger] members_after(
            g.len(),
            order,
            i,
        ))[w] ==> #[trigger] conn(g, members_after(g.len(), order, i), w) <= conn(
            g,
            members_after(g.len(), order, i),
            order[i] as int,
        )
}

/// The row after `i` entries depends on the first `i` vertices alone.
pub proof fn lemma_members_after_prefix(n: nat, order: Seq<usize>, longer: Seq<usize>, i: int)
    requires
        0 <= i <= order.len() <= longer.len(),
        forall|j: int| 0 <= j < order.len() ==> order[j] == longer[j],
    ensures
        members_after(n, order, i) == members_after(n, longer, i),
    decreases i,
{
    if i > 0 {
        lemma_members_after_prefix(n, order, longer, i - 1);
    }
}

/// A greedy order stays one when a vertex with the most inner neighbours
/// among the outside vertices is appended.
pub proof fn lemma_greedy_extend(g: Seq<Seq<bool>>, order: Seq<usize>, chosen: usize)
    requires
        is_greedy_order(g, order),
        chosen < g.len(),
        !members_after(g.len(), order, order.len() as int)[chosen as int],
        order.len() >= 1 ==> forall|w: int|
            0 <= w < g.len() && !members_after(g.len(), order, order.len() as int)[w] ==> conn(
                g,
                members_after(g.len(), order, order.len() as int),
                w,
            ) <= conn(g, members_after(g.len(), order, order.len() as int), chosen as int),
    ensures
        is_greedy_order(g, order.push(chosen)),
        members_after(g.len(), order.push(chosen), order.len() as int + 1) == members_after(
            g.len(),
            order,
            order.len() as int,
        ).update(chosen as int, true),
{
    let n = g.len();
    let longer = order.push(chosen);
    let i = order.len() as int;
    lemma_members_after_prefix(n, order, longer, i);
    assert forall|t: int| 0 <= t < longer.len() implies !(#[trigger] members_after(n, longer, t))[longer[t] as int] by {
        if t < i {
            lemma_members_after_prefix(n, order, longer, t);
            assert(longer[t] == order[t]);
            assert(!members_after(n, order, t)[order[t] as int]);
        }
    }
    assert forall|t: int, w: int|
        1 <= t < longer.len() && 0 <= w < n && !(#[trigger] members_after(n, longer, t))[w] implies #[trigger] conn(
        g,
        members_after(n, longer, t),
        w,
    ) <= conn(g, members_after(n, longer, t), longer[t] as int) by {
        if t < i {
            lemma_members_after_prefix(n, order, longer, t);
            assert(longer[t] == order[t]);
            assert(!members_after(n, order, t)[w]);
            assert(conn(g, members_after(n, order, t), w) <= conn(
                g,
                members_after(n, order, t),
                order[t] as int,
            ));
        }
    }
}

/// A solution of `k` vertices built greedily: a first vertex drawn at random,
/// then again and again a vertex with the most neighbours inside the subset,
/// drawn at random among those that tie.
pub fn greedy_random_k<'g>(graph: &'g Graph, k: usize, rng: &mut StdRng) -> (sol: Solution<'g>)
    requires
        graph.wf(),
        0 < k <= graph@.len(),
    ensures
        sol.wf(),
        sol.spec_graph() == graph,
        sol.spec_size() == k,
        exists|order: Seq<usize>|
            order.len() == k && is_greedy_order(graph@, order) && sol@ == members_after(
                graph@.len(),
                order,
                k as int,
            ),
{
    let n = graph.n();
    let mut sol = Solution::new(graph);
    let ghost empty = sol@;
    let first = uniform_inclusive(rng, 0, n - 1);
    let ghost mut order: Seq<usize> = Seq::empty();
    proof {
        assert(members_after(n as nat, order, 0) =~= empty);
        lemma_greedy_extend(graph@, order, first);
        order = order.push(first);
    }
    sol.add(first);
    while sol.size() < k
        invariant
            n == graph@.len(),
            k <= n,
            sol.wf(),
            sol.spec_graph() == graph,
            1 <= order.len() <= k,
            sol.spec_size() == order.len(),
            is_greedy_order(graph@, order),
            sol@ == members_after(n as nat, order, order.len() as int),
        decreases k - sol.spec_size(),
    {
        let extremes = outside_extremes(&sol);
        proof {
            if extremes is None {
                assert forall|v: int| 0 <= v < n implies sol@[v] by {
                    assert(!is_outside(&sol, v));
                }
                lemma_count_true_all(sol@, n as int);
            }
        }
        let best = match extremes {
            Some((_, hi)) => hi,
            None => 0,
        };
        let candidates = outside_between(&sol, best, best);
        proof {
            let w = choose|w: int| is_outside(&sol, w) && inner(&sol, w) == best;
            sol.lemma_bounds();
            assert(candidates@.contains(w as usize));
        }
        let chosen = match pick_one(rng, &candidates) {
            Some(v) => v,
            None => 0,
        };
        assert(candidates@.contains(chosen));
        proof {
            let built = members_after(n as nat, order, order.len() as int);
            assert forall|w: int| 0 <= w < n && !built[w] implies conn(graph@, built, w) <= conn(
                graph@,
                built,
                chosen as int,
            ) by {
                assert(is_outside(&sol, w));
                assert(inner(&sol, w) <= best);
                assert(inner(&sol, chosen as int) == best);
            }
            lemma_greedy_extend(graph@, order, chosen);
            order = order.push(chosen);
        }
        sol.add(chosen);
    }
    sol
}

} // verus!
