//! The search for the largest solution: the size grows from two upwards for
//! as long as the search at fixed size succeeds and the degrees of the graph
//! leave room for enough edges.

use crate::bits::count_true;
use crate::clock::now;
use crate::clock::out_of_time;
use crate::graph::Graph;
use crate::mcts::ChildStats;
use crate::order::is_ascending;
use crate::order::sort_ascending;
use crate::params::Params;
use crate::ratio::Ratio;
use crate::restart::solve_fixed_k;
use crate::restart::start_fails;
use crate::solution::reaches;
use crate::solution::Solution;
use crate::tabu::needed_edges;
use crate::tabu::pairs;
use rand::rngs::StdRng;
use vstd::prelude::*;

verus! {

/// The degrees of the vertices of `g`, in the order of the vertices.
pub open spec fn degree_seq(g: Seq<Seq<bool>>) -> Seq<usize> {
    Seq::new(g.len(), |v: int| count_true(g[v], g.len() as int) as usize)
}

/// The sum of the last `i` entries of `s`.
pub open spec fn tail_sum(s: Seq<usize>, i: int) -> int
    decreases i,
{
    if i <= 0 {
        0
    } else {
        tail_sum(s, i - 1) + s[s.len() - i]
    }
}

/// `prefix` holds, at each position `i` up to the number of vertices, the sum
/// of the `i` greatest degrees of `g`.
pub open spec fn is_degree_prefix(g: Seq<Seq<bool>>, prefix: Seq<usize>) -> bool {
    exists|sorted: Seq<usize>|
        is_ascending(sorted) && sorted.to_multiset() == degree_seq(g).to_multiset() && sorted.len()
            == g.len() && prefix.len() == g.len() + 1 && forall|i: int|
            0 <= i <= g.len() ==> #[trigger] prefix[i] == tail_sum(sorted, i)
}

/// The sum of the last `i` entries of a sequence whose entries are at most
/// `bound` is at most `i * bound`.
pub proof fn lemma_tail_sum_bound(s: Seq<usize>, i: int, bound: int)
    requires
        0 <= i <= s.len(),
        forall|j: int| 0 <= j < s.len() ==> s[j] <= bound,
    ensures
        0 <= tail_sum(s, i) <= i * bound,
    decreases i,
{
    if i > 0 {
        lemma_tail_sum_bound(s, i - 1, bound);
        assert(s[s.len() - i] <= bound);
        assert((i - 1) * bound + bound == i * bound) by (nonlinear_arith);
    } else {
        assert(i * bound == 0) by (nonlinear_arith)
            requires
                i == 0,
        ;
    }
}

/// For each `i`, the sum of the `i` greatest degrees of the graph.
pub fn compute_degree_prefix(graph: &Graph) -> (prefix: Vec<usize>)
    requires
        graph.wf(),
    ensures
        is_degree_prefix(graph@, prefix@),
{
    let n = graph.n();
    let mut degrees: Vec<usize> = Vec::new();
    let mut v: usize = 0;
    while v < n
        invariant
            v <= n,
            n == graph@.len(),
            graph.wf(),
            degrees@.len() == v,
            forall|u: int|
                0 <= u < v ==> #[trigger] degrees@[u] == count_true(graph@[u], n as int) as usize,
            forall|u: int| 0 <= u < v ==> #[trigger] degrees@[u] <= n,
        decreases n - v,
    {
        let d = graph.degree(v);
        degrees.push(d);
        v = v + 1;
    }
    let ghost unsorted = degrees@;
    assert(unsorted =~= degree_seq(graph@));
    sort_ascending(&mut degrees);
    let ghost sorted = degrees@;
    proof {
        sorted.to_multiset_ensures();
        unsorted.to_multiset_ensures();
        assert forall|j: int| 0 <= j < sorted.len() implies sorted[j] <= n by {
            assert(sorted.contains(sorted[j]));
            assert(sorted.to_multiset().count(sorted[j]) > 0);
            assert(unsorted.contains(sorted[j]));
            let u = choose|u: int| 0 <= u < unsorted.len() && unsorted[u] == sorted[j];
            assert(unsorted[u] <= n);
        }
    }
    let mut prefix: Vec<usize> = Vec::new();
    prefix.push(0);
    let mut i: usize = 0;
    while i < n
        invariant
            i <= n,
            n == graph@.len(),
            n * n <= usize::MAX,
            sorted == degrees@,
            sorted.len() == n,
            forall|j: int| 0 <= j < sorted.len() ==> sorted[j] <= n,
            prefix@.len() == i + 1,
            forall|t: int| 0 <= t <= i ==> #[trigger] prefix@[t] == tail_sum(sorted, t),
        decreases n - i,
    {
        proof {
            lemma_tail_sum_bound(sorted, i as int + 1, n as int);
            assert((i + 1) * n <= n * n) by (nonlinear_arith)
                requires
                    i + 1 <= n,
            ;
        }
        let next = prefix[i] + degrees[n - 1 - i];
        prefix.push(next);
        i = i + 1;
    }
    prefix
}

/// An upper bound on the edges among any `k` vertices: half the sum of the
/// `k` greatest degrees.
pub fn ub_edges(prefix: &[usize], k: usize) -> (ub: usize)
    requires
        k < prefix@.len(),
    ensures
        ub == prefix@[k as int] / 2,
{
    prefix[k] / 2
}

/// The least number of edges with which `k` vertices reach the density
/// `gamma`.
pub fn required_edges(gamma: &Ratio, k: usize) -> (r: u128)
    requires
        gamma.wf(),
        gamma.num <= u32::MAX,
        k * k <= usize::MAX,
    ensures
        r == needed_edges(*gamma, k as int),
{
    if k < 2 {
        assert(pairs(k as int) == 0) by {
            assert(k * (k - 1) == 0) by (nonlinear_arith)
                requires
                    0 <= k < 2,
            ;
        }
        assert(gamma.num * 0 == 0);
        assert((gamma.den - 1) / (gamma.den as int) == 0) by (nonlinear_arith)
            requires
                gamma.den > 0,
        ;
        return 0;
    }
    assert(k * (k - 1) <= k * k) by (nonlinear_arith)
        requires
            k >= 2,
    ;
    let max_edges: usize = k * (k - 1) / 2;
    assert(gamma.num * max_edges <= 0xFFFF_FFFF * 0xFFFF_FFFF_FFFF_FFFF) by (nonlinear_arith)
        requires
            0 <= gamma.num <= 0xFFFF_FFFF,
            0 <= max_edges <= 0xFFFF_FFFF_FFFF_FFFF,
    ;
    let product: u128 = (gamma.num as u128) * (max_edges as u128);
    (product + (gamma.den as u128 - 1)) / (gamma.den as u128)
}

/// Searches for the largest solution whose density reaches the threshold of
/// `p`.
///
/// The size starts at two and grows by one for as long as the search at
/// fixed size returns a solution that reaches the threshold. The scan also
/// ends at a size for which the degrees of the graph leave too few edges, and
/// at the time limit. Returns the last solution that reached the threshold,
/// the empty solution if there was none, and whether the time limit cut the
/// search short.
pub fn solve_maxk<'g, F: Fn(ChildStats, ChildStats) -> bool>(
    graph: &'g Graph,
    rng: &mut StdRng,
    p: &'g Params,
    better: &F,
) -> (r: (Solution<'g>, bool))
    requires
        graph.wf(),
        p.wf(),
        forall|a: ChildStats, b: ChildStats| call_requires(better, (a, b)),
    ensures
        is_max_k_outcome(graph, p, &r.0, r.1),
{
    let n = graph.n();
    let degree_prefix = compute_degree_prefix(graph);
    let start = now();
    let mut timed_out = false;
    if n < 2 {
        assert(caps_size(graph@, degree_prefix@, p.gamma_target, 0));
        return (Solution::new(graph), false);
    }
    let mut best_sol = Solution::new(graph);
    if out_of_time(&start, p.max_time_millis) {
        assert(caps_size(graph@, degree_prefix@, p.gamma_target, 0));
        return (best_sol, true);
    }
    let (sol, first_timed_out) = solve_fixed_k(graph, 2, rng, p, better);
    if first_timed_out {
        timed_out = true;
    }
    if !sol.is_gamma_feasible(&p.gamma_target) {
        proof {
            assert(caps_size(graph@, degree_prefix@, p.gamma_target, 0));
            if !timed_out && p.max_iter > 0 {
                let order = choose|order: Seq<usize>| #[trigger]
                    start_fails(graph@, 2, p.gamma_target, order);
                assert(start_fails(graph@, 2, p.gamma_target, order));
                assert(next_size(best_sol.spec_size() as int) == 2);
                assert(scan_ended(
                    graph@,
                    degree_prefix@,
                    p.gamma_target,
                    next_size(best_sol.spec_size() as int),
                    order,
                ));
            }
        }
        return (best_sol, timed_out);
    }
    best_sol = sol;
    proof {
        crate::graph::lemma_square_bounds_row(n);
    }
    let mut k: usize = 2;
    let mut going = true;
    let ghost mut why: Seq<usize> = Seq::empty();
    while going && k < n
        invariant
            2 <= k <= n,
            n == graph@.len(),
            n <= 0xFFFF_FFFF,
            n * n <= usize::MAX,
            graph.wf(),
            p.wf(),
            forall|a: ChildStats, b: ChildStats| call_requires(better, (a, b)),
            is_degree_prefix(graph@, degree_prefix@),
            best_sol.wf(),
            best_sol.spec_graph() == graph,
            best_sol.spec_size() == 0 || 2 <= best_sol.spec_size() <= k,
            best_sol.spec_size() == 0 || reaches(best_sol.spec_density(), p.gamma_target),
            timed_out ==> p.max_time_millis > 0,
            going ==> forall|k0: int|
                3 <= k0 <= k ==> !(#[trigger] is_pruned(degree_prefix@, p.gamma_target, k0)),
            !going ==> forall|k0: int|
                3 <= k0 <= k && #[trigger] is_pruned(degree_prefix@, p.gamma_target, k0)
                    ==> best_sol.spec_size() < k0,
            going && !timed_out && p.max_iter > 0 ==> best_sol.spec_size() == k,
            !going && !timed_out && p.max_iter > 0 && best_sol.spec_size() < n ==> scan_ended(
                graph@,
                degree_prefix@,
                p.gamma_target,
                next_size(best_sol.spec_size() as int),
                why,
            ),
        decreases n - k + if going { 1int } else { 0int },
    {
        if out_of_time(&start, p.max_time_millis) {
            timed_out = true;
            going = false;
        } else {
            k = k + 1;
            assert(k * k <= n * n) by (nonlinear_arith)
                requires
                    0 <= k <= n,
            ;
            let ub = ub_edges(degree_prefix.as_slice(), k);
            let required = required_edges(&p.gamma_target, k);
            if (ub as u128) < required {
                going = false;
                assert(is_pruned(degree_prefix@, p.gamma_target, k as int));
            } else {
                assert(!is_pruned(degree_prefix@, p.gamma_target, k as int));
                let (sol_k, timed_out_k) = solve_fixed_k(graph, k, rng, p, better);
                if timed_out_k {
                    timed_out = true;
                }
                if sol_k.is_gamma_feasible(&p.gamma_target) {
                    proof {
                        sol_k.lemma_bounds();
                    }
                    if sol_k.size() > best_sol.size() || (sol_k.size() == best_sol.size()
                        && sol_k.density().greater_than(&best_sol.density())) {
                        best_sol = sol_k;
                    }
                } else {
                    going = false;
                    proof {
                        if !timed_out && p.max_iter > 0 {
                            why = choose|order: Seq<usize>| #[trigger]
                                start_fails(graph@, k as int, p.gamma_target, order);
                        }
                    }
                }
            }
        }
    }
    proof {
        assert forall|k0: int|
            3 <= k0 <= n && #[trigger] is_pruned(
                degree_prefix@,
                p.gamma_target,
                k0,
            ) implies best_sol.spec_size() < k0 by {}
        assert(caps_size(graph@, degree_prefix@, p.gamma_target, best_sol.spec_size() as int));
    }
    (best_sol, timed_out)
}

/// `sol` and `timed_out` are what a search for the largest solution may
/// return.
///
/// The solution is empty, or it has from two vertices up to all and reaches
/// the threshold. It is smaller than every size from three on that the
/// degrees of the graph prune. The flag is set only under a time limit.
/// Where the search ran to its end with moves allowed and the solution is
/// not the whole graph, the next size was pruned, or some greedy start of
/// that size did not reach the threshold.
pub open spec fn is_max_k_outcome<'g>(
    graph: &Graph,
    p: &Params,
    sol: &Solution<'g>,
    timed_out: bool,
) -> bool {
    &&& sol.wf()
    &&& sol.spec_graph() == graph
    &&& sol.spec_size() == 0 || 2 <= sol.spec_size() <= graph@.len()
    &&& sol.spec_size() == 0 || reaches(sol.spec_density(), p.gamma_target)
    &&& graph@.len() < 2 ==> sol.spec_size() == 0 && !timed_out
    &&& p.max_time_millis == 0 ==> !timed_out
    &&& exists|prefix: Seq<usize>| #[trigger]
        caps_size(graph@, prefix, p.gamma_target, sol.spec_size() as int)
    &&& !timed_out && p.max_iter > 0 && graph@.len() >= 2 && sol.spec_size() < graph@.len()
        ==> exists|prefix: Seq<usize>, order: Seq<usize>| #[trigger]
        scan_ended(graph@, prefix, p.gamma_target, next_size(sol.spec_size() as int), order)
}

/// The degrees of the graph leave too few edges for `k` vertices to reach
/// `gamma`: half the sum of the `k` greatest degrees is less than the edges
/// needed.
pub open spec fn is_pruned(prefix: Seq<usize>, gamma: Ratio, k: int) -> bool {
    prefix[k] / 2 < needed_edges(gamma, k)
}

/// `prefix` holds the sums of the greatest degrees of `g`, and `size` is less
/// than every size from three on that the degrees prune.
pub open spec fn caps_size(g: Seq<Seq<bool>>, prefix: Seq<usize>, gamma: Ratio, size: int) -> bool {
    &&& is_degree_prefix(g, prefix)
    &&& forall|k0: int| 3 <= k0 <= g.len() && #[trigger] is_pruned(prefix, gamma, k0) ==> size < k0
}

/// The size that the scan tries after a result of `size` vertices.
pub open spec fn next_size(size: int) -> int {
    if size == 0 {
        2
    } else {
        size + 1
    }
}

/// The scan ended at the size `k` for a reason that no draw decides:
/// `prefix` holds the sums of the greatest degrees of `g` and prunes `k`, or
/// `order` is a greedy start of `k` vertices that does not reach `gamma`.
pub open spec fn scan_ended(
    g: Seq<Seq<bool>>,
    prefix: Seq<usize>,
    gamma: Ratio,
    k: int,
    order: Seq<usize>,
) -> bool {
    &&& is_degree_prefix(g, prefix)
    &&& (k >= 3 && is_pruned(prefix, gamma, k)) || start_fails(g, k, gamma, order)
}

} // verus!
