//! The two entry points of the solver: independent runs with consecutive
//! seeds, of which the best result is kept.

use crate::graph::Graph;
use crate::maxk::is_max_k_outcome;
use crate::maxk::solve_maxk;
use crate::mcts::ChildStats;
use crate::params::Params;
use crate::ratio::lemma_below_chain;
use crate::ratio::lemma_greater_is_positive;
use crate::restart::is_fixed_k_outcome;
use crate::restart::solve_fixed_k;
use crate::rng::seeded;
use crate::solution::Solution;
use vstd::prelude::*;

verus! {

/// The seed of run `i`: the seed of the first run plus `i`, wrapping round at
/// the end of the 64-bit range.
pub open spec fn seed_of(first: u64, i: int) -> int {
    (first + i) % 0x1_0000_0000_0000_0000
}

/// The seed of run `i`.
pub fn run_seed(first: u64, i: u64) -> (s: u64)
    ensures
        s == seed_of(first, i as int),
{
    let room: u64 = u64::MAX - first;
    if i <= room {
        first + i
    } else {
        i - room - 1
    }
}

/// The solution `a` comes behind the solution `b` in the search for the
/// largest solution: it is smaller, or as large and less dense.
pub open spec fn ranks_below<'g>(a: &Solution<'g>, b: &Solution<'g>) -> bool {
    a.spec_size() < b.spec_size() || (a.spec_size() == b.spec_size() && a.spec_density().lt(
        &b.spec_density(),
    ))
}

/// `best` and `timed_out` are what is kept of the runs with the results
/// `outcomes`, by density.
///
/// The flag is set where some run set it. No result is denser than `best`,
/// and `best` is one of the results, or empty where no result has an edge.
pub open spec fn keeps_densest<'g>(
    outcomes: Seq<(Solution<'g>, bool)>,
    best: &Solution<'g>,
    timed_out: bool,
) -> bool {
    &&& timed_out <==> exists|i: int| 0 <= i < outcomes.len() && (#[trigger] outcomes[i]).1
    &&& forall|i: int|
        0 <= i < outcomes.len() ==> !best.spec_density().lt(
            &(#[trigger] outcomes[i]).0.spec_density(),
        )
    &&& best.spec_size() == 0 || exists|i: int|
        0 <= i < outcomes.len() && *best == (#[trigger] outcomes[i]).0
}

/// `best` and `timed_out` are what is kept of the runs with the results
/// `outcomes`, by size and then by density.
///
/// The flag is set where some run set it. No result is larger than `best`,
/// or as large and denser, and `best` is one of the results or empty.
pub open spec fn keeps_largest<'g>(
    outcomes: Seq<(Solution<'g>, bool)>,
    best: &Solution<'g>,
    timed_out: bool,
) -> bool {
    &&& timed_out <==> exists|i: int| 0 <= i < outcomes.len() && (#[trigger] outcomes[i]).1
    &&& forall|i: int| 0 <= i < outcomes.len() ==> !ranks_below(best, &(#[trigger] outcomes[i]).0)
    &&& best.spec_size() == 0 || exists|i: int|
        0 <= i < outcomes.len() && *best == (#[trigger] outcomes[i]).0
}

/// `outcomes` are the results of `runs` searches at the size `k`, and `best`
/// and `timed_out` what is kept of them.
pub open spec fn are_fixed_k_runs<'g>(
    graph: &Graph,
    k: usize,
    p: &Params,
    runs: int,
    outcomes: Seq<(Solution<'g>, bool)>,
    best: &Solution<'g>,
    timed_out: bool,
) -> bool {
    &&& outcomes.len() == runs
    &&& forall|i: int|
        0 <= i < outcomes.len() ==> is_fixed_k_outcome(
            graph,
            k,
            p,
            &(#[trigger] outcomes[i]).0,
            outcomes[i].1,
        )
    &&& keeps_densest(outcomes, best, timed_out)
}

/// `outcomes` are the results of `runs` searches for the largest solution,
/// and `best` and `timed_out` what is kept of them.
pub open spec fn are_max_k_runs<'g>(
    graph: &Graph,
    p: &Params,
    runs: int,
    outcomes: Seq<(Solution<'g>, bool)>,
    best: &Solution<'g>,
    timed_out: bool,
) -> bool {
    &&& outcomes.len() == runs
    &&& forall|i: int|
        0 <= i < outcomes.len() ==> is_max_k_outcome(
            graph,
            p,
            &(#[trigger] outcomes[i]).0,
            outcomes[i].1,
        )
    &&& keeps_largest(outcomes, best, timed_out)
}

/// The search at the fixed size `k`, over all runs: the densest of the
/// results of the runs, and whether any run met the time limit.
pub fn run_fixed_k<'g, F: Fn(ChildStats, ChildStats) -> bool>(
    graph: &'g Graph,
    k: usize,
    p: &'g Params,
    better: &F,
) -> (r: (Solution<'g>, bool))
    requires
        graph.wf(),
        p.wf(),
        forall|a: ChildStats, b: ChildStats| call_requires(better, (a, b)),
    ensures
        r.0.wf(),
        r.0.spec_graph() == graph,
        r.0.spec_size() == 0 || r.0.spec_size() == k,
        r.0.spec_size() == 0 || r.0.spec_edges() > 0,
        p.runs == 0 ==> r.0.spec_size() == 0 && !r.1,
        p.max_time_millis == 0 ==> !r.1,
        exists|outcomes: Seq<(Solution<'g>, bool)>| #[trigger]
            are_fixed_k_runs(graph, k, p, p.runs as int, outcomes, &r.0, r.1),
{
    let mut best = Solution::new(graph);
    let mut timed_out = false;
    let mut i: usize = 0;
    let ghost mut outcomes: Seq<(Solution<'g>, bool)> = Seq::empty();
    while i < p.runs
        invariant
            i <= p.runs,
            graph.wf(),
            p.wf(),
            forall|a: ChildStats, b: ChildStats| call_requires(better, (a, b)),
            best.wf(),
            best.spec_graph() == graph,
            best.spec_size() == 0 || best.spec_size() == k,
            best.spec_size() == 0 || best.spec_edges() > 0,
            p.runs == 0 ==> best.spec_size() == 0 && !timed_out,
            timed_out ==> p.max_time_millis > 0,
            are_fixed_k_runs(graph, k, p, i as int, outcomes, &best, timed_out),
        decreases p.runs - i,
    {
        let mut rng = seeded(run_seed(p.seed, i as u64));
        let (sol, run_timed_out) = solve_fixed_k(graph, k, &mut rng, p, better);
        let ghost before = outcomes;
        let ghost held = best;
        proof {
            outcomes = before.push((sol, run_timed_out));
            sol.lemma_bounds();
            held.lemma_bounds();
        }
        if sol.density().greater_than(&best.density()) {
            proof {
                lemma_greater_is_positive(sol.spec_density(), best.spec_density());
                assert forall|j: int| 0 <= j < outcomes.len() implies !sol.spec_density().lt(
                    &(#[trigger] outcomes[j]).0.spec_density(),
                ) by {
                    if j < before.len() {
                        assert(outcomes[j] == before[j]);
                        before[j].0.lemma_bounds();
                        lemma_below_chain(
                            before[j].0.spec_density(),
                            held.spec_density(),
                            sol.spec_density(),
                        );
                    }
                }
            }
            best = sol;
            assert(best == outcomes[i as int].0);
        } else {
            proof {
                assert forall|j: int| 0 <= j < outcomes.len() implies !best.spec_density().lt(
                    &(#[trigger] outcomes[j]).0.spec_density(),
                ) by {
                    if j < before.len() {
                        assert(outcomes[j] == before[j]);
                    }
                }
                if best.spec_size() != 0 {
                    let at = choose|at: int| 0 <= at < before.len() && best == (#[trigger] before[at]).0;
                    assert(best == outcomes[at].0);
                }
            }
        }
        if run_timed_out {
            timed_out = true;
        }
        proof {
            assert forall|j: int| 0 <= j < outcomes.len() implies is_fixed_k_outcome(
                graph,
                k,
                p,
                &(#[trigger] outcomes[j]).0,
                outcomes[j].1,
            ) by {
                if j < before.len() {
                    assert(outcomes[j] == before[j]);
                }
            }
            if timed_out {
                if run_timed_out {
                    assert(outcomes[i as int].1);
                } else {
                    let at = choose|at: int| 0 <= at < before.len() && (#[trigger] before[at]).1;
                    assert(outcomes[at].1);
                }
            } else {
                assert forall|j: int| 0 <= j < outcomes.len() implies !(#[trigger] outcomes[j]).1 by {
                    if j < before.len() {
                        assert(outcomes[j] == before[j]);
                    }
                }
            }
            assert(keeps_densest(outcomes, &best, timed_out));
        }
        i = i + 1;
    }
    assert(are_fixed_k_runs(graph, k, p, p.runs as int, outcomes, &best, timed_out));
    (best, timed_out)
}

/// The search for the largest solution, over all runs: the largest of the
/// results of the runs, the densest among those of one size, and whether any
/// run met the time limit.
pub fn run_max_k<'g, F: Fn(ChildStats, ChildStats) -> bool>(
    graph: &'g Graph,
    p: &'g Params,
    better: &F,
) -> (r: (Solution<'g>, bool))
    requires
        graph.wf(),
        p.wf(),
        forall|a: ChildStats, b: ChildStats| call_requires(better, (a, b)),
    ensures
        r.0.wf(),
        r.0.spec_graph() == graph,
        r.0.spec_size() == 0 || 2 <= r.0.spec_size() <= graph@.len(),
        r.0.spec_size() == 0 || crate::solution::reaches(r.0.spec_density(), p.gamma_target),
        p.runs == 0 ==> r.0.spec_size() == 0 && !r.1,
        p.max_time_millis == 0 ==> !r.1,
        exists|outcomes: Seq<(Solution<'g>, bool)>| #[trigger]
            are_max_k_runs(graph, p, p.runs as int, outcomes, &r.0, r.1),
{
    let mut best = Solution::new(graph);
    let mut timed_out = false;
    let mut i: usize = 0;
    let ghost mut outcomes: Seq<(Solution<'g>, bool)> = Seq::empty();
    while i < p.runs
        invariant
            i <= p.runs,
            graph.wf(),
            p.wf(),
            forall|a: ChildStats, b: ChildStats| call_requires(better, (a, b)),
            best.wf(),
            best.spec_graph() == graph,
            best.spec_size() == 0 || 2 <= best.spec_size() <= graph@.len(),
            best.spec_size() == 0 || crate::solution::reaches(
                best.spec_density(),
                p.gamma_target,
            ),
            p.runs == 0 ==> best.spec_size() == 0 && !timed_out,
            timed_out ==> p.max_time_millis > 0,
            are_max_k_runs(graph, p, i as int, outcomes, &best, timed_out),
        decreases p.runs - i,
    {
        let mut rng = seeded(run_seed(p.seed, i as u64));
        let (sol, run_timed_out) = solve_maxk(graph, &mut rng, p, better);
        let ghost before = outcomes;
        let ghost held = best;
        proof {
            outcomes = before.push((sol, run_timed_out));
            sol.lemma_bounds();
            held.lemma_bounds();
        }
        if sol.size() > best.size() || (sol.size() == best.size() && sol.density().greater_than(
            &best.density(),
        )) {
            proof {
                assert forall|j: int| 0 <= j < outcomes.len() implies !ranks_below(
                    &sol,
                    &(#[trigger] outcomes[j]).0,
                ) by {
                    if j < before.len() {
                        assert(outcomes[j] == before[j]);
                        assert(!ranks_below(&held, &before[j].0));
                        if before[j].0.spec_size() == sol.spec_size() {
                            before[j].0.lemma_bounds();
                            lemma_below_chain(
                                before[j].0.spec_density(),
                                held.spec_density(),
                                sol.spec_density(),
                            );
                        }
                    }
                }
            }
            best = sol;
            assert(best == outcomes[i as int].0);
        } else {
            proof {
                assert forall|j: int| 0 <= j < outcomes.len() implies !ranks_below(
                    &best,
                    &(#[trigger] outcomes[j]).0,
                ) by {
                    if j < before.len() {
                        assert(outcomes[j] == before[j]);
                    }
                }
                if best.spec_size() != 0 {
                    let at = choose|at: int| 0 <= at < before.len() && best == (#[trigger] before[at]).0;
                    assert(best == outcomes[at].0);
                }
            }
        }
        if run_timed_out {
            timed_out = true;
        }
        proof {
            assert forall|j: int| 0 <= j < outcomes.len() implies is_max_k_outcome(
                graph,
                p,
                &(#[trigger] outcomes[j]).0,
                outcomes[j].1,
            ) by {
                if j < before.len() {
                    assert(outcomes[j] == before[j]);
                }
            }
            if timed_out {
                if run_timed_out {
                    assert(outcomes[i as int].1);
                } else {
                    let at = choose|at: int| 0 <= at < before.len() && (#[trigger] before[at]).1;
                    assert(outcomes[at].1);
                }
            } else {
                assert forall|j: int| 0 <= j < outcomes.len() implies !(#[trigger] outcomes[j]).1 by {
                    if j < before.len() {
                        assert(outcomes[j] == before[j]);
                    }
                }
            }
            assert(keeps_largest(outcomes, &best, timed_out));
        }
        i = i + 1;
    }
    assert(are_max_k_runs(graph, p, p.runs as int, outcomes, &best, timed_out));
    (best, timed_out)
}

} // verus!
