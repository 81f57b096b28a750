//! Large neighbourhood repair: a given sequence of members is taken out of a
//! solution, the solution is completed again by a randomized greedy rule,
//! and a short run of improving swaps follows.

use crate::bits::lemma_count_true_all;
use crate::induced::conn;
use crate::neighbour::covers;
use crate::neighbour::improve_once;
use crate::neighbour::inner;
use crate::params::Params;
use crate::ratio::lemma_floor_monotone;
use crate::ratio::Ratio;
use crate::rng::pick_one;
use crate::select::is_outside;
use crate::select::outside_between;
use crate::select::outside_extremes;
use crate::solution::Solution;
use crate::tabu::DualTabu;
use rand::rngs::StdRng;
use vstd::prelude::*;

verus! {

/// The row `s` after the first `i` vertices of `removals` have left.
pub open spec fn without(s: Seq<bool>, removals: Seq<usize>, i: int) -> Seq<bool>
    decreases i,
{
    if i <= 0 {
        s
    } else {
        without(s, removals, i - 1).update(removals[i - 1] as int, false)
    }
}

/// The row `base` after the first `i` vertices of `order` have entered.
pub open spec fn extended(base: Seq<bool>, order: Seq<usize>, i: int) -> Seq<bool>
    decreases i,
{
    if i <= 0 {
        base
    } else {
        extended(base, order, i - 1).update(order[i - 1] as int, true)
    }
}

/// `v` is on the restricted candidate list of the subset `s`: it lies outside
/// and its inner neighbours number at least `floor(alpha * best)`, where
/// `best` is the greatest number of inner neighbours of an outside vertex.
pub open spec fn is_rcl_candidate(g: Seq<Seq<bool>>, s: Seq<bool>, alpha: Ratio, v: int) -> bool {
    &&& 0 <= v < s.len()
    &&& !s[v]
    &&& forall|w: int|
        0 <= w < s.len() && !s[w] ==> alpha.floor_of(#[trigger] conn(g, s, w) as int) <= conn(g, s, v)
}

/// Each vertex of `order` was on the restricted candidate list when it
/// entered.
pub open spec fn is_rcl_order(
    g: Seq<Seq<bool>>,
    base: Seq<bool>,
    alpha: Ratio,
    order: Seq<usize>,
) -> bool {
    forall|i: int|
        0 <= i < order.len() ==> is_rcl_candidate(
            g,
            #[trigger] extended(base, order, i),
            alpha,
            order[i] as int,
        )
}

/// The row after `i` entries depends on the first `i` vertices alone.
pub proof fn lemma_extended_prefix(base: Seq<bool>, order: Seq<usize>, longer: Seq<usize>, i: int)
    requires
        0 <= i <= order.len() <= longer.len(),
        forall|j: int| 0 <= j < order.len() ==> order[j] == longer[j],
    ensures
        extended(base, order, i) == extended(base, longer, i),
    decreases i,
{
    if i > 0 {
        lemma_extended_prefix(base, order, longer, i - 1);
    }
}

/// Takes the vertices of `removals` out of the solution, one after another.
pub fn remove_all<'g>(sol: &mut Solution<'g>, removals: &[usize])
    requires
        old(sol).wf(),
        forall|i: int| 0 <= i < removals@.len() ==> (#[trigger] removals@[i]) < old(sol)@.len(),
    ensures
        final(sol).wf(),
        final(sol).spec_graph() == old(sol).spec_graph(),
        final(sol)@ == without(old(sol)@, removals@, removals@.len() as int),
        final(sol).spec_size() <= old(sol).spec_size(),
{
    let mut i: usize = 0;
    while i < removals.len()
        invariant
            i <= removals@.len(),
            sol.wf(),
            sol.spec_graph() == old(sol).spec_graph(),
            sol@.len() == old(sol)@.len(),
            forall|j: int| 0 <= j < removals@.len() ==> (#[trigger] removals@[j]) < sol@.len(),
            sol@ == without(old(sol)@, removals@, i as int),
            sol.spec_size() <= old(sol).spec_size(),
        decreases removals@.len() - i,
    {
        sol.remove(removals[i]);
        i = i + 1;
    }
}

/// The restricted candidate list of the solution: the outside vertices whose
/// inner neighbours number at least `floor(alpha * best)`, where `best` is
/// the greatest such number. It is empty only where every vertex is a
/// member.
pub fn restricted_candidates<'g>(sol: &Solution<'g>, alpha: &Ratio) -> (r: Vec<usize>)
    requires
        sol.wf(),
        alpha.is_fraction(),
        alpha.den <= u32::MAX,
    ensures
        forall|v: usize| #[trigger]
            r@.contains(v) <==> is_rcl_candidate(sol.spec_graph()@, sol@, *alpha, v as int),
        r@.len() == 0 ==> forall|v: int| !is_outside(sol, v),
        crate::select::is_increasing(r@),
{
    let n = sol.graph().n();
    proof {
        sol.lemma_bounds();
        crate::graph::lemma_square_bounds_row(n);
    }
    match outside_extremes(sol) {
        None => {
            let none: Vec<usize> = Vec::new();
            proof {
                assert forall|v: usize| #[trigger]
                    none@.contains(v) <==> is_rcl_candidate(
                        sol.spec_graph()@,
                        sol@,
                        *alpha,
                        v as int,
                    ) by {
                    assert(!is_outside(sol, v as int));
                }
            }
            none
        },
        Some((_, hi)) => {
            let threshold = alpha.floor_times(hi as u64) as usize;
            proof {
                lemma_floor_monotone(*alpha, hi as int, hi as int);
            }
            let list = outside_between(sol, threshold, hi);
            proof {
                let top = choose|w: int| is_outside(sol, w) && inner(sol, w) == hi;
                assert(list@.contains(top as usize));
                assert forall|v: usize| #[trigger]
                    list@.contains(v) <==> is_rcl_candidate(
                        sol.spec_graph()@,
                        sol@,
                        *alpha,
                        v as int,
                    ) by {
                    assert(inner(sol, v as int) == conn(sol.spec_graph()@, sol@, v as int));
                    if list@.contains(v) {
                        assert forall|w: int| 0 <= w < sol@.len() && !sol@[w] implies alpha.floor_of(
                            #[trigger] conn(sol.spec_graph()@, sol@, w) as int,
                        ) <= conn(sol.spec_graph()@, sol@, v as int) by {
                            assert(is_outside(sol, w));
                            assert(inner(sol, w) <= hi);
                            lemma_floor_monotone(*alpha, inner(sol, w) as int, hi as int);
                        }
                    }
                    if is_rcl_candidate(sol.spec_graph()@, sol@, *alpha, v as int) {
                        assert(is_outside(sol, v as int));
                        assert(inner(sol, top) == conn(sol.spec_graph()@, sol@, top));
                        assert(alpha.floor_of(conn(sol.spec_graph()@, sol@, top) as int) <= conn(
                            sol.spec_graph()@,
                            sol@,
                            v as int,
                        ));
                    }
                }
            }
            list
        },
    }
}

/// Completes the solution to `target` vertices: again and again a vertex
/// drawn at random from the restricted candidate list enters. A solution
/// that has `target` vertices or more is left alone.
pub fn complete_greedy<'g>(
    sol: &mut Solution<'g>,
    target: usize,
    alpha: &Ratio,
    rng: &mut StdRng,
)
    requires
        old(sol).wf(),
        target <= old(sol)@.len(),
        alpha.is_fraction(),
        alpha.den <= u32::MAX,
    ensures
        final(sol).wf(),
        final(sol).spec_graph() == old(sol).spec_graph(),
        old(sol).spec_size() >= target ==> final(sol)@ == old(sol)@,
        old(sol).spec_size() <= target ==> final(sol).spec_size() == target,
        exists|order: Seq<usize>|
            is_rcl_order(old(sol).spec_graph()@, old(sol)@, *alpha, order) && final(sol)@
                == extended(old(sol)@, order, order.len() as int) && (old(sol).spec_size() <= target
                ==> order.len() == target - old(sol).spec_size()),
{
    let ghost mut order: Seq<usize> = Seq::empty();
    let ghost base = sol@;
    let ghost graph = sol.spec_graph();
    while sol.size() < target
        invariant
            sol.wf(),
            sol.spec_graph() == graph,
            graph == old(sol).spec_graph(),
            base == old(sol)@,
            sol@.len() == base.len(),
            target <= sol@.len(),
            alpha.is_fraction(),
            alpha.den <= u32::MAX,
            is_rcl_order(graph@, base, *alpha, order),
            sol@ == extended(base, order, order.len() as int),
            sol.spec_size() == old(sol).spec_size() + order.len(),
            old(sol).spec_size() >= target ==> order.len() == 0,
            old(sol).spec_size() <= target ==> sol.spec_size() <= target,
        decreases target - sol.spec_size(),
    {
        let list = restricted_candidates(sol, alpha);
        proof {
            if list@.len() == 0 {
                assert forall|v: int| 0 <= v < sol@.len() implies sol@[v] by {
                    assert(!is_outside(sol, v));
                }
                lemma_count_true_all(sol@, sol@.len() as int);
            }
        }
        let chosen = match pick_one(rng, &list) {
            Some(v) => v,
            None => 0,
        };
        assert(list@.contains(chosen));
        let ghost before = order;
        let ghost row = sol@;
        sol.add(chosen);
        proof {
            order = before.push(chosen);
            let i = before.len() as int;
            lemma_extended_prefix(base, before, order, i);
            assert forall|t: int| 0 <= t < order.len() implies is_rcl_candidate(
                graph@,
                #[trigger] extended(base, order, t),
                *alpha,
                order[t] as int,
            ) by {
                if t < i {
                    lemma_extended_prefix(base, before, order, t);
                    assert(order[t] == before[t]);
                    assert(is_rcl_candidate(
                        graph@,
                        extended(base, before, t),
                        *alpha,
                        before[t] as int,
                    ));
                }
            }
        }
    }
}

/// A short run of improving swaps with a fresh tabu memory: at most
/// `lns_repair_depth` steps, ended by the first step that makes no swap.
pub fn refine<'g>(sol: &mut Solution<'g>, p: &Params, rng: &mut StdRng)
    requires
        old(sol).wf(),
        p.wf(),
    ensures
        final(sol).wf(),
        final(sol).spec_graph() == old(sol).spec_graph(),
        final(sol).spec_size() == old(sol).spec_size(),
        final(sol).spec_edges() >= old(sol).spec_edges(),
        p.lns_repair_depth == 0 ==> final(sol)@ == old(sol)@,
        exists|sols: Seq<Solution<'g>>, tabus: Seq<DualTabu>, freqs: Seq<Seq<usize>>|
            #[trigger] is_refinement(old(sol), p, sols, tabus, freqs) && final(sol)@
                == sols.last()@,
{
    let ghost mut sols: Seq<Solution<'g>> = seq![*sol];
    let ghost mut tabus: Seq<DualTabu> = Seq::empty();
    let ghost mut freqs: Seq<Seq<usize>> = Seq::empty();
    if p.lns_repair_depth == 0 {
        assert(is_refinement(old(sol), p, sols, tabus, freqs));
        return ;
    }
    let n = sol.graph().n();
    let mut tabu = DualTabu::new(n, p.tenure_u, p.tenure_v);
    let mut freq: Vec<usize> = vec![0; n];
    let best_rho = Ratio::zero();
    let mut steps: usize = 0;
    let mut going = true;
    proof {
        sol.lemma_bounds();
        crate::graph::lemma_square_bounds_row(n);
        tabus = seq![tabu];
        freqs = seq![freq@];
    }
    while going && steps < p.lns_repair_depth
        invariant
            sol.wf(),
            sol.spec_graph() == old(sol).spec_graph(),
            sol.spec_size() == old(sol).spec_size(),
            sol.spec_edges() >= old(sol).spec_edges(),
            sol@.len() == n,
            n <= 0xFFFF_FFFF,
            p.wf(),
            tabu.wf(),
            covers(&tabu, sol),
            tabu.can_stamp(),
            tabu.spec_iter() == steps,
            freq@.len() == n,
            steps <= p.lns_repair_depth,
            p.lns_repair_depth > 0,
            1 <= sols.len() <= steps + 1,
            tabus.len() == sols.len(),
            freqs.len() == sols.len(),
            sols[0] == *old(sol),
            is_fresh_memory(old(sol), p, &tabus[0], freqs[0]),
            forall|i: int| 0 <= i < sols.len() - 1 ==> #[trigger] is_swap_step(p, sols, tabus, freqs, i),
            sol@ == sols.last()@,
            going ==> sols.len() == steps + 1 && *sol == sols.last() && tabu == tabus.last()
                && freq@ == freqs.last(),
            !going ==> is_stuck(&sols.last(), &tabus.last()),
        decreases p.lns_repair_depth - steps + if going { 1int } else { 0int },
    {
        proof {
            sol.lemma_bounds();
        }
        let ghost sols_before = sols;
        let ghost tabus_before = tabus;
        let ghost freqs_before = freqs;
        let ghost pre_sol = *sol;
        let ghost pre_tabu = tabu;
        let ghost pre_freq = freq@;
        let moved = improve_once(sol, &mut tabu, &best_rho, &mut freq, p, rng);
        steps = steps + 1;
        going = moved;
        proof {
            if moved {
                let at = sols_before.len() - 1;
                sols = sols_before.push(*sol);
                tabus = tabus_before.push(tabu);
                freqs = freqs_before.push(freq@);
                assert(sols[at] == pre_sol && tabus[at] == pre_tabu && freqs[at] == pre_freq);
                assert(sols[at + 1] == *sol && tabus[at + 1] == tabu && freqs[at + 1] == freq@);
                let (u, v) = choose|u: int, v: int|
                    crate::neighbour::is_best_swap(&pre_sol, &pre_tabu, u, v)
                        && crate::neighbour::swapped(
                        &pre_sol,
                        &pre_tabu,
                        pre_freq,
                        u,
                        v,
                        sol,
                        &tabu,
                        freq@,
                    );
                assert(crate::neighbour::is_best_swap(&sols[at], &tabus[at], u, v));
                assert(crate::neighbour::swapped(
                    &sols[at],
                    &tabus[at],
                    freqs[at],
                    u,
                    v,
                    &sols[at + 1],
                    &tabus[at + 1],
                    freqs[at + 1],
                ));
                assert(is_swap_step(p, sols, tabus, freqs, at));
                assert forall|i: int| 0 <= i < sols.len() - 1 implies #[trigger] is_swap_step(
                    p,
                    sols,
                    tabus,
                    freqs,
                    i,
                ) by {
                    if i < at {
                        assert(is_swap_step(p, sols_before, tabus_before, freqs_before, i));
                        assert(sols[i] == sols_before[i] && sols[i + 1] == sols_before[i + 1]);
                        assert(tabus[i] == tabus_before[i] && tabus[i + 1] == tabus_before[i + 1]);
                        assert(freqs[i] == freqs_before[i] && freqs[i + 1] == freqs_before[i + 1]);
                    }
                }
            }
        }
    }
    assert(is_refinement(old(sol), p, sols, tabus, freqs));
}

/// Repairs a solution after the removal of the vertices of `removals`: the
/// removals are applied in order, the solution is completed to its former
/// size from the restricted candidate list, and a short run of improving
/// swaps follows. The result has the size of `initial_sol` and at least the
/// edges that the completion had.
pub fn apply_lns<'g>(
    initial_sol: &Solution<'g>,
    removals: &[usize],
    p: &Params,
    rng: &mut StdRng,
) -> (sol: Solution<'g>)
    requires
        initial_sol.wf(),
        p.wf(),
        forall|i: int| 0 <= i < removals@.len() ==> (#[trigger] removals@[i]) < initial_sol@.len(),
    ensures
        sol.wf(),
        sol.spec_graph() == initial_sol.spec_graph(),
        sol.spec_size() == initial_sol.spec_size(),
        is_repair(initial_sol, removals@, p, &sol),
{
    let mut sol = initial_sol.clone();
    remove_all(&mut sol, removals);
    let target = initial_sol.size();
    proof {
        initial_sol.lemma_bounds();
    }
    let ghost base = sol@;
    let ghost missing = target - sol.spec_size();
    complete_greedy(&mut sol, target, &p.lns_rcl_alpha, rng);
    let ghost completed = sol;
    let ghost order = choose|order: Seq<usize>|
        is_rcl_order(sol.spec_graph()@, base, p.lns_rcl_alpha, order) && completed@ == extended(
            base,
            order,
            order.len() as int,
        ) && order.len() == missing;
    refine(&mut sol, p, rng);
    proof {
        let (sols, tabus, freqs) = choose|
            sols: Seq<Solution<'g>>,
            tabus: Seq<DualTabu>,
            freqs: Seq<Seq<usize>>,
        | #[trigger]
            is_refinement(&completed, p, sols, tabus, freqs) && sol@ == sols.last()@;
        assert(is_repair_by(initial_sol, removals@, p, &sol, order, completed, sols, tabus, freqs));
    }
    sol
}

/// `result` is a repair of `initial` after the removals `removals`, with
/// `completed` the solution that the entries of `order` made of what the
/// removals left, and `sols`, `tabus` and `freqs` the states of the
/// refinement that followed.
///
/// The removals are applied in order. As many vertices enter as members are
/// then missing, each from the restricted candidate list of its moment. The
/// result is the last state of a refinement of the completed solution.
pub open spec fn is_repair_by<'g>(
    initial: &Solution<'g>,
    removals: Seq<usize>,
    p: &Params,
    result: &Solution<'g>,
    order: Seq<usize>,
    completed: Solution<'g>,
    sols: Seq<Solution<'g>>,
    tabus: Seq<DualTabu>,
    freqs: Seq<Seq<usize>>,
) -> bool {
    let base = without(initial@, removals, removals.len() as int);
    &&& is_rcl_order(initial.spec_graph()@, base, p.lns_rcl_alpha, order)
    &&& order.len() == initial.spec_size() - crate::bits::count_true(base, base.len() as int)
    &&& completed.wf()
    &&& completed.spec_graph() == initial.spec_graph()
    &&& completed@ == extended(base, order, order.len() as int)
    &&& is_refinement(&completed, p, sols, tabus, freqs)
    &&& result@ == sols.last()@
    &&& result.spec_edges() >= completed.spec_edges()
}

/// `result` is a repair of `initial` after the removals `removals`: a
/// solution of the same graph and size that some completion and some
/// refinement lead to.
pub open spec fn is_repair<'g>(
    initial: &Solution<'g>,
    removals: Seq<usize>,
    p: &Params,
    result: &Solution<'g>,
) -> bool {
    &&& result.wf()
    &&& result.spec_graph() == initial.spec_graph()
    &&& result.spec_size() == initial.spec_size()
    &&& exists|
        order: Seq<usize>,
        completed: Solution<'g>,
        sols: Seq<Solution<'g>>,
        tabus: Seq<DualTabu>,
        freqs: Seq<Seq<usize>>,
    | #[trigger]
        is_repair_by(initial, removals, p, result, order, completed, sols, tabus, freqs)
}

/// No swap of a critical member for a critical outside vertex keeps the
/// number of edges: an intensification step from this state makes no swap.
pub open spec fn is_stuck<'g>(sol: &Solution<'g>, tabu: &DualTabu) -> bool {
    forall|u: int, v: int|
        crate::neighbour::in_critical_a(sol, tabu, u) && crate::neighbour::in_critical_b(
            sol,
            tabu,
            v,
        ) ==> crate::neighbour::gain_of(sol, u, v) < 0
}

/// The memories that a refinement of `sol` starts with: nothing is barred,
/// no step has been counted, the tenures are those of the parameters, and
/// every counter is zero.
pub open spec fn is_fresh_memory<'g>(
    sol: &Solution<'g>,
    p: &Params,
    tabu: &DualTabu,
    freq: Seq<usize>,
) -> bool {
    &&& covers(tabu, sol)
    &&& crate::diversify::no_bars(tabu)
    &&& tabu.spec_iter() == 0
    &&& tabu.tenure_add() == if p.tenure_u < 1 { 1 } else { p.tenure_u }
    &&& tabu.tenure_rm() == if p.tenure_v < 1 { 1 } else { p.tenure_v }
    &&& freq.len() == sol@.len()
    &&& forall|v: int| 0 <= v < freq.len() ==> freq[v] == 0
}

/// An intensification step led from state `i` to the next state and made a
/// swap: a best swap of two critical vertices, counted in the frequency
/// memory and stamped in the tabu memories, after which the step counter
/// stands one higher and the tenures are drawn afresh.
pub open spec fn is_swap_step<'g>(
    p: &Params,
    sols: Seq<Solution<'g>>,
    tabus: Seq<DualTabu>,
    freqs: Seq<Seq<usize>>,
    i: int,
) -> bool {
    &&& sols[i + 1].wf()
    &&& sols[i + 1].spec_graph() == sols[i].spec_graph()
    &&& tabus[i + 1].wf()
    &&& tabus[i + 1].spec_iter() == tabus[i].spec_iter() + 1
    &&& crate::tabu::tenures_drawn(
        &tabus[i + 1],
        sols[i + 1].spec_size() as int,
        sols[i + 1].spec_edges() as int,
        p.gamma_target,
    )
    &&& exists|u: int, v: int|
        crate::neighbour::is_best_swap(&sols[i], &tabus[i], u, v) && crate::neighbour::swapped(
            &sols[i],
            &tabus[i],
            freqs[i],
            u,
            v,
            &sols[i + 1],
            &tabus[i + 1],
            freqs[i + 1],
        )
}

/// `sols`, `tabus` and `freqs` are the states that a refinement of `start`
/// went through, from the first to the last.
///
/// The first state is `start` itself, with fresh memories where any step is
/// allowed. Each further state came from the one before by a step that made
/// a swap. There are no more such steps than `lns_repair_depth`, and fewer
/// only where the last state is stuck.
pub open spec fn is_refinement<'g>(
    start: &Solution<'g>,
    p: &Params,
    sols: Seq<Solution<'g>>,
    tabus: Seq<DualTabu>,
    freqs: Seq<Seq<usize>>,
) -> bool {
    &&& 1 <= sols.len() <= p.lns_repair_depth + 1
    &&& sols[0] == *start
    &&& p.lns_repair_depth > 0 ==> {
        &&& tabus.len() == sols.len()
        &&& freqs.len() == sols.len()
        &&& is_fresh_memory(start, p, &tabus[0], freqs[0])
        &&& forall|i: int| 0 <= i < sols.len() - 1 ==> #[trigger] is_swap_step(p, sols, tabus, freqs, i)
        &&& sols.len() == p.lns_repair_depth + 1 || is_stuck(&sols.last(), &tabus.last())
    }
}

} // verus!
