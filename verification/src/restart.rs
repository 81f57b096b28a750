//! The search at fixed size: tabu search from a greedy start, with a
//! diversification whenever the search stagnates, until a solution reaches
//! the density threshold or the moves or the time run out.

use crate::bits::lemma_count_true_all;
use crate::clock::now;
use crate::clock::out_of_time;
use crate::construct::is_greedy_order;
use crate::construct::lemma_greedy_extend;
use crate::construct::members_after;
use crate::diversify::heavy_outcome;
use crate::diversify::heavy_perturbation;
use crate::diversify::mild_outcome;
use crate::diversify::mild_perturbation;
use crate::construct::lemma_members_after_prefix;
use crate::freq::add_counted;
use crate::freq::counted;
use crate::graph::Graph;
use crate::induced::conn;
use crate::induced::induced_edges;
use crate::lns::apply_lns;
use crate::mcts::ChildStats;
use crate::mcts::MctsTree;
use crate::neighbour::covers;
use crate::neighbour::improve_once;
use crate::neighbour::inner;
use crate::neighbour::lemma_push_contains;
use crate::params::Params;
use crate::ratio::lemma_greater_is_positive;
use crate::ratio::Ratio;
use crate::solution::density_of;
use crate::rng::coin;
use crate::rng::pick_one;
use crate::rng::uniform_inclusive;
use crate::select::is_outside;
use crate::select::outside_between;
use crate::select::outside_extremes;
use crate::solution::reaches;
use crate::solution::Solution;
use crate::tabu::edge_deficit;
use crate::tabu::DualTabu;
use rand::rngs::StdRng;
use vstd::prelude::*;

verus! {

/// No search at size `k` makes sense in a graph of `n` vertices: the graph
/// is empty, or `k` is zero or exceeds `n`.
pub open spec fn is_degenerate(n: int, k: int) -> bool {
    n == 0 || k == 0 || k > n
}

/// The odds of the heavy perturbation for a solution of `k` vertices that
/// lacks `lack` edges: `(lack + 2) / k`, and at most one in ten.
pub open spec fn heavy_odds_of(lack: int, k: int) -> (int, int) {
    if 10 * (lack + 2) >= k {
        (1, 10)
    } else {
        (lack + 2, k)
    }
}

/// The odds of the heavy perturbation, as numerator and denominator.
pub fn heavy_odds(lack: usize, k: usize) -> (odds: (u32, u32))
    requires
        lack <= 10,
        k <= u32::MAX,
    ensures
        odds.0 == heavy_odds_of(lack as int, k as int).0,
        odds.1 == heavy_odds_of(lack as int, k as int).1,
        0 < odds.0 <= odds.1,
{
    if 10 * (lack + 2) >= k {
        (1, 10)
    } else {
        ((lack + 2) as u32, k as u32)
    }
}

/// The vertices whose counter in `freq` is the lowest, in increasing order.
pub fn least_counted(freq: &Vec<usize>) -> (r: Vec<usize>)
    ensures
        forall|v: usize| #[trigger]
            r@.contains(v) <==> (v < freq@.len() && forall|w: int|
                0 <= w < freq@.len() ==> freq@[v as int] <= freq@[w]),
        freq@.len() > 0 ==> r@.len() > 0,
        crate::select::is_increasing(r@),
{
    let n = freq.len();
    let mut low: usize = 0;
    let ghost mut at: int = 0;
    let mut i: usize = 0;
    while i < n
        invariant
            i <= n,
            n == freq@.len(),
            i > 0 ==> 0 <= at < i && freq@[at] == low,
            forall|w: int| 0 <= w < i ==> low <= freq@[w],
        decreases n - i,
    {
        if i == 0 || freq[i] < low {
            low = freq[i];
            proof {
                at = i as int;
            }
        }
        i = i + 1;
    }
    let mut out: Vec<usize> = Vec::new();
    let mut v: usize = 0;
    while v < n
        invariant
            v <= n,
            n == freq@.len(),
            n > 0 ==> 0 <= at < n && freq@[at] == low,
            forall|w: int| 0 <= w < n ==> low <= freq@[w],
            forall|x: usize| #[trigger] out@.contains(x) <==> (x < v && freq@[x as int] == low),
            forall|i: int| 0 <= i < out@.len() ==> out@[i] < v,
            crate::select::is_increasing(out@),
        decreases n - v,
    {
        let ghost before = out@;
        let take = freq[v] == low;
        if take {
            out.push(v);
            proof {
                lemma_push_contains(before, v);
            }
        }
        proof {
            assert forall|x: usize| #[trigger]
                out@.contains(x) <==> (x < v + 1 && freq@[x as int] == low) by {
                assert(before.contains(x) <==> (x < v && freq@[x as int] == low));
                if take {
                    assert(out@ == before.push(v));
                    assert(out@.contains(x) <==> before.contains(x) || x == v);
                } else {
                    assert(out@ == before);
                }
            }
        }
        v = v + 1;
    }
    proof {
        assert forall|x: usize| #[trigger]
            out@.contains(x) <==> (x < freq@.len() && forall|w: int|
                0 <= w < freq@.len() ==> freq@[x as int] <= freq@[w]) by {
            assert(out@.contains(x) <==> (x < v && freq@[x as int] == low));
            if x < n && (forall|w: int| 0 <= w < freq@.len() ==> freq@[x as int] <= freq@[w]) {
                assert(freq@[x as int] <= freq@[at]);
            }
        }
        if n > 0 {
            assert(out@.contains(at as usize));
        }
    }
    out
}

/// Of the vertices of `candidates`, the last one with the lowest counter in
/// `freq`.
pub fn last_least_counted(candidates: &Vec<usize>, freq: &Vec<usize>) -> (r: usize)
    requires
        candidates@.len() > 0,
        forall|i: int| 0 <= i < candidates@.len() ==> (#[trigger] candidates@[i]) < freq@.len(),
    ensures
        candidates@.contains(r),
        forall|i: int|
            0 <= i < candidates@.len() ==> freq@[r as int] <= freq@[(#[trigger] candidates@[i]) as int],
        exists|at: int|
            0 <= at < candidates@.len() && candidates@[at] == r && forall|j: int|
                at < j < candidates@.len() ==> freq@[r as int] < freq@[(#[trigger] candidates@[j]) as int],
{
    let mut best: usize = candidates[0];
    let ghost mut at: int = 0;
    let mut i: usize = 1;
    assert(candidates@.contains(candidates@[0]));
    while i < candidates.len()
        invariant
            1 <= i <= candidates@.len(),
            candidates@.contains(best),
            best < freq@.len(),
            0 <= at < i,
            candidates@[at] == best,
            forall|j: int| 0 <= j < candidates@.len() ==> (#[trigger] candidates@[j]) < freq@.len(),
            forall|j: int| 0 <= j < i ==> freq@[best as int] <= freq@[(#[trigger] candidates@[j]) as int],
            forall|j: int| at < j < i ==> freq@[best as int] < freq@[(#[trigger] candidates@[j]) as int],
        decreases candidates@.len() - i,
    {
        let c = candidates[i];
        assert(candidates@.contains(candidates@[i as int]));
        if freq[c] <= freq[best] {
            best = c;
            proof {
                at = i as int;
            }
        }
        i = i + 1;
    }
    best
}

/// The memory after the first `i` vertices of `order` have entered the empty
/// subset one after another, each entry counted.
pub open spec fn counted_after(freq: Seq<usize>, order: Seq<usize>, i: int) -> Seq<usize>
    decreases i,
{
    if i <= 0 {
        freq
    } else {
        counted(counted_after(freq, order, i - 1), order[i - 1] as int, i)
    }
}

/// The counter of `v` in `freq` comes before that of `w`: it is lower, or it
/// is the same and `v` is the later vertex.
pub open spec fn counts_before(freq: Seq<usize>, v: int, w: int) -> bool {
    freq[v] < freq[w] || (freq[v] == freq[w] && w <= v)
}

/// `order` follows the memory `freq`: its first vertex has the lowest
/// counter, and each later vertex has, at the time of its entry, the lowest
/// counter among the outside vertices with as many neighbours inside the
/// subset as it has itself, and is the last of those with that counter.
pub open spec fn follows_memory(g: Seq<Seq<bool>>, freq: Seq<usize>, order: Seq<usize>) -> bool {
    &&& order.len() >= 1 ==> forall|w: int|
        0 <= w < freq.len() ==> freq[order[0] as int] <= #[trigger] freq[w]
    &&& forall|i: int, w: int|
        1 <= i < order.len() && 0 <= w < g.len() && !(#[trigger] members_after(
            g.len(),
            order,
            i,
        ))[w] && #[trigger] conn(g, members_after(g.len(), order, i), w) == conn(
            g,
            members_after(g.len(), order, i),
            order[i] as int,
        ) ==> counts_before(counted_after(freq, order, i), order[i] as int, w)
}

/// The memory after `i` counted entries depends on the first `i` vertices
/// alone.
pub proof fn lemma_counted_after_prefix(
    freq: Seq<usize>,
    order: Seq<usize>,
    longer: Seq<usize>,
    i: int,
)
    requires
        0 <= i <= order.len() <= longer.len(),
        forall|j: int| 0 <= j < order.len() ==> order[j] == longer[j],
    ensures
        counted_after(freq, order, i) == counted_after(freq, longer, i),
    decreases i,
{
    if i > 0 {
        lemma_counted_after_prefix(freq, order, longer, i - 1);
    }
}

/// An order that follows the memory stays one when the vertex appended has
/// the lowest counter among the vertices that tie with it.
pub proof fn lemma_follows_extend(
    g: Seq<Seq<bool>>,
    freq: Seq<usize>,
    order: Seq<usize>,
    chosen: usize,
)
    requires
        follows_memory(g, freq, order),
        order.len() == 0 ==> forall|w: int|
            0 <= w < freq.len() ==> freq[chosen as int] <= #[trigger] freq[w],
        order.len() >= 1 ==> forall|w: int|
            0 <= w < g.len() && !members_after(g.len(), order, order.len() as int)[w] && conn(
                g,
                members_after(g.len(), order, order.len() as int),
                w,
            ) == conn(g, members_after(g.len(), order, order.len() as int), chosen as int)
                ==> #[trigger] counts_before(
                counted_after(freq, order, order.len() as int),
                chosen as int,
                w,
            ),
    ensures
        follows_memory(g, freq, order.push(chosen)),
        counted_after(freq, order.push(chosen), order.len() as int + 1) == counted(
            counted_after(freq, order, order.len() as int),
            chosen as int,
            order.len() as int + 1,
        ),
{
    let n = g.len();
    let longer = order.push(chosen);
    let i = order.len() as int;
    lemma_counted_after_prefix(freq, order, longer, i);
    lemma_members_after_prefix(n, order, longer, i);
    assert forall|t: int, w: int|
        1 <= t < longer.len() && 0 <= w < n && !(#[trigger] members_after(n, longer, t))[w]
            && #[trigger] conn(g, members_after(n, longer, t), w) == conn(
            g,
            members_after(n, longer, t),
            longer[t] as int,
        ) implies counts_before(counted_after(freq, longer, t), longer[t] as int, w) by {
        lemma_counted_after_prefix(freq, order, longer, t);
        lemma_members_after_prefix(n, order, longer, t);
        if t < i {
            assert(longer[t] == order[t]);
            assert(!members_after(n, order, t)[w]);
            assert(conn(g, members_after(n, order, t), w) == conn(
                g,
                members_after(n, order, t),
                order[t] as int,
            ));
        }
    }
}

/// A first solution of `k` vertices for one restart, with every entry
/// counted in `freq_mem`.
///
/// The first vertex is drawn at random: among all vertices while
/// `best_global` is empty, and among the vertices with the lowest counter
/// afterwards. Each later vertex has the most inner neighbours among the
/// outside vertices; ties are broken at random while `best_global` is empty,
/// and afterwards by the lowest counter, the last such vertex going first.
#[verifier::rlimit(60)]
pub fn initialize_solution<'g>(
    graph: &'g Graph,
    k: usize,
    freq_mem: &mut Vec<usize>,
    best_global: &Solution<'g>,
    rng: &mut StdRng,
) -> (sol: Solution<'g>)
    requires
        graph.wf(),
        0 < k <= graph@.len(),
        old(freq_mem)@.len() == graph@.len(),
    ensures
        sol.wf(),
        sol.spec_graph() == graph,
        sol.spec_size() == k,
        final(freq_mem)@.len() == old(freq_mem)@.len(),
        exists|order: Seq<usize>|
            order.len() == k && is_greedy_order(graph@, order) && sol@ == members_after(
                graph@.len(),
                order,
                k as int,
            ) && final(freq_mem)@ == counted_after(old(freq_mem)@, order, k as int) && (
            best_global.spec_size() > 0 ==> follows_memory(graph@, old(freq_mem)@, order)),
{
    let n = graph.n();
    let fresh = best_global.size() == 0;
    let mut sol = Solution::new(graph);
    let ghost empty = sol@;
    let ghost start = freq_mem@;
    let seed = if fresh {
        uniform_inclusive(rng, 0, n - 1)
    } else {
        let lowest = least_counted(freq_mem);
        match pick_one(rng, &lowest) {
            Some(v) => {
                assert(lowest@.contains(v));
                v
            },
            None => 0,
        }
    };
    let ghost mut order: Seq<usize> = Seq::empty();
    proof {
        assert(members_after(n as nat, order, 0) =~= empty);
        lemma_greedy_extend(graph@, order, seed);
        if !fresh {
            lemma_follows_extend(graph@, start, order, seed);
        }
        lemma_counted_after_prefix(start, order, order.push(seed), 0);
        order = order.push(seed);
    }
    add_counted(&mut sol, seed, freq_mem);
    while sol.size() < k
        invariant
            n == graph@.len(),
            k <= n,
            graph.wf(),
            sol.wf(),
            sol.spec_graph() == graph,
            freq_mem@.len() == n,
            start.len() == n,
            1 <= order.len() <= k,
            sol.spec_size() == order.len(),
            is_greedy_order(graph@, order),
            sol@ == members_after(n as nat, order, order.len() as int),
            freq_mem@ == counted_after(start, order, order.len() as int),
            !fresh ==> follows_memory(graph@, start, order),
        decreases k - sol.spec_size(),
    {
        let extremes = outside_extremes(&sol);
        proof {
            if extremes is None {
                assert forall|v: int| 0 <= v < n implies sol@[v] by {
                    assert(!is_outside(&sol, v));
                }
                lemma_count_true_all(sol@, n as int);
            }
        }
        let best = match extremes {
            Some((_, hi)) => hi,
            None => 0,
        };
        let candidates = outside_between(&sol, best, best);
        proof {
            let w = choose|w: int| is_outside(&sol, w) && inner(&sol, w) == best;
            sol.lemma_bounds();
            assert(candidates@.contains(w as usize));
            assert forall|i: int| 0 <= i < candidates@.len() implies (#[trigger] candidates@[i])
                < freq_mem@.len() by {
                assert(candidates@.contains(candidates@[i]));
            }
        }
        let chosen = if fresh {
            match pick_one(rng, &candidates) {
                Some(v) => v,
                None => 0,
            }
        } else {
            last_least_counted(&candidates, freq_mem)
        };
        assert(candidates@.contains(chosen));
        proof {
            assert forall|w: int|
                0 <= w < n && !members_after(n as nat, order, order.len() as int)[w] implies crate::induced::conn(
                graph@,
                members_after(n as nat, order, order.len() as int),
                w,
            ) <= crate::induced::conn(
                graph@,
                members_after(n as nat, order, order.len() as int),
                chosen as int,
            ) by {
                assert(is_outside(&sol, w));
                assert(inner(&sol, w) <= best);
                assert(inner(&sol, chosen as int) == best);
            }
            lemma_greedy_extend(graph@, order, chosen);
            if !fresh {
                assert forall|w: int|
                    0 <= w < n && !sol@[w] && crate::induced::conn(graph@, sol@, w)
                        == crate::induced::conn(
                        graph@,
                        sol@,
                        chosen as int,
                    ) implies #[trigger] counts_before(freq_mem@, chosen as int, w) by {
                    assert(is_outside(&sol, w));
                    assert(inner(&sol, w) == best);
                    assert(candidates@.contains(w as usize));
                    let at = choose|at: int| 0 <= at < candidates@.len() && candidates@[at] == w as usize;
                    let last = choose|last: int|
                        0 <= last < candidates@.len() && candidates@[last] == chosen && forall|j: int|
                            last < j < candidates@.len() ==> freq_mem@[chosen as int] < freq_mem@[(
                            #[trigger] candidates@[j]) as int];
                    assert(freq_mem@[chosen as int] <= freq_mem@[candidates@[at] as int]);
                    if at > last {
                        assert(freq_mem@[chosen as int] < freq_mem@[candidates@[at] as int]);
                    } else if at < last {
                        assert(candidates@[at] < candidates@[last]);
                    }
                }
                lemma_follows_extend(graph@, start, order, chosen);
            } else {
                lemma_counted_after_prefix(
                    start,
                    order,
                    order.push(chosen),
                    order.len() as int,
                );
            }
            order = order.push(chosen);
        }
        add_counted(&mut sol, chosen, freq_mem);
    }
    sol
}

/// One diversification without the tree search: the heavy perturbation
/// where `heavy` is set, the light one otherwise.
pub fn perturb<'g>(
    sol: &mut Solution<'g>,
    tabu: &mut DualTabu,
    heavy: bool,
    rng: &mut StdRng,
    p: &Params,
    freq: &mut Vec<usize>,
)
    requires
        old(sol).wf(),
        old(tabu).wf(),
        old(tabu).can_stamp(),
        covers(old(tabu), old(sol)),
        old(freq)@.len() == old(sol)@.len(),
        p.wf(),
    ensures
        final(sol).wf(),
        final(sol).spec_graph() == old(sol).spec_graph(),
        final(sol).spec_size() == old(sol).spec_size(),
        final(freq)@.len() == old(freq)@.len(),
        final(tabu).wf(),
        covers(final(tabu), final(sol)),
        final(tabu).spec_iter() == old(tabu).spec_iter(),
        heavy ==> heavy_outcome(
            old(sol),
            old(tabu),
            old(freq)@,
            p,
            final(sol),
            final(tabu),
            final(freq)@,
        ),
        !heavy ==> mild_outcome(
            old(sol),
            old(tabu),
            old(freq)@,
            final(sol),
            final(tabu),
            final(freq)@,
        ),
        *final(tabu) == *old(tabu) || (final(tabu).tenure_add() <= crate::tabu::DEFICIT_CAP
            + crate::tabu::spread(old(sol).spec_size() as int) && final(tabu).tenure_rm()
            <= crate::tabu::DEFICIT_CAP + crate::tabu::spread(old(sol).spec_size() as int)),
{
    if heavy {
        heavy_perturbation(sol, tabu, rng, p, freq);
    } else {
        mild_perturbation(sol, tabu, rng, p, freq);
    }
}

/// Searches for a solution of exactly `k` vertices whose density reaches the
/// threshold of `p`.
///
/// Returns the solution and whether the time limit cut the search short. The
/// search ends as soon as a solution reaches the threshold; otherwise it ends
/// when the moves or the time run out, and returns the densest solution that
/// a restart left behind, which is empty where none had an edge. In a
/// degenerate case the empty solution is returned at once. `better` scores
/// the children in the tree search.
pub fn solve_fixed_k<'g, F: Fn(ChildStats, ChildStats) -> bool>(
    graph: &'g Graph,
    k: usize,
    rng: &mut StdRng,
    p: &'g Params,
    better: &F,
) -> (r: (Solution<'g>, bool))
    requires
        graph.wf(),
        p.wf(),
        forall|a: ChildStats, b: ChildStats| call_requires(better, (a, b)),
    ensures
        is_fixed_k_outcome(graph, k, p, &r.0, r.1),
{
    let n = graph.n();
    if n == 0 || k == 0 || k > n {
        return (Solution::new(graph), false);
    }
    proof {
        crate::graph::lemma_square_bounds_row(n);
    }
    let start = now();
    let mut timed_out = false;
    let mut freq_mem: Vec<usize> = vec![0; n];
    let mut best_global = Solution::new(graph);
    let mut total_moves: usize = 0;
    let mut stop = false;
    let ghost mut committed = false;
    let ghost mut first: Seq<usize> = Seq::empty();
    let ghost mut blank: Seq<bool> = Seq::empty();
    while !stop && total_moves < p.max_iter
        invariant
            n == graph@.len(),
            0 < k <= n,
            n <= 0xFFFF_FFFF,
            graph.wf(),
            p.wf(),
            forall|a: ChildStats, b: ChildStats| call_requires(better, (a, b)),
            freq_mem@.len() == n,
            best_global.wf(),
            best_global.spec_graph() == graph,
            best_global.spec_size() == 0 || best_global.spec_size() == k,
            best_global.spec_size() == 0 || best_global.spec_edges() > 0,
            total_moves <= p.max_iter,
            timed_out ==> p.max_time_millis > 0,
            p.max_iter == 0 ==> best_global.spec_size() == 0,
            stop ==> timed_out,
            !committed ==> total_moves == 0,
            committed ==> start_fails(graph@, k as int, p.gamma_target, first),
            committed && best_global.spec_size() == 0 ==> is_edgeless(graph@, k as int, blank),
        decreases p.max_iter - total_moves + if stop { 0int } else { 1int },
    {
        let ghost moves_before = total_moves;
        if out_of_time(&start, p.max_time_millis) {
            timed_out = true;
            stop = true;
        } else {
            let mut cur = initialize_solution(graph, k, &mut freq_mem, &best_global, rng);
            let ghost this_start = choose|order: Seq<usize>|
                order.len() == k && is_greedy_order(graph@, order) && cur@ == members_after(
                    graph@.len(),
                    order,
                    k as int,
                );
            let mut tabu = DualTabu::new(n, p.tenure_u, p.tenure_v);
            proof {
                cur.lemma_bounds();
            }
            tabu.update_tenures(cur.size(), cur.edges(), &p.gamma_target, rng);
            let mut best_run = cur.clone();
            if best_run.is_gamma_feasible(&p.gamma_target) {
                proof {
                    if committed {
                        assert(start_decides(graph@, k as int, p.gamma_target, first, best_run@));
                    } else {
                        assert(start_decides(
                            graph@,
                            k as int,
                            p.gamma_target,
                            this_start,
                            best_run@,
                        ));
                    }
                }
                return (best_run, false);
            }
            let ghost mine = if committed { first } else { this_start };
            assert(start_fails(graph@, k as int, p.gamma_target, mine));
            let mut stagnation: usize = 0;
            while !stop && stagnation < p.stagnation_iter && total_moves < p.max_iter
                invariant
                    n == graph@.len(),
                    0 < k <= n,
                    n <= 0xFFFF_FFFF,
                    graph.wf(),
                    p.wf(),
                    forall|a: ChildStats, b: ChildStats| call_requires(better, (a, b)),
                    freq_mem@.len() == n,
                    best_global.wf(),
                    best_global.spec_graph() == graph,
                    best_global.spec_size() == 0 || best_global.spec_size() == k,
                    best_global.spec_size() == 0 || best_global.spec_edges() > 0,
                    cur.wf(),
                    cur.spec_graph() == graph,
                    cur.spec_size() == k,
                    best_run.wf(),
                    best_run.spec_graph() == graph,
                    best_run.spec_size() == k,
                    tabu.wf(),
                    covers(&tabu, &cur),
                    tabu.spec_iter() <= total_moves,
                    tabu.tenure_add() <= crate::tabu::DEFICIT_CAP + crate::tabu::spread(k as int),
                    tabu.tenure_rm() <= crate::tabu::DEFICIT_CAP + crate::tabu::spread(k as int),
                    total_moves <= p.max_iter,
                    timed_out ==> p.max_time_millis > 0,
                    moves_before <= total_moves,
                    stop || total_moves > moves_before || stagnation == 0,
                    stop ==> timed_out,
                    start_fails(graph@, k as int, p.gamma_target, mine),
                decreases p.max_iter - total_moves + if stop { 0int } else { 1int },
            {
                if out_of_time(&start, p.max_time_millis) {
                    timed_out = true;
                    stop = true;
                } else {
                    let target = best_global.density();
                    let moved = improve_once(
                        &mut cur,
                        &mut tabu,
                        &target,
                        &mut freq_mem,
                        p,
                        rng,
                    );
                    total_moves = total_moves + 1;
                    if cur.density().greater_than(&best_run.density()) {
                        best_run = cur.clone();
                        stagnation = 0;
                    } else if moved {
                        stagnation = 0;
                    } else {
                        stagnation = stagnation + 1;
                    }
                    if best_run.is_gamma_feasible(&p.gamma_target) {
                        assert(start_decides(graph@, k as int, p.gamma_target, mine, best_run@));
                        return (best_run, false);
                    }
                    if stagnation >= p.stagnation_iter {
                        if p.use_mcts {
                            let mut tree = MctsTree::new(&best_run, graph, p);
                            let removal_seq = tree.run(rng, better);
                            cur = apply_lns(&best_run, removal_seq.as_slice(), p, rng);
                        } else {
                            proof {
                                cur.lemma_bounds();
                            }
                            let lack = edge_deficit(&p.gamma_target, cur.size(), cur.edges());
                            let odds = heavy_odds(lack, k);
                            let heavy = coin(rng, odds.0, odds.1);
                            perturb(&mut cur, &mut tabu, heavy, rng, p, &mut freq_mem);
                        }
                        stagnation = 0;
                        best_run = cur.clone();
                    }
                }
            }
            proof {
                best_run.lemma_bounds();
            }
            if best_run.density().greater_than(&best_global.density()) {
                proof {
                    lemma_greater_is_positive(best_run.spec_density(), best_global.spec_density());
                }
                best_global = best_run;
            } else {
                proof {
                    if best_global.spec_size() == 0 && !committed {
                        let low = best_global.spec_density();
                        let high = best_run.spec_density();
                        assert(low.num == 0 && low.den == 1);
                        assert(!low.lt(&high));
                        assert(high.num == 0) by (nonlinear_arith)
                            requires
                                !(low.num * high.den < high.num * low.den),
                                low.num == 0,
                                low.den == 1,
                                high.num >= 0,
                        ;
                        assert(best_run.spec_edges() == 0);
                        blank = best_run@;
                        assert(is_edgeless(graph@, k as int, blank));
                    }
                }
            }
            proof {
                first = mine;
                committed = true;
            }
        }
    }
    proof {
        if !timed_out && p.max_iter > 0 {
            assert(committed);
            assert(start_fails(graph@, k as int, p.gamma_target, first));
            assert(start_decides(graph@, k as int, p.gamma_target, first, best_global@));
            if best_global.spec_size() == 0 {
                let started = density_of(
                    k as int,
                    induced_edges(graph@, members_after(graph@.len(), first, k as int)) as int,
                );
                assert(k * (k - 1) <= 0xFFFF_FFFF * 0xFFFF_FFFF) by (nonlinear_arith)
                    requires
                        0 < k <= 0xFFFF_FFFF,
                ;
                if k >= 2 {
                    assert(k * (k - 1) >= 2) by (nonlinear_arith)
                        requires
                            k >= 2,
                    ;
                }
                if reaches(best_global.spec_density(), p.gamma_target) {
                    crate::solution::lemma_reaches_from_zero(started, p.gamma_target);
                }
            }
        }
    }
    (best_global, timed_out)
}

/// `order` is an order in which a greedy construction may take `k` vertices,
/// and the subset that it builds does not reach `gamma`.
pub open spec fn start_fails(g: Seq<Seq<bool>>, k: int, gamma: Ratio, order: Seq<usize>) -> bool {
    &&& order.len() == k
    &&& is_greedy_order(g, order)
    &&& !reaches(density_of(k, induced_edges(g, members_after(g.len(), order, k)) as int), gamma)
}

/// `order` is an order in which a greedy construction may take `k` vertices,
/// and if the subset that it builds reaches `gamma`, that subset is `result`:
/// a first start that reaches the threshold is what the search returns.
pub open spec fn start_decides(
    g: Seq<Seq<bool>>,
    k: int,
    gamma: Ratio,
    order: Seq<usize>,
    result: Seq<bool>,
) -> bool {
    &&& order.len() == k
    &&& is_greedy_order(g, order)
    &&& reaches(density_of(k, induced_edges(g, members_after(g.len(), order, k)) as int), gamma)
        ==> result == members_after(g.len(), order, k)
}

/// `sol` and `timed_out` are what a search at the size `k` may return.
///
/// The solution is empty or has `k` vertices, and it is empty in a
/// degenerate case and where no move is allowed. A solution that is not
/// empty has an edge or reaches the threshold. The flag is set only under a
/// time limit. Where the search ran to its end, on an input that is not
/// degenerate and with moves allowed: a first start that reaches the
/// threshold is the result; a result that reaches the threshold has `k`
/// vertices; if the result does not reach it, some greedy start did not;
/// and the result is empty only if some subset of `k` vertices has no edge.
pub open spec fn is_fixed_k_outcome<'g>(
    graph: &Graph,
    k: usize,
    p: &Params,
    sol: &Solution<'g>,
    timed_out: bool,
) -> bool {
    let ran = !timed_out && !is_degenerate(graph@.len() as int, k as int) && p.max_iter > 0;
    &&& sol.wf()
    &&& sol.spec_graph() == graph
    &&& sol.spec_size() == 0 || sol.spec_size() == k
    &&& sol.spec_size() == 0 || sol.spec_edges() > 0 || reaches(sol.spec_density(), p.gamma_target)
    &&& is_degenerate(graph@.len() as int, k as int) ==> sol.spec_size() == 0 && !timed_out
    &&& p.max_time_millis == 0 ==> !timed_out
    &&& p.max_iter == 0 ==> sol.spec_size() == 0
    &&& ran ==> exists|order: Seq<usize>| #[trigger]
        start_decides(graph@, k as int, p.gamma_target, order, sol@)
    &&& ran && sol.spec_size() == 0 ==> exists|s: Seq<bool>| #[trigger]
        is_edgeless(graph@, k as int, s)
    &&& ran && reaches(sol.spec_density(), p.gamma_target) ==> sol.spec_size() == k
    &&& ran && !reaches(sol.spec_density(), p.gamma_target) ==> exists|order: Seq<usize>| #[trigger]
        start_fails(graph@, k as int, p.gamma_target, order)
}

/// `s` is a subset of `k` vertices of the graph `g` without an edge.
pub open spec fn is_edgeless(g: Seq<Seq<bool>>, k: int, s: Seq<bool>) -> bool {
    &&& s.len() == g.len()
    &&& crate::bits::count_true(s, s.len() as int) == k
    &&& induced_edges(g, s) == 0
}

} // verus!
