//! Diversification: the heavy perturbation, which exchanges a random member
//! for a poorly connected outside vertex, and the light one, which swaps two
//! critical vertices whether or not the swap loses an edge.

use crate::bits::lemma_count_true_some;
use crate::bits::row_ones;
use crate::freq::add_counted;
use crate::freq::counted;
use crate::freq::remove_counted;
use crate::graph::Graph;
use crate::induced::conn;
use crate::neighbour::covers;
use crate::neighbour::critical_sets;
use crate::neighbour::in_critical_a;
use crate::neighbour::in_critical_b;
use crate::neighbour::inner;
use crate::neighbour::lemma_push_contains;
use crate::neighbour::seen;
use crate::params::Params;
use crate::ratio::Ratio;
use crate::rng::pick_one;
use crate::select::is_outside;
use crate::select::outside_between;
use crate::select::outside_extremes;
use crate::solution::Solution;
use crate::tabu::spread;
use crate::tabu::DualTabu;
use crate::tabu::DEFICIT_CAP;
use rand::rngs::StdRng;
use vstd::prelude::*;

verus! {

/// The bound on inner neighbours below which an outside vertex qualifies for
/// the heavy perturbation of a solution of `k` vertices: `floor(gamma * k)`
/// in a graph of `n` vertices and `m` edges whose density exceeds one half,
/// and `floor(0.85 * gamma * k)` in any other.
pub open spec fn heavy_threshold_of(m: int, n: int, gamma: Ratio, k: int) -> int {
    if n >= 2 && 4 * m > n * (n - 1) {
        (gamma.num * k) / (gamma.den as int)
    } else {
        (85 * gamma.num * k) / (100 * gamma.den)
    }
}

/// `v` may enter the subset `s` in a heavy perturbation with bound `h`: it
/// lies outside and has fewer than `h` neighbours inside, or no outside
/// vertex has fewer than `h` and `v` has the fewest.
pub open spec fn is_heavy_candidate(g: Seq<Seq<bool>>, s: Seq<bool>, h: int, v: int) -> bool {
    &&& 0 <= v < s.len()
    &&& !s[v]
    &&& conn(g, s, v) < h || forall|w: int|
        0 <= w < s.len() && !s[w] ==> h <= conn(g, s, w) && conn(g, s, v) <= #[trigger] conn(g, s, w)
}

/// The bound of the heavy perturbation for a solution of `k` vertices.
pub fn heavy_threshold(graph: &Graph, gamma: &Ratio, k: usize) -> (h: usize)
    requires
        graph.wf(),
        gamma.is_fraction(),
        gamma.den <= u32::MAX,
        k <= graph@.len(),
    ensures
        h == heavy_threshold_of(graph.spec_m() as int, graph@.len() as int, *gamma, k as int),
        h <= k,
{
    let n = graph.n();
    let m = graph.m();
    proof {
        crate::graph::lemma_square_bounds_row(n);
        assert(n * (n - 1) <= 0xFFFF_FFFF * 0xFFFF_FFFF) by (nonlinear_arith)
            requires
                0 <= n <= 0xFFFF_FFFF,
        ;
    }
    let dense = n >= 2 && 4 * (m as u128) > (n as u128) * ((n - 1) as u128);
    let num: u128 = gamma.num as u128;
    let den: u128 = gamma.den as u128;
    let kk: u128 = k as u128;
    assert(num * kk <= 0xFFFF_FFFF * 0xFFFF_FFFF) by (nonlinear_arith)
        requires
            0 <= num <= 0xFFFF_FFFF,
            0 <= kk <= 0xFFFF_FFFF,
    ;
    if dense {
        let h: u128 = num * kk / den;
        assert(h <= kk) by (nonlinear_arith)
            requires
                h == num * kk / (den as int),
                0 < num <= den,
                0 <= kk,
        ;
        h as usize
    } else {
        let h: u128 = 85 * (num * kk) / (100 * den);
        assert(85 * (num * kk) == 85 * num * kk) by (nonlinear_arith);
        assert(h <= kk) by (nonlinear_arith)
            requires
                h == 85 * (num * kk) / (100 * den),
                0 < num <= den,
                0 <= kk,
        ;
        h as usize
    }
}

/// The vertices that may enter the solution in a heavy perturbation with
/// bound `h`.
pub fn heavy_candidates<'g>(sol: &Solution<'g>, h: usize) -> (r: Vec<usize>)
    requires
        sol.wf(),
    ensures
        forall|v: usize| #[trigger]
            r@.contains(v) <==> is_heavy_candidate(sol.spec_graph()@, sol@, h as int, v as int),
        crate::select::is_increasing(r@),
{
    let below: Vec<usize> = if h > 0 {
        outside_between(sol, 0, h - 1)
    } else {
        Vec::new()
    };
    if below.len() > 0 {
        proof {
            let w0 = below@[0];
            assert(below@.contains(w0));
            assert forall|v: usize| #[trigger]
                below@.contains(v) <==> is_heavy_candidate(
                    sol.spec_graph()@,
                    sol@,
                    h as int,
                    v as int,
                ) by {
                assert(inner(sol, w0 as int) == conn(sol.spec_graph()@, sol@, w0 as int));
                assert(inner(sol, v as int) == conn(sol.spec_graph()@, sol@, v as int));
            }
        }
        return below;
    }
    proof {
        sol.lemma_bounds();
        assert forall|w: int| is_outside(sol, w) implies h <= inner(sol, w) by {
            if inner(sol, w) < h {
                assert(below@.contains(w as usize));
                let i = choose|i: int| 0 <= i < below@.len() && below@[i] == w as usize;
            }
        }
    }
    match outside_extremes(sol) {
        Some((lo, _)) => {
            let least = outside_between(sol, lo, lo);
            proof {
                assert forall|v: usize| #[trigger]
                    least@.contains(v) <==> is_heavy_candidate(
                        sol.spec_graph()@,
                        sol@,
                        h as int,
                        v as int,
                    ) by {
                    assert(inner(sol, v as int) == conn(sol.spec_graph()@, sol@, v as int));
                    if is_heavy_candidate(sol.spec_graph()@, sol@, h as int, v as int) {
                        assert(is_outside(sol, v as int));
                        assert(h <= inner(sol, v as int));
                        assert(lo <= inner(sol, v as int));
                        let w = choose|w: int| is_outside(sol, w) && inner(sol, w) == lo;
                        assert(conn(sol.spec_graph()@, sol@, v as int) <= conn(
                            sol.spec_graph()@,
                            sol@,
                            w,
                        ));
                    }
                    if least@.contains(v) {
                        assert forall|w: int|
                            0 <= w < sol@.len() && !sol@[w] implies h <= conn(
                            sol.spec_graph()@,
                            sol@,
                            w,
                        ) && conn(sol.spec_graph()@, sol@, v as int) <= #[trigger] conn(
                            sol.spec_graph()@,
                            sol@,
                            w,
                        ) by {
                            assert(is_outside(sol, w));
                            assert(lo <= inner(sol, w));
                        }
                    }
                }
            }
            least
        },
        None => {
            let none: Vec<usize> = Vec::new();
            proof {
                assert forall|v: usize| #[trigger]
                    none@.contains(v) <==> is_heavy_candidate(
                        sol.spec_graph()@,
                        sol@,
                        h as int,
                        v as int,
                    ) by {
                    assert(!is_outside(sol, v as int));
                }
            }
            none
        },
    }
}

/// The state after a heavy perturbation that took the member `u` out and put
/// the candidate `v` in.
pub open spec fn heavy_moved<'g>(
    sol: &Solution<'g>,
    freq: Seq<usize>,
    p: &Params,
    u: int,
    v: int,
    sol_after: &Solution<'g>,
    freq_after: Seq<usize>,
) -> bool {
    &&& 0 <= u < sol@.len()
    &&& sol@[u]
    &&& is_heavy_candidate(
        sol.spec_graph()@,
        sol@.update(u, false),
        heavy_threshold_of(
            sol.spec_graph().spec_m() as int,
            sol@.len() as int,
            p.gamma_target,
            sol.spec_size() as int,
        ),
        v,
    )
    &&& sol_after@ == sol@.update(u, false).update(v, true)
    &&& freq_after == counted(counted(freq, u, sol.spec_size() - 1), v, sol.spec_size() as int)
}

/// Both memories hold no bar.
pub open spec fn no_bars(tabu: &DualTabu) -> bool {
    &&& forall|v: int| 0 <= v < tabu.expire_add().len() ==> tabu.expire_add()[v] == 0
    &&& forall|v: int| 0 <= v < tabu.expire_rm().len() ==> tabu.expire_rm()[v] == 0
}

/// What a heavy perturbation makes of a solution, its bars and its counters:
/// nothing of an empty solution, and of any other the exchange of one member
/// for one heavy candidate, with every bar lifted.
pub open spec fn heavy_outcome<'g>(
    sol: &Solution<'g>,
    tabu: &DualTabu,
    freq: Seq<usize>,
    p: &Params,
    sol_after: &Solution<'g>,
    tabu_after: &DualTabu,
    freq_after: Seq<usize>,
) -> bool {
    if sol.spec_size() == 0 {
        sol_after@ == sol@ && freq_after == freq && *tabu_after == *tabu
    } else {
        &&& exists|u: int, v: int| heavy_moved(sol, freq, p, u, v, sol_after, freq_after)
        &&& no_bars(tabu_after)
    }
}

/// The heavy perturbation: a member drawn at random leaves, and a vertex
/// drawn at random among the heavy candidates enters. Both changes are
/// counted. Then every bar is lifted and the tenures are drawn afresh. An
/// empty solution is left alone.
pub fn heavy_perturbation<'g>(
    sol: &mut Solution<'g>,
    tabu: &mut DualTabu,
    rng: &mut StdRng,
    p: &Params,
    freq: &mut Vec<usize>,
)
    requires
        old(sol).wf(),
        old(tabu).wf(),
        covers(old(tabu), old(sol)),
        old(freq)@.len() == old(sol)@.len(),
        p.gamma_target.is_fraction(),
        p.gamma_target.den <= u32::MAX,
    ensures
        final(sol).wf(),
        final(sol).spec_graph() == old(sol).spec_graph(),
        final(sol).spec_size() == old(sol).spec_size(),
        final(freq)@.len() == old(freq)@.len(),
        final(tabu).wf(),
        covers(final(tabu), final(sol)),
        final(tabu).spec_iter() == old(tabu).spec_iter(),
        heavy_outcome(
            old(sol),
            old(tabu),
            old(freq)@,
            p,
            final(sol),
            final(tabu),
            final(freq)@,
        ),
        old(sol).spec_size() > 0 ==> crate::tabu::tenures_drawn(
            final(tabu),
            final(sol).spec_size() as int,
            final(sol).spec_edges() as int,
            p.gamma_target,
        ),
        old(sol).spec_size() > 0 ==> final(tabu).tenure_add() <= DEFICIT_CAP + spread(
            old(sol).spec_size() as int,
        ) && final(tabu).tenure_rm() <= DEFICIT_CAP + spread(old(sol).spec_size() as int),
{
    let k = sol.size();
    if k < 1 {
        return ;
    }
    proof {
        sol.lemma_bounds();
        lemma_count_true_some(sol@, sol@.len() as int);
    }
    let members = row_ones(sol.bitset());
    let u = match pick_one(rng, &members) {
        Some(u) => u,
        None => {
            proof {
                let i = choose|i: int| 0 <= i < sol@.len() && sol@[i];
                assert(exists|t: int| 0 <= t < members@.len() && members@[t] == i);
            }
            return ;
        },
    };
    proof {
        let t = choose|t: int| 0 <= t < members@.len() && members@[t] == u;
        assert(sol@[members@[t] as int]);
    }
    remove_counted(sol, u, freq);
    let h = heavy_threshold(sol.graph(), &p.gamma_target, k);
    let candidates = heavy_candidates(sol, h);
    let ghost without = sol@;
    let v = match pick_one(rng, &candidates) {
        Some(v) => v,
        None => {
            proof {
                // The vertex that has just left is outside, so some vertex qualifies.
                assert(is_outside(sol, u as int));
                lemma_heavy_candidate_exists(sol.spec_graph()@, sol@, h as int, u as int);
                let w = choose|w: int| is_heavy_candidate(sol.spec_graph()@, sol@, h as int, w);
                assert(candidates@.contains(w as usize));
            }
            return ;
        },
    };
    assert(candidates@.contains(v));
    add_counted(sol, v, freq);
    tabu.reset();
    proof {
        sol.lemma_bounds();
        assert(heavy_moved(old(sol), old(freq)@, p, u as int, v as int, sol, freq@));
    }
    tabu.update_tenures(sol.size(), sol.edges(), &p.gamma_target, rng);
}

/// Where some vertex lies outside the subset, some vertex is a heavy
/// candidate.
pub proof fn lemma_heavy_candidate_exists(g: Seq<Seq<bool>>, s: Seq<bool>, h: int, out: int)
    requires
        0 <= out < s.len(),
        !s[out],
    ensures
        exists|v: int| is_heavy_candidate(g, s, h, v),
{
    let least = least_outside(g, s, s.len() as int);
    lemma_least_outside(g, s, s.len() as int, out);
    if conn(g, s, least) < h {
        assert(is_heavy_candidate(g, s, h, least));
    } else {
        assert forall|w: int| 0 <= w < s.len() && !s[w] implies h <= conn(g, s, w) && conn(
            g,
            s,
            least,
        ) <= #[trigger] conn(g, s, w) by {
            lemma_least_outside(g, s, s.len() as int, w);
        }
        assert(is_heavy_candidate(g, s, h, least));
    }
}

/// An outside vertex below `k` with the fewest neighbours inside the subset,
/// or `-1` where every vertex below `k` is a member.
pub open spec fn least_outside(g: Seq<Seq<bool>>, s: Seq<bool>, k: int) -> int
    decreases k,
{
    if k <= 0 {
        -1
    } else {
        let rest = least_outside(g, s, k - 1);
        if s[k - 1] {
            rest
        } else if rest < 0 || conn(g, s, k - 1) < conn(g, s, rest) {
            k - 1
        } else {
            rest
        }
    }
}

/// `least_outside` is an outside vertex with no more inner neighbours than
/// the outside vertex `w`.
pub proof fn lemma_least_outside(g: Seq<Seq<bool>>, s: Seq<bool>, k: int, w: int)
    requires
        0 <= w < k <= s.len(),
        !s[w],
    ensures
        0 <= least_outside(g, s, k) < k,
        !s[least_outside(g, s, k)],
        conn(g, s, least_outside(g, s, k)) <= conn(g, s, w),
    decreases k,
{
    if w < k - 1 {
        lemma_least_outside(g, s, k - 1, w);
    } else {
        lemma_least_outside_range(g, s, k - 1);
    }
}

/// `least_outside` is `-1` or an outside vertex below `k`.
pub proof fn lemma_least_outside_range(g: Seq<Seq<bool>>, s: Seq<bool>, k: int)
    requires
        0 <= k <= s.len(),
    ensures
        -1 <= least_outside(g, s, k) < k || k == 0,
        least_outside(g, s, k) >= 0 ==> !s[least_outside(g, s, k)],
        k == 0 ==> least_outside(g, s, k) == -1,
    decreases k,
{
    if k > 0 {
        lemma_least_outside_range(g, s, k - 1);
    }
}

/// The pairs of a vertex of `set_a` and a vertex of `set_b`, all of them or,
/// with `only_loose`, those that are not joined.
pub fn pairs_where<'g>(
    sol: &Solution<'g>,
    set_a: &Vec<usize>,
    set_b: &Vec<usize>,
    only_loose: bool,
) -> (r: Vec<(usize, usize)>)
    requires
        sol.wf(),
        forall|i: int| 0 <= i < set_a@.len() ==> (#[trigger] set_a@[i]) < sol@.len(),
        forall|i: int| 0 <= i < set_b@.len() ==> (#[trigger] set_b@[i]) < sol@.len(),
    ensures
        forall|t: int|
            0 <= t < r@.len() ==> set_a@.contains((#[trigger] r@[t]).0) && set_b@.contains(r@[t].1)
                && (only_loose ==> !sol.spec_graph()@[r@[t].0 as int][r@[t].1 as int]),
        forall|ia: int, ib: int|
            0 <= ia < set_a@.len() && 0 <= ib < set_b@.len() && (only_loose
                ==> !sol.spec_graph()@[#[trigger] set_a@[ia] as int][#[trigger] set_b@[ib] as int])
                ==> r@.contains((set_a@[ia], set_b@[ib])),
        crate::select::is_increasing(set_a@) && crate::select::is_increasing(set_b@)
            ==> crate::neighbour::pairs_increasing(r@),
{
    let graph = sol.graph();
    let mut out: Vec<(usize, usize)> = Vec::new();
    let mut i: usize = 0;
    let ghost inc = crate::select::is_increasing(set_a@) && crate::select::is_increasing(set_b@);
    while i < set_a.len()
        invariant
            i <= set_a@.len(),
            inc == (crate::select::is_increasing(set_a@) && crate::select::is_increasing(set_b@)),
            inc ==> crate::neighbour::pairs_increasing(out@),
            inc ==> forall|t: int, ia: int|
                0 <= t < out@.len() && i <= ia < set_a@.len() ==> (#[trigger] out@[t]).0
                    < #[trigger] set_a@[ia],
            sol.wf(),
            graph == sol.spec_graph(),
            forall|x: int| 0 <= x < set_a@.len() ==> (#[trigger] set_a@[x]) < sol@.len(),
            forall|x: int| 0 <= x < set_b@.len() ==> (#[trigger] set_b@[x]) < sol@.len(),
            forall|t: int|
                0 <= t < out@.len() ==> set_a@.contains((#[trigger] out@[t]).0) && set_b@.contains(
                    out@[t].1,
                ) && (only_loose ==> !graph@[out@[t].0 as int][out@[t].1 as int]),
            forall|ia: int, ib: int|
                seen(i as int, 0, ia, ib, set_a@.len() as int, set_b@.len() as int) && (only_loose
                    ==> !graph@[#[trigger] set_a@[ia] as int][#[trigger] set_b@[ib] as int])
                    ==> out@.contains((set_a@[ia], set_b@[ib])),
        decreases set_a@.len() - i,
    {
        let u = set_a[i];
        let mut j: usize = 0;
        while j < set_b.len()
            invariant
                i < set_a@.len(),
                j <= set_b@.len(),
                u == set_a@[i as int],
                sol.wf(),
                graph == sol.spec_graph(),
                inc == (crate::select::is_increasing(set_a@) && crate::select::is_increasing(
                    set_b@,
                )),
                inc ==> crate::neighbour::pairs_increasing(out@),
                inc ==> forall|t: int| 0 <= t < out@.len() ==> (#[trigger] out@[t]).0 <= u,
                inc ==> forall|t: int, jb: int|
                    0 <= t < out@.len() && j <= jb < set_b@.len() && (#[trigger] out@[t]).0 == u
                        ==> out@[t].1 < #[trigger] set_b@[jb],
                forall|x: int| 0 <= x < set_a@.len() ==> (#[trigger] set_a@[x]) < sol@.len(),
                forall|x: int| 0 <= x < set_b@.len() ==> (#[trigger] set_b@[x]) < sol@.len(),
                forall|t: int|
                    0 <= t < out@.len() ==> set_a@.contains((#[trigger] out@[t]).0)
                        && set_b@.contains(out@[t].1) && (only_loose ==> !graph@[out@[t].0 as int][out@[t].1 as int]),
                forall|ia: int, ib: int|
                    seen(i as int, j as int, ia, ib, set_a@.len() as int, set_b@.len() as int) && (
                    only_loose ==> !graph@[#[trigger] set_a@[ia] as int][
                    #[trigger] set_b@[ib] as int]) ==> out@.contains((set_a@[ia], set_b@[ib])),
            decreases set_b@.len() - j,
        {
            let v = set_b[j];
            let ghost before = out@;
            proof {
                assert(graph@[u as int].len() == graph@.len());
            }
            let take = !only_loose || !graph.neigh_row(u).get(v);
            if take {
                out.push((u, v));
                proof {
                    lemma_push_contains(before, (u, v));
                    assert(set_a@.contains(u));
                    assert(set_b@.contains(v));
                }
            }
            proof {
                assert forall|t: int| 0 <= t < out@.len() implies set_a@.contains(
                    (#[trigger] out@[t]).0,
                ) && set_b@.contains(out@[t].1) && (only_loose ==> !graph@[out@[t].0 as int][out@[t].1 as int]) by {
                    if t < before.len() {
                        assert(out@[t] == before[t]);
                    }
                }
                assert forall|ia: int, ib: int|
                    seen(i as int, j + 1, ia, ib, set_a@.len() as int, set_b@.len() as int) && (
                    only_loose ==> !graph@[#[trigger] set_a@[ia] as int][
                    #[trigger] set_b@[ib] as int]) implies out@.contains(
                    (set_a@[ia], set_b@[ib]),
                ) by {
                    if ia == i && ib == j {
                        assert(take);
                    } else {
                        assert(seen(
                            i as int,
                            j as int,
                            ia,
                            ib,
                            set_a@.len() as int,
                            set_b@.len() as int,
                        ));
                        assert(before.contains((set_a@[ia], set_b@[ib])));
                    }
                }
            }
            j = j + 1;
        }
        proof {
            assert forall|ia: int, ib: int|
                seen(i + 1, 0, ia, ib, set_a@.len() as int, set_b@.len() as int) implies seen(
                i as int,
                set_b@.len() as int,
                ia,
                ib,
                set_a@.len() as int,
                set_b@.len() as int,
            ) by {}
        }
        i = i + 1;
    }
    proof {
        assert forall|ia: int, ib: int|
            0 <= ia < set_a@.len() && 0 <= ib < set_b@.len() implies seen(
            set_a@.len() as int,
            0,
            ia,
            ib,
            set_a@.len() as int,
            set_b@.len() as int,
        ) by {}
    }
    out
}

/// The swaps from which the light perturbation draws.
pub fn swap_pool<'g>(sol: &Solution<'g>, set_a: &Vec<usize>, set_b: &Vec<usize>) -> (r: Vec<
    (usize, usize),
>)
    requires
        sol.wf(),
        forall|i: int| 0 <= i < set_a@.len() ==> (#[trigger] set_a@[i]) < sol@.len(),
        forall|i: int| 0 <= i < set_b@.len() ==> (#[trigger] set_b@[i]) < sol@.len(),
    ensures
        forall|t: int|
            0 <= t < r@.len() ==> set_a@.contains((#[trigger] r@[t]).0) && set_b@.contains(r@[t].1),
        forall|t: int, ia: int, ib: int|
            0 <= t < r@.len() && 0 <= ia < set_a@.len() && 0 <= ib < set_b@.len()
                && sol.spec_graph()@[(#[trigger] r@[t]).0 as int][r@[t].1 as int]
                ==> sol.spec_graph()@[#[trigger] set_a@[ia] as int][#[trigger] set_b@[ib] as int],
        forall|ia: int, ib: int|
            0 <= ia < set_a@.len() && 0 <= ib < set_b@.len() && !sol.spec_graph()@[
            #[trigger] set_a@[ia] as int][#[trigger] set_b@[ib] as int] ==> r@.contains(
                (set_a@[ia], set_b@[ib]),
            ),
        set_a@.len() > 0 && set_b@.len() > 0 ==> r@.len() > 0,
        crate::select::is_increasing(set_a@) && crate::select::is_increasing(set_b@)
            ==> crate::neighbour::pairs_increasing(r@),
{
    let loose = pairs_where(sol, set_a, set_b, true);
    if loose.len() > 0 {
        return loose;
    }
    let all = pairs_where(sol, set_a, set_b, false);
    proof {
        assert forall|ia: int, ib: int|
            0 <= ia < set_a@.len() && 0 <= ib < set_b@.len() implies sol.spec_graph()@[
        #[trigger] set_a@[ia] as int][#[trigger] set_b@[ib] as int] by {
            if !sol.spec_graph()@[set_a@[ia] as int][set_b@[ib] as int] {
                assert(loose@.contains((set_a@[ia], set_b@[ib])));
                let t = choose|t: int|
                    0 <= t < loose@.len() && loose@[t] == (set_a@[ia], set_b@[ib]);
            }
        }
        if set_a@.len() > 0 && set_b@.len() > 0 {
            assert(all@.contains((set_a@[0], set_b@[0])));
        }
    }
    all
}

/// The state after a light perturbation that swapped the critical member `u`
/// for the critical outside vertex `v`: a pair that is joined is swapped only
/// where every pair of critical vertices is joined; both bars are stamped on
/// memories that hold no other bar.
pub open spec fn mild_moved<'g>(
    sol: &Solution<'g>,
    tabu: &DualTabu,
    freq: Seq<usize>,
    u: int,
    v: int,
    sol_after: &Solution<'g>,
    tabu_after: &DualTabu,
    freq_after: Seq<usize>,
) -> bool {
    &&& in_critical_a(sol, tabu, u)
    &&& in_critical_b(sol, tabu, v)
    &&& sol.spec_graph()@[u][v] ==> forall|a: int, b: int|
        in_critical_a(sol, tabu, a) && in_critical_b(sol, tabu, b) ==> #[trigger] sol.spec_graph()@[a][b]
    &&& sol_after@ == sol@.update(u, false).update(v, true)
    &&& freq_after == counted(counted(freq, u, sol.spec_size() - 1), v, sol.spec_size() as int)
    &&& forall|w: int|
        0 <= w < tabu_after.expire_add().len() ==> tabu_after.expire_add()[w] == if w == u {
            (tabu.spec_iter() + tabu.tenure_add()) as usize
        } else {
            0usize
        }
    &&& forall|w: int|
        0 <= w < tabu_after.expire_rm().len() ==> tabu_after.expire_rm()[w] == if w == v {
            (tabu.spec_iter() + tabu.tenure_rm()) as usize
        } else {
            0usize
        }
}

/// What a light perturbation makes of a solution, its bars and its counters:
/// nothing of a solution of fewer than two vertices; of any other a swap of
/// two critical vertices, or, where no such pair exists, no more than the
/// lifting of every bar.
pub open spec fn mild_outcome<'g>(
    sol: &Solution<'g>,
    tabu: &DualTabu,
    freq: Seq<usize>,
    sol_after: &Solution<'g>,
    tabu_after: &DualTabu,
    freq_after: Seq<usize>,
) -> bool {
    if sol.spec_size() < 2 {
        sol_after@ == sol@ && freq_after == freq && *tabu_after == *tabu
    } else {
        ||| exists|u: int, v: int|
            mild_moved(sol, tabu, freq, u, v, sol_after, tabu_after, freq_after)
        ||| (sol_after@ == sol@ && freq_after == freq && no_bars(tabu_after) && forall|a: int, b: int|
            !(in_critical_a(sol, tabu, a) && in_critical_b(sol, tabu, b)))
    }
}

/// The light perturbation, a critical swap: one critical member is swapped
/// for one critical outside vertex, drawn among the pairs that are not joined
/// where there is such a pair, and among all pairs otherwise. The swap is
/// counted; every older bar is lifted, the two vertices are barred from
/// moving back, and the tenures are drawn afresh. A solution of fewer than
/// two vertices is left alone.
pub fn mild_perturbation<'g>(
    sol: &mut Solution<'g>,
    tabu: &mut DualTabu,
    rng: &mut StdRng,
    p: &Params,
    freq: &mut Vec<usize>,
)
    requires
        old(sol).wf(),
        old(tabu).wf(),
        old(tabu).can_stamp(),
        covers(old(tabu), old(sol)),
        old(freq)@.len() == old(sol)@.len(),
        p.gamma_target.wf(),
        p.gamma_target.num <= u32::MAX,
    ensures
        final(sol).wf(),
        final(sol).spec_graph() == old(sol).spec_graph(),
        final(sol).spec_size() == old(sol).spec_size(),
        final(freq)@.len() == old(freq)@.len(),
        final(tabu).wf(),
        covers(final(tabu), final(sol)),
        final(tabu).spec_iter() == old(tabu).spec_iter(),
        mild_outcome(old(sol), old(tabu), old(freq)@, final(sol), final(tabu), final(freq)@),
        old(sol).spec_size() >= 2 ==> crate::tabu::tenures_drawn(
            final(tabu),
            final(sol).spec_size() as int,
            final(sol).spec_edges() as int,
            p.gamma_target,
        ),
        old(sol).spec_size() >= 2 ==> final(tabu).tenure_add() <= DEFICIT_CAP + spread(
            old(sol).spec_size() as int,
        ) && final(tabu).tenure_rm() <= DEFICIT_CAP + spread(old(sol).spec_size() as int),
{
    let k = sol.size();
    if k < 2 {
        return ;
    }
    let (set_a, set_b) = critical_sets(sol, tabu);
    proof {
        sol.lemma_bounds();
        assert forall|i: int| 0 <= i < set_a@.len() implies (#[trigger] set_a@[i]) < sol@.len() by {
            assert(set_a@.contains(set_a@[i]));
        }
        assert forall|i: int| 0 <= i < set_b@.len() implies (#[trigger] set_b@[i]) < sol@.len() by {
            assert(set_b@.contains(set_b@[i]));
        }
    }
    let pool = swap_pool(sol, &set_a, &set_b);
    let chosen = pick_one(rng, &pool);
    match chosen {
        Some((u, v)) => {
            proof {
                let t = choose|t: int| 0 <= t < pool@.len() && pool@[t] == (u, v);
                assert(set_a@.contains(pool@[t].0) && set_b@.contains(pool@[t].1));
                assert(in_critical_a(sol, tabu, u as int));
                assert(in_critical_b(sol, tabu, v as int));
                if sol.spec_graph()@[u as int][v as int] {
                    assert forall|a: int, b: int|
                        in_critical_a(sol, tabu, a) && in_critical_b(
                            sol,
                            tabu,
                            b,
                        ) implies #[trigger] sol.spec_graph()@[a][b] by {
                        assert(set_a@.contains(a as usize));
                        assert(set_b@.contains(b as usize));
                        let xa = choose|xa: int| 0 <= xa < set_a@.len() && set_a@[xa] == a as usize;
                        let xb = choose|xb: int| 0 <= xb < set_b@.len() && set_b@[xb] == b as usize;
                        assert(sol.spec_graph()@[set_a@[xa] as int][set_b@[xb] as int]);
                    }
                }
            }
            remove_counted(sol, u, freq);
            add_counted(sol, v, freq);
            tabu.reset();
            tabu.forbid_v(v);
            tabu.forbid_u(u);
            assert(mild_moved(old(sol), old(tabu), old(freq)@, u as int, v as int, sol, tabu, freq@));
        },
        None => {
            proof {
                assert forall|a: int, b: int|
                    !(in_critical_a(sol, tabu, a) && in_critical_b(sol, tabu, b)) by {
                    if in_critical_a(sol, tabu, a) && in_critical_b(sol, tabu, b) {
                        assert(crate::neighbour::may_leave(sol, tabu, a));
                        assert(crate::neighbour::may_enter(sol, tabu, b));
                        assert(set_a@.len() > 0);
                    }
                }
            }
            tabu.reset();
        },
    }
    proof {
        sol.lemma_bounds();
    }
    tabu.update_tenures(sol.size(), sol.edges(), &p.gamma_target, rng);
    proof {
        match chosen {
            Some((u, v)) => {
                assert(mild_moved(
                    old(sol),
                    old(tabu),
                    old(freq)@,
                    u as int,
                    v as int,
                    sol,
                    tabu,
                    freq@,
                ));
            },
            None => {
                assert(no_bars(tabu));
                assert(sol@ == old(sol)@ && freq@ == old(freq)@);
            },
        }
    }
}

} // verus!
