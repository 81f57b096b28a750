//! The intensification step: one swap of a member of the solution for a
//! vertex outside it, chosen among the critical vertices on both sides.

use crate::freq::add_counted;
use crate::freq::counted;
use crate::freq::remove_counted;
use crate::induced::conn;
use crate::induced::lemma_induced_bounds;
use crate::induced::lemma_induced_swap;
use crate::induced::swap_gain;
use crate::params::Params;
use crate::ratio::Ratio;
use crate::rng::pick_one;
use crate::solution::density_of;
use crate::solution::Solution;
use crate::tabu::spread;
use crate::tabu::DualTabu;
use crate::tabu::DEFICIT_CAP;
use rand::rngs::StdRng;
use vstd::prelude::*;

verus! {

/// `u` is a member that is free to leave.
pub open spec fn may_leave<'g>(sol: &Solution<'g>, tabu: &DualTabu, u: int) -> bool {
    0 <= u < sol@.len() && sol@[u] && !tabu.tabu_rm(u)
}

/// `v` is outside the solution and free to enter.
pub open spec fn may_enter<'g>(sol: &Solution<'g>, tabu: &DualTabu, v: int) -> bool {
    0 <= v < sol@.len() && !sol@[v] && !tabu.tabu_add(v)
}

/// The number of neighbours that `v` has inside the solution.
pub open spec fn inner<'g>(sol: &Solution<'g>, v: int) -> nat {
    conn(sol.spec_graph()@, sol@, v)
}

/// `d` is the least number of inner neighbours among the members that are
/// free to leave.
pub open spec fn is_min_in<'g>(sol: &Solution<'g>, tabu: &DualTabu, d: int) -> bool {
    &&& exists|u: int| may_leave(sol, tabu, u) && inner(sol, u) == d
    &&& forall|u: int| may_leave(sol, tabu, u) ==> d <= inner(sol, u)
}

/// `d` is the greatest number of inner neighbours among the outside vertices
/// that are free to enter.
pub open spec fn is_max_out<'g>(sol: &Solution<'g>, tabu: &DualTabu, d: int) -> bool {
    &&& exists|v: int| may_enter(sol, tabu, v) && inner(sol, v) == d
    &&& forall|v: int| may_enter(sol, tabu, v) ==> inner(sol, v) <= d
}

/// `u` belongs to the critical set of the solution: a member free to leave
/// with the fewest inner neighbours among such members.
pub open spec fn in_critical_a<'g>(sol: &Solution<'g>, tabu: &DualTabu, u: int) -> bool {
    &&& may_leave(sol, tabu, u)
    &&& forall|w: int| may_leave(sol, tabu, w) ==> inner(sol, u) <= inner(sol, w)
}

/// `v` belongs to the critical set outside the solution: a vertex free to
/// enter with the most inner neighbours among such vertices.
pub open spec fn in_critical_b<'g>(sol: &Solution<'g>, tabu: &DualTabu, v: int) -> bool {
    &&& may_enter(sol, tabu, v)
    &&& forall|w: int| may_enter(sol, tabu, w) ==> inner(sol, w) <= inner(sol, v)
}

/// What the swap of `u` for `v` adds to the induced edges.
pub open spec fn gain_of<'g>(sol: &Solution<'g>, u: int, v: int) -> int {
    swap_gain(sol.spec_graph()@, sol@, u, v)
}

/// The swap of `u` for `v` is tabu: `u` is barred from leaving or `v` from
/// entering.
pub open spec fn pair_tabu(tabu: &DualTabu, u: int, v: int) -> bool {
    tabu.tabu_rm(u) || tabu.tabu_add(v)
}

/// The density of the solution after the swap of `u` for `v`.
pub open spec fn density_after<'g>(sol: &Solution<'g>, u: int, v: int) -> Ratio {
    density_of(sol.spec_size() as int, sol.spec_edges() + gain_of(sol, u, v))
}

/// The swap of `u` for `v` is tabu, and it would lift the density strictly
/// above `best`.
pub open spec fn aspires<'g>(sol: &Solution<'g>, tabu: &DualTabu, best: Ratio, u: int, v: int) -> bool {
    pair_tabu(tabu, u, v) && best.lt(&density_after(sol, u, v))
}

/// The swap of `u` for `v` is not tabu, and it loses no edge.
pub open spec fn plain_ok<'g>(sol: &Solution<'g>, tabu: &DualTabu, u: int, v: int) -> bool {
    !pair_tabu(tabu, u, v) && gain_of(sol, u, v) >= 0
}

/// The tabu memories cover the vertices of the solution.
pub open spec fn covers<'g>(tabu: &DualTabu, sol: &Solution<'g>) -> bool {
    tabu.expire_add().len() == sol@.len() && tabu.expire_rm().len() == sol@.len()
}

/// Every entry of `set` is a member of the solution.
pub open spec fn all_inside<'g>(sol: &Solution<'g>, set: Seq<usize>) -> bool {
    forall|i: int| 0 <= i < set.len() ==> (#[trigger] set[i]) < sol@.len() && sol@[set[i] as int]
}

/// Every entry of `set` is a vertex outside the solution.
pub open spec fn all_outside<'g>(sol: &Solution<'g>, set: Seq<usize>) -> bool {
    forall|i: int| 0 <= i < set.len() ==> (#[trigger] set[i]) < sol@.len() && !sol@[set[i] as int]
}

/// The swap of `u` for `v` is a best choice of the intensification step: both
/// are critical, the swap loses no edge, and no pair of critical vertices
/// gains more.
pub open spec fn is_best_swap<'g>(sol: &Solution<'g>, tabu: &DualTabu, u: int, v: int) -> bool {
    &&& in_critical_a(sol, tabu, u)
    &&& in_critical_b(sol, tabu, v)
    &&& gain_of(sol, u, v) >= 0
    &&& forall|a: int, b: int|
        in_critical_a(sol, tabu, a) && in_critical_b(sol, tabu, b) ==> gain_of(sol, a, b) <= gain_of(
            sol,
            u,
            v,
        )
}

/// Appending an item adds it to a sequence and keeps what was there.
pub proof fn lemma_push_contains<T>(s: Seq<T>, x: T)
    ensures
        forall|y: T| #[trigger] s.push(x).contains(y) <==> s.contains(y) || y == x,
{
    assert forall|y: T| #[trigger] s.push(x).contains(y) <==> s.contains(y) || y == x by {
        if s.contains(y) {
            let i = choose|i: int| 0 <= i < s.len() && s[i] == y;
            assert(s.push(x)[i] == y);
        }
        if y == x {
            assert(s.push(x)[s.len() as int] == x);
        }
        if s.push(x).contains(y) {
            let i = choose|i: int| 0 <= i < s.push(x).len() && s.push(x)[i] == y;
            if i < s.len() {
                assert(s[i] == y);
            }
        }
    }
}

/// The two critical degrees: the least number of inner neighbours among the
/// members free to leave, and the greatest among the outside vertices free to
/// enter. Either is `None` where no vertex qualifies.
pub fn calculate_critical_degrees<'g>(sol: &Solution<'g>, tabu: &DualTabu) -> (r: (
    Option<usize>,
    Option<usize>,
))
    requires
        sol.wf(),
        covers(tabu, sol),
    ensures
        r.0 is Some ==> is_min_in(sol, tabu, r.0->Some_0 as int),
        r.0 is None ==> forall|u: int| !may_leave(sol, tabu, u),
        r.1 is Some ==> is_max_out(sol, tabu, r.1->Some_0 as int),
        r.1 is None ==> forall|v: int| !may_enter(sol, tabu, v),
{
    let n = sol.graph().n();
    let mut min_in: Option<usize> = None;
    let mut max_out: Option<usize> = None;
    let ghost mut low: int = 0;
    let ghost mut high: int = 0;
    let mut v: usize = 0;
    while v < n
        invariant
            v <= n,
            n == sol@.len(),
            sol.wf(),
            covers(tabu, sol),
            min_in is Some ==> 0 <= low < v && may_leave(sol, tabu, low) && inner(sol, low)
                == min_in->Some_0,
            min_in is Some ==> forall|u: int|
                0 <= u < v && may_leave(sol, tabu, u) ==> min_in->Some_0 <= inner(sol, u),
            min_in is None ==> forall|u: int| 0 <= u < v ==> !may_leave(sol, tabu, u),
            max_out is Some ==> 0 <= high < v && may_enter(sol, tabu, high) && inner(sol, high)
                == max_out->Some_0,
            max_out is Some ==> forall|w: int|
                0 <= w < v && may_enter(sol, tabu, w) ==> inner(sol, w) <= max_out->Some_0,
            max_out is None ==> forall|w: int| 0 <= w < v ==> !may_enter(sol, tabu, w),
        decreases n - v,
    {
        if sol.contains(v) {
            if !tabu.is_tabu_v(v) {
                let c = sol.count_connections(v);
                let better = match min_in {
                    Some(m) => c < m,
                    None => true,
                };
                if better {
                    min_in = Some(c);
                    proof {
                        low = v as int;
                    }
                }
            }
        } else {
            if !tabu.is_tabu_u(v) {
                let c = sol.count_connections(v);
                let better = match max_out {
                    Some(m) => c > m,
                    None => true,
                };
                if better {
                    max_out = Some(c);
                    proof {
                        high = v as int;
                    }
                }
            }
        }
        v = v + 1;
    }
    (min_in, max_out)
}

/// The two critical sets for given critical degrees: the members free to
/// leave with exactly `min_in` inner neighbours, and the outside vertices
/// free to enter with exactly `max_out`.
pub fn build_critical_sets<'g>(
    sol: &Solution<'g>,
    tabu: &DualTabu,
    min_in: usize,
    max_out: usize,
) -> (r: (Vec<usize>, Vec<usize>))
    requires
        sol.wf(),
        covers(tabu, sol),
    ensures
        forall|u: usize| #[trigger]
            r.0@.contains(u) <==> (may_leave(sol, tabu, u as int) && inner(sol, u as int) == min_in),
        forall|v: usize| #[trigger]
            r.1@.contains(v) <==> (may_enter(sol, tabu, v as int) && inner(sol, v as int)
                == max_out),
        crate::select::is_increasing(r.0@),
        crate::select::is_increasing(r.1@),
{
    let n = sol.graph().n();
    let mut set_a: Vec<usize> = Vec::new();
    let mut set_b: Vec<usize> = Vec::new();
    let mut v: usize = 0;
    while v < n
        invariant
            v <= n,
            n == sol@.len(),
            sol.wf(),
            covers(tabu, sol),
            forall|u: usize|
                #[trigger] set_a@.contains(u) <==> (u < v && may_leave(sol, tabu, u as int) && inner(
                    sol,
                    u as int,
                ) == min_in),
            forall|w: usize|
                #[trigger] set_b@.contains(w) <==> (w < v && may_enter(sol, tabu, w as int) && inner(
                    sol,
                    w as int,
                ) == max_out),
            forall|i: int| 0 <= i < set_a@.len() ==> set_a@[i] < v,
            forall|i: int| 0 <= i < set_b@.len() ==> set_b@[i] < v,
            crate::select::is_increasing(set_a@),
            crate::select::is_increasing(set_b@),
        decreases n - v,
    {
        let ghost a_before = set_a@;
        let ghost b_before = set_b@;
        let inside = sol.contains(v);
        let free = if inside { !tabu.is_tabu_v(v) } else { !tabu.is_tabu_u(v) };
        let c = sol.count_connections(v);
        if inside && free && c == min_in {
            set_a.push(v);
            proof {
                lemma_push_contains(a_before, v);
            }
        }
        if !inside && free && c == max_out {
            set_b.push(v);
            proof {
                lemma_push_contains(b_before, v);
            }
        }
        proof {
            assert forall|u: usize| #[trigger]
                set_a@.contains(u) <==> (u < v + 1 && may_leave(sol, tabu, u as int) && inner(
                    sol,
                    u as int,
                ) == min_in) by {
                assert(a_before.contains(u) <==> (u < v && may_leave(sol, tabu, u as int) && inner(
                    sol,
                    u as int,
                ) == min_in));
                if inside && free && c == min_in {
                    assert(set_a@ == a_before.push(v));
                    assert(set_a@.contains(u) <==> a_before.contains(u) || u == v);
                } else {
                    assert(set_a@ == a_before);
                }
            }
            assert forall|w: usize| #[trigger]
                set_b@.contains(w) <==> (w < v + 1 && may_enter(sol, tabu, w as int) && inner(
                    sol,
                    w as int,
                ) == max_out) by {
                assert(b_before.contains(w) <==> (w < v && may_enter(sol, tabu, w as int) && inner(
                    sol,
                    w as int,
                ) == max_out));
                if !inside && free && c == max_out {
                    assert(set_b@ == b_before.push(v));
                    assert(set_b@.contains(w) <==> b_before.contains(w) || w == v);
                } else {
                    assert(set_b@ == b_before);
                }
            }
        }
        v = v + 1;
    }
    proof {
        assert forall|u: usize| #[trigger]
            set_a@.contains(u) <==> (may_leave(sol, tabu, u as int) && inner(sol, u as int)
                == min_in) by {
            assert(set_a@.contains(u) <==> (u < v && may_leave(sol, tabu, u as int) && inner(
                sol,
                u as int,
            ) == min_in));
        }
        assert forall|w: usize| #[trigger]
            set_b@.contains(w) <==> (may_enter(sol, tabu, w as int) && inner(sol, w as int)
                == max_out) by {
            assert(set_b@.contains(w) <==> (w < v && may_enter(sol, tabu, w as int) && inner(
                sol,
                w as int,
            ) == max_out));
        }
    }
    (set_a, set_b)
}

/// `set_a` and `set_b` are the two critical sets of the solution, or both are
/// empty because one side has no vertex that is free to move.
pub open spec fn are_critical_sets<'g>(
    sol: &Solution<'g>,
    tabu: &DualTabu,
    set_a: Seq<usize>,
    set_b: Seq<usize>,
) -> bool {
    &&& forall|u: usize| #[trigger] set_a.contains(u) ==> in_critical_a(sol, tabu, u as int)
    &&& forall|v: usize| #[trigger] set_b.contains(v) ==> in_critical_b(sol, tabu, v as int)
    &&& set_a.len() > 0 <==> set_b.len() > 0
    &&& set_a.len() > 0 <==> (exists|u: int| may_leave(sol, tabu, u)) && (exists|v: int|
        may_enter(sol, tabu, v))
    &&& set_a.len() > 0 ==> forall|u: usize|
        in_critical_a(sol, tabu, u as int) ==> #[trigger] set_a.contains(u)
    &&& set_b.len() > 0 ==> forall|v: usize|
        in_critical_b(sol, tabu, v as int) ==> #[trigger] set_b.contains(v)
}

/// The two critical sets of the solution under the current tabu state. Where
/// one side has no vertex that is free to move, both sets come back empty.
pub fn critical_sets<'g>(sol: &Solution<'g>, tabu: &DualTabu) -> (r: (Vec<usize>, Vec<usize>))
    requires
        sol.wf(),
        covers(tabu, sol),
    ensures
        are_critical_sets(sol, tabu, r.0@, r.1@),
        crate::select::is_increasing(r.0@),
        crate::select::is_increasing(r.1@),
{
    let (min_in, max_out) = calculate_critical_degrees(sol, tabu);
    match (min_in, max_out) {
        (Some(low), Some(high)) => {
            let sets = build_critical_sets(sol, tabu, low, high);
            proof {
                sol.lemma_bounds();
                let u0 = choose|u: int| may_leave(sol, tabu, u) && inner(sol, u) == low;
                assert(sets.0@.contains(u0 as usize));
                let v0 = choose|v: int| may_enter(sol, tabu, v) && inner(sol, v) == high;
                assert(sets.1@.contains(v0 as usize));
                assert forall|u: usize| in_critical_a(sol, tabu, u as int) implies sets.0@.contains(
                    u,
                ) by {
                    assert(inner(sol, u as int) <= inner(sol, u0));
                }
                assert forall|v: usize| in_critical_b(sol, tabu, v as int) implies sets.1@.contains(
                    v,
                ) by {
                    assert(inner(sol, v0) <= inner(sol, v as int));
                }
            }
            sets
        },
        _ => {
            let a: Vec<usize> = Vec::new();
            let b: Vec<usize> = Vec::new();
            assert(a@.len() == 0 && b@.len() == 0);
            (a, b)
        },
    }
}

/// What one scan over the candidate swaps found: the tabu swap that aspires
/// with the greatest gain, and the swaps outside the tabu that tie for the
/// greatest gain without losing an edge.
pub struct SwapRanking {
    pub aspiring: Option<(usize, usize)>,
    pub ties: Vec<(usize, usize)>,
}

/// `aspiring` and `ties` rank the swaps of a vertex of `a` for a vertex of
/// `b`: `aspiring` is a tabu swap that aspires, with the greatest gain among
/// those, and is `None` only where no swap aspires; `ties` holds exactly the
/// swaps outside the tabu that lose no edge and gain the most.
pub open spec fn ranks<'g>(
    sol: &Solution<'g>,
    tabu: &DualTabu,
    a: Seq<usize>,
    b: Seq<usize>,
    best: Ratio,
    aspiring: Option<(usize, usize)>,
    ties: Seq<(usize, usize)>,
) -> bool {
    &&& aspiring is Some ==> a.contains(aspiring->Some_0.0) && b.contains(aspiring->Some_0.1)
        && aspires(sol, tabu, best, aspiring->Some_0.0 as int, aspiring->Some_0.1 as int)
    &&& forall|ia: int, ib: int|
        0 <= ia < a.len() && 0 <= ib < b.len() && aspires(
            sol,
            tabu,
            best,
            #[trigger] a[ia] as int,
            #[trigger] b[ib] as int,
        ) ==> aspiring is Some && gain_of(sol, a[ia] as int, b[ib] as int) <= gain_of(
            sol,
            aspiring->Some_0.0 as int,
            aspiring->Some_0.1 as int,
        )
    &&& forall|t: int|
        0 <= t < ties.len() ==> a.contains((#[trigger] ties[t]).0) && b.contains(ties[t].1)
            && plain_ok(sol, tabu, ties[t].0 as int, ties[t].1 as int)
    &&& forall|ia: int, ib: int|
        0 <= ia < a.len() && 0 <= ib < b.len() && plain_ok(
            sol,
            tabu,
            #[trigger] a[ia] as int,
            #[trigger] b[ib] as int,
        ) ==> ties.len() > 0
    &&& forall|ia: int, ib: int, t: int|
        0 <= ia < a.len() && 0 <= ib < b.len() && 0 <= t < ties.len() && plain_ok(
            sol,
            tabu,
            #[trigger] a[ia] as int,
            #[trigger] b[ib] as int,
        ) ==> gain_of(sol, a[ia] as int, b[ib] as int) <= gain_of(
            sol,
            (#[trigger] ties[t]).0 as int,
            ties[t].1 as int,
        )
    &&& forall|ia: int, ib: int, t: int|
        0 <= ia < a.len() && 0 <= ib < b.len() && 0 <= t < ties.len() && plain_ok(
            sol,
            tabu,
            #[trigger] a[ia] as int,
            #[trigger] b[ib] as int,
        ) && gain_of(sol, a[ia] as int, b[ib] as int) == gain_of(
            sol,
            (#[trigger] ties[t]).0 as int,
            ties[t].1 as int,
        ) ==> ties.contains((a[ia], b[ib]))
}

/// The pairs of `ties` are in increasing order, by the first vertex and then
/// by the second, none twice.
pub open spec fn pairs_increasing(ties: Seq<(usize, usize)>) -> bool {
    forall|s: int, t: int|
        0 <= s < t < ties.len() ==> (#[trigger] ties[s]).0 < (#[trigger] ties[t]).0 || (ties[s].0
            == ties[t].0 && ties[s].1 < ties[t].1)
}

/// The pair at `(ia, ib)` comes before the pair at `(i, j)` in the scan over
/// all pairs, row by row.
pub open spec fn seen(i: int, j: int, ia: int, ib: int, rows: int, cols: int) -> bool {
    0 <= ia < rows && 0 <= ib < cols && (ia < i || (ia == i && ib < j))
}

/// The values kept by the scan.
pub struct ScanState {
    pub aspiring: Option<(usize, usize)>,
    pub aspiring_gain: int,
    pub best_plain: int,
    pub ties: Seq<(usize, usize)>,
}

/// The values kept by the scan account for exactly the pairs before
/// `(i, j)`.
#[verifier::opaque]
pub open spec fn scan_state<'g>(
    sol: &Solution<'g>,
    tabu: &DualTabu,
    a: Seq<usize>,
    b: Seq<usize>,
    best: Ratio,
    i: int,
    j: int,
    st: ScanState,
) -> bool {
    &&& st.aspiring is Some ==> a.contains(st.aspiring->Some_0.0) && b.contains(
        st.aspiring->Some_0.1,
    ) && aspires(sol, tabu, best, st.aspiring->Some_0.0 as int, st.aspiring->Some_0.1 as int)
        && st.aspiring_gain == gain_of(
        sol,
        st.aspiring->Some_0.0 as int,
        st.aspiring->Some_0.1 as int,
    )
    &&& forall|ia: int, ib: int|
        seen(i, j, ia, ib, a.len() as int, b.len() as int) && aspires(
            sol,
            tabu,
            best,
            #[trigger] a[ia] as int,
            #[trigger] b[ib] as int,
        ) ==> st.aspiring is Some && gain_of(sol, a[ia] as int, b[ib] as int) <= st.aspiring_gain
    &&& st.best_plain >= -1
    &&& (st.ties.len() > 0 <==> st.best_plain >= 0)
    &&& forall|t: int|
        0 <= t < st.ties.len() ==> a.contains((#[trigger] st.ties[t]).0) && b.contains(st.ties[t].1)
            && plain_ok(sol, tabu, st.ties[t].0 as int, st.ties[t].1 as int) && gain_of(
            sol,
            st.ties[t].0 as int,
            st.ties[t].1 as int,
        ) == st.best_plain
    &&& forall|ia: int, ib: int|
        seen(i, j, ia, ib, a.len() as int, b.len() as int) && plain_ok(
            sol,
            tabu,
            #[trigger] a[ia] as int,
            #[trigger] b[ib] as int,
        ) ==> gain_of(sol, a[ia] as int, b[ib] as int) <= st.best_plain
    &&& forall|ia: int, ib: int|
        seen(i, j, ia, ib, a.len() as int, b.len() as int) && plain_ok(
            sol,
            tabu,
            #[trigger] a[ia] as int,
            #[trigger] b[ib] as int,
        ) && gain_of(sol, a[ia] as int, b[ib] as int) == st.best_plain ==> st.ties.contains(
            (a[ia], b[ib]),
        )
}

/// Before the first pair nothing is kept.
proof fn lemma_scan_start<'g>(
    sol: &Solution<'g>,
    tabu: &DualTabu,
    a: Seq<usize>,
    b: Seq<usize>,
    best: Ratio,
)
    ensures
        scan_state(
            sol,
            tabu,
            a,
            b,
            best,
            0,
            0,
            ScanState { aspiring: None, aspiring_gain: 0, best_plain: -1, ties: Seq::empty() },
        ),
{
    reveal(scan_state);
}

/// A pair that neither aspires beyond what is kept nor reaches the best plain
/// gain leaves the kept values as they are.
proof fn lemma_scan_pass<'g>(
    sol: &Solution<'g>,
    tabu: &DualTabu,
    a: Seq<usize>,
    b: Seq<usize>,
    best: Ratio,
    i: int,
    j: int,
    st: ScanState,
)
    requires
        0 <= i < a.len(),
        0 <= j < b.len(),
        scan_state(sol, tabu, a, b, best, i, j, st),
        aspires(sol, tabu, best, a[i] as int, b[j] as int) ==> st.aspiring is Some && gain_of(
            sol,
            a[i] as int,
            b[j] as int,
        ) <= st.aspiring_gain,
        plain_ok(sol, tabu, a[i] as int, b[j] as int) ==> gain_of(sol, a[i] as int, b[j] as int)
            < st.best_plain,
    ensures
        scan_state(sol, tabu, a, b, best, i, j + 1, st),
{
    reveal(scan_state);
    let rows = a.len() as int;
    let cols = b.len() as int;
    assert forall|ia: int, ib: int| seen(i, j + 1, ia, ib, rows, cols) implies seen(
        i,
        j,
        ia,
        ib,
        rows,
        cols,
    ) || (ia == i && ib == j) by {}
}

/// A tabu pair that aspires with more gain than what is kept takes its
/// place.
proof fn lemma_scan_aspire<'g>(
    sol: &Solution<'g>,
    tabu: &DualTabu,
    a: Seq<usize>,
    b: Seq<usize>,
    best: Ratio,
    i: int,
    j: int,
    st: ScanState,
)
    requires
        0 <= i < a.len(),
        0 <= j < b.len(),
        scan_state(sol, tabu, a, b, best, i, j, st),
        aspires(sol, tabu, best, a[i] as int, b[j] as int),
        st.aspiring is Some ==> gain_of(sol, a[i] as int, b[j] as int) > st.aspiring_gain,
    ensures
        scan_state(
            sol,
            tabu,
            a,
            b,
            best,
            i,
            j + 1,
            ScanState {
                aspiring: Some((a[i], b[j])),
                aspiring_gain: gain_of(sol, a[i] as int, b[j] as int),
                ..st
            },
        ),
{
    reveal(scan_state);
    let rows = a.len() as int;
    let cols = b.len() as int;
    assert(a.contains(a[i]));
    assert(b.contains(b[j]));
    assert forall|ia: int, ib: int| seen(i, j + 1, ia, ib, rows, cols) implies seen(
        i,
        j,
        ia,
        ib,
        rows,
        cols,
    ) || (ia == i && ib == j) by {}
}

/// A pair outside the tabu with more gain than every pair before starts the
/// list of ties anew.
proof fn lemma_scan_lead<'g>(
    sol: &Solution<'g>,
    tabu: &DualTabu,
    a: Seq<usize>,
    b: Seq<usize>,
    best: Ratio,
    i: int,
    j: int,
    st: ScanState,
)
    requires
        0 <= i < a.len(),
        0 <= j < b.len(),
        scan_state(sol, tabu, a, b, best, i, j, st),
        plain_ok(sol, tabu, a[i] as int, b[j] as int),
        gain_of(sol, a[i] as int, b[j] as int) > st.best_plain,
    ensures
        scan_state(
            sol,
            tabu,
            a,
            b,
            best,
            i,
            j + 1,
            ScanState {
                best_plain: gain_of(sol, a[i] as int, b[j] as int),
                ties: Seq::empty().push((a[i], b[j])),
                ..st
            },
        ),
{
    reveal(scan_state);
    let rows = a.len() as int;
    let cols = b.len() as int;
    let ties = Seq::<(usize, usize)>::empty().push((a[i], b[j]));
    assert(a.contains(a[i]));
    assert(b.contains(b[j]));
    assert(ties[0] == (a[i], b[j]));
    assert(ties.contains((a[i], b[j])));
    assert forall|ia: int, ib: int| seen(i, j + 1, ia, ib, rows, cols) implies seen(
        i,
        j,
        ia,
        ib,
        rows,
        cols,
    ) || (ia == i && ib == j) by {}
}

/// A pair outside the tabu that ties with the best gain so far joins the
/// list.
proof fn lemma_scan_tie<'g>(
    sol: &Solution<'g>,
    tabu: &DualTabu,
    a: Seq<usize>,
    b: Seq<usize>,
    best: Ratio,
    i: int,
    j: int,
    st: ScanState,
)
    requires
        0 <= i < a.len(),
        0 <= j < b.len(),
        scan_state(sol, tabu, a, b, best, i, j, st),
        plain_ok(sol, tabu, a[i] as int, b[j] as int),
        gain_of(sol, a[i] as int, b[j] as int) == st.best_plain,
    ensures
        scan_state(
            sol,
            tabu,
            a,
            b,
            best,
            i,
            j + 1,
            ScanState { ties: st.ties.push((a[i], b[j])), ..st },
        ),
{
    reveal(scan_state);
    let rows = a.len() as int;
    let cols = b.len() as int;
    let ties = st.ties.push((a[i], b[j]));
    lemma_push_contains(st.ties, (a[i], b[j]));
    assert(a.contains(a[i]));
    assert(b.contains(b[j]));
    assert forall|ia: int, ib: int| seen(i, j + 1, ia, ib, rows, cols) implies seen(
        i,
        j,
        ia,
        ib,
        rows,
        cols,
    ) || (ia == i && ib == j) by {}
    assert forall|t: int| 0 <= t < ties.len() implies a.contains((#[trigger] ties[t]).0)
        && b.contains(ties[t].1) && plain_ok(sol, tabu, ties[t].0 as int, ties[t].1 as int)
        && gain_of(sol, ties[t].0 as int, ties[t].1 as int) == st.best_plain by {
        if t < st.ties.len() {
            assert(ties[t] == st.ties[t]);
        }
    }
}

/// The end of one row is the start of the next.
proof fn lemma_scan_next_row<'g>(
    sol: &Solution<'g>,
    tabu: &DualTabu,
    a: Seq<usize>,
    b: Seq<usize>,
    best: Ratio,
    i: int,
    st: ScanState,
)
    requires
        0 <= i < a.len(),
        scan_state(sol, tabu, a, b, best, i, b.len() as int, st),
    ensures
        scan_state(sol, tabu, a, b, best, i + 1, 0, st),
{
    reveal(scan_state);
    let rows = a.len() as int;
    let cols = b.len() as int;
    assert forall|ia: int, ib: int| seen(i + 1, 0, ia, ib, rows, cols) implies seen(
        i,
        cols,
        ia,
        ib,
        rows,
        cols,
    ) by {}
}

/// After the last row the kept values rank all pairs.
proof fn lemma_scan_done<'g>(
    sol: &Solution<'g>,
    tabu: &DualTabu,
    a: Seq<usize>,
    b: Seq<usize>,
    best: Ratio,
    st: ScanState,
)
    requires
        scan_state(sol, tabu, a, b, best, a.len() as int, 0, st),
    ensures
        ranks(sol, tabu, a, b, best, st.aspiring, st.ties),
{
    reveal(scan_state);
    let rows = a.len() as int;
    let cols = b.len() as int;
    assert forall|ia: int, ib: int| 0 <= ia < rows && 0 <= ib < cols implies seen(
        rows,
        0,
        ia,
        ib,
        rows,
        cols,
    ) by {}
}

/// Ranks the swaps of a vertex of `set_a` for a vertex of `set_b`.
///
/// A tabu swap is kept only if it would lift the density strictly above
/// `best`, and of those one with the greatest gain is kept. Of the other
/// swaps, those that lose no edge and reach the greatest gain are listed.
pub fn rank_swaps<'g>(
    sol: &Solution<'g>,
    tabu: &DualTabu,
    set_a: &Vec<usize>,
    set_b: &Vec<usize>,
    best: &Ratio,
) -> (r: SwapRanking)
    requires
        sol.wf(),
        covers(tabu, sol),
        all_inside(sol, set_a@),
        all_outside(sol, set_b@),
    ensures
        ranks(sol, tabu, set_a@, set_b@, *best, r.aspiring, r.ties@),
        crate::select::is_increasing(set_a@) && crate::select::is_increasing(set_b@)
            ==> pairs_increasing(r.ties@),
{
    let k = sol.size();
    let e = sol.edges();
    let n = sol.graph().n();
    let ghost inc = crate::select::is_increasing(set_a@) && crate::select::is_increasing(set_b@);
    let mut aspiring: Option<(usize, usize)> = None;
    let mut aspiring_gain: i64 = 0;
    let mut best_plain: i64 = -1;
    let mut ties: Vec<(usize, usize)> = Vec::new();
    let ghost mut st = ScanState {
        aspiring: None,
        aspiring_gain: 0,
        best_plain: -1,
        ties: Seq::empty(),
    };
    proof {
        sol.lemma_bounds();
        crate::graph::lemma_square_bounds_row(n);
        lemma_scan_start(sol, tabu, set_a@, set_b@, *best);
    }
    let mut i: usize = 0;
    while i < set_a.len()
        invariant
            i <= set_a@.len(),
            sol.wf(),
            covers(tabu, sol),
            all_inside(sol, set_a@),
            all_outside(sol, set_b@),
            k == sol.spec_size(),
            e == sol.spec_edges(),
            sol@.len() <= 0xFFFF_FFFF,
            st.aspiring == aspiring,
            st.aspiring is Some ==> st.aspiring_gain == aspiring_gain,
            st.best_plain == best_plain,
            st.ties == ties@,
            scan_state(sol, tabu, set_a@, set_b@, *best, i as int, 0, st),
            inc == (crate::select::is_increasing(set_a@) && crate::select::is_increasing(set_b@)),
            inc ==> pairs_increasing(ties@),
            inc ==> forall|t: int, ia: int|
                0 <= t < ties@.len() && i <= ia < set_a@.len() ==> (#[trigger] ties@[t]).0
                    < #[trigger] set_a@[ia],
        decreases set_a@.len() - i,
    {
        let u = set_a[i];
        let loss = sol.count_connections(u);
        let mut j: usize = 0;
        while j < set_b.len()
            invariant
                i < set_a@.len(),
                j <= set_b@.len(),
                u == set_a@[i as int],
                loss == inner(sol, u as int),
                loss <= sol.spec_size(),
                sol.wf(),
                covers(tabu, sol),
                all_inside(sol, set_a@),
                all_outside(sol, set_b@),
                k == sol.spec_size(),
                e == sol.spec_edges(),
                sol@.len() <= 0xFFFF_FFFF,
                st.aspiring == aspiring,
                st.aspiring is Some ==> st.aspiring_gain == aspiring_gain,
                st.best_plain == best_plain,
                st.ties == ties@,
                scan_state(sol, tabu, set_a@, set_b@, *best, i as int, j as int, st),
                inc == (crate::select::is_increasing(set_a@) && crate::select::is_increasing(
                    set_b@,
                )),
                inc ==> pairs_increasing(ties@),
                inc ==> forall|t: int| 0 <= t < ties@.len() ==> (#[trigger] ties@[t]).0 <= u,
                inc ==> forall|t: int, jb: int|
                    0 <= t < ties@.len() && j <= jb < set_b@.len() && (#[trigger] ties@[t]).0 == u
                        ==> ties@[t].1 < #[trigger] set_b@[jb],
            decreases set_b@.len() - j,
        {
            let v = set_b[j];
            let gain = sol.count_connections(v);
            let joined = sol.graph().neigh_row(u).get(v);
            proof {
                sol.lemma_bounds();
                lemma_induced_swap(sol.spec_graph()@, sol@, u as int, v as int);
                lemma_induced_bounds(
                    sol.spec_graph()@,
                    sol@.update(u as int, false).update(v as int, true),
                );
                assert(sol.spec_graph()@[u as int].len() == sol@.len());
            }
            let delta: i64 = gain as i64 - loss as i64 - (if joined { 1i64 } else { 0i64 });
            assert(delta == gain_of(sol, u as int, v as int));
            let tabu_move = tabu.is_tabu_v(u) || tabu.is_tabu_u(v);
            assert(tabu_move == pair_tabu(tabu, u as int, v as int));
            if tabu_move {
                let after = if k < 2 {
                    Ratio { num: 0, den: 1 }
                } else {
                    let edges_after: u64 = (e as i128 + delta as i128) as u64;
                    Ratio { num: 2 * edges_after, den: (k * (k - 1)) as u64 }
                };
                assert(after == density_after(sol, u as int, v as int));
                let lifts = after.greater_than(best);
                let take = lifts && match aspiring {
                    Some(_) => delta > aspiring_gain,
                    None => true,
                };
                if take {
                    proof {
                        lemma_scan_aspire(sol, tabu, set_a@, set_b@, *best, i as int, j as int, st);
                        st = ScanState {
                            aspiring: Some((u, v)),
                            aspiring_gain: delta as int,
                            ..st
                        };
                    }
                    aspiring = Some((u, v));
                    aspiring_gain = delta;
                } else {
                    proof {
                        lemma_scan_pass(sol, tabu, set_a@, set_b@, *best, i as int, j as int, st);
                    }
                }
            } else if delta >= 0 && delta > best_plain {
                proof {
                    lemma_scan_lead(sol, tabu, set_a@, set_b@, *best, i as int, j as int, st);
                    st = ScanState {
                        best_plain: delta as int,
                        ties: Seq::empty().push((u, v)),
                        ..st
                    };
                }
                best_plain = delta;
                ties = Vec::new();
                ties.push((u, v));
            } else if delta >= 0 && delta == best_plain {
                proof {
                    lemma_scan_tie(sol, tabu, set_a@, set_b@, *best, i as int, j as int, st);
                    st = ScanState { ties: st.ties.push((u, v)), ..st };
                }
                ties.push((u, v));
            } else {
                proof {
                    lemma_scan_pass(sol, tabu, set_a@, set_b@, *best, i as int, j as int, st);
                }
            }
            j = j + 1;
        }
        proof {
            lemma_scan_next_row(sol, tabu, set_a@, set_b@, *best, i as int, st);
        }
        i = i + 1;
    }
    proof {
        lemma_scan_done(sol, tabu, set_a@, set_b@, *best, st);
    }
    SwapRanking { aspiring, ties }
}

/// The state after the swap of `u` for `v`: the membership row, the frequency
/// memory after the counted exit and the counted entry, and the two stamps.
pub open spec fn swapped<'g>(
    sol: &Solution<'g>,
    tabu: &DualTabu,
    freq: Seq<usize>,
    u: int,
    v: int,
    sol_after: &Solution<'g>,
    tabu_after: &DualTabu,
    freq_after: Seq<usize>,
) -> bool {
    &&& sol_after@ == sol@.update(u, false).update(v, true)
    &&& sol_after.spec_edges() == sol.spec_edges() + gain_of(sol, u, v)
    &&& freq_after == counted(counted(freq, u, sol.spec_size() - 1), v, sol.spec_size() as int)
    &&& tabu_after.expire_add() == tabu.expire_add().update(
        u,
        (tabu.spec_iter() + tabu.tenure_add()) as usize,
    )
    &&& tabu_after.expire_rm() == tabu.expire_rm().update(
        v,
        (tabu.spec_iter() + tabu.tenure_rm()) as usize,
    )
}

/// Over the critical sets no swap is tabu: nothing aspires, every listed tie
/// is a best swap, and an empty list means that every swap of two critical
/// vertices loses an edge.
pub proof fn lemma_ranking_of_critical<'g>(
    sol: &Solution<'g>,
    tabu: &DualTabu,
    a: Seq<usize>,
    b: Seq<usize>,
    best: Ratio,
    aspiring: Option<(usize, usize)>,
    ties: Seq<(usize, usize)>,
)
    requires
        sol.wf(),
        are_critical_sets(sol, tabu, a, b),
        ranks(sol, tabu, a, b, best, aspiring, ties),
    ensures
        aspiring is None,
        forall|t: int|
            0 <= t < ties.len() ==> is_best_swap(
                sol,
                tabu,
                (#[trigger] ties[t]).0 as int,
                ties[t].1 as int,
            ),
        ties.len() == 0 ==> forall|u: int, v: int|
            in_critical_a(sol, tabu, u) && in_critical_b(sol, tabu, v) ==> gain_of(sol, u, v) < 0,
{
    sol.lemma_bounds();
    if aspiring is Some {
        assert(in_critical_a(sol, tabu, aspiring->Some_0.0 as int));
        assert(in_critical_b(sol, tabu, aspiring->Some_0.1 as int));
        assert(false);
    }
    assert forall|t: int| 0 <= t < ties.len() implies is_best_swap(
        sol,
        tabu,
        (#[trigger] ties[t]).0 as int,
        ties[t].1 as int,
    ) by {
        let u = ties[t].0;
        let v = ties[t].1;
        assert(a.contains(u) && b.contains(v));
        assert(in_critical_a(sol, tabu, u as int));
        assert(in_critical_b(sol, tabu, v as int));
        assert forall|x: int, y: int|
            in_critical_a(sol, tabu, x) && in_critical_b(sol, tabu, y) implies gain_of(sol, x, y)
            <= gain_of(sol, u as int, v as int) by {
            assert(a.contains(x as usize));
            assert(b.contains(y as usize));
            let xa = choose|xa: int| 0 <= xa < a.len() && a[xa] == x as usize;
            let xb = choose|xb: int| 0 <= xb < b.len() && b[xb] == y as usize;
            if gain_of(sol, x, y) >= 0 {
                assert(plain_ok(sol, tabu, a[xa] as int, b[xb] as int));
            }
        }
    }
    if ties.len() == 0 {
        assert forall|u: int, v: int|
            in_critical_a(sol, tabu, u) && in_critical_b(sol, tabu, v) implies gain_of(sol, u, v)
            < 0 by {
            if a.len() > 0 {
                assert(a.contains(u as usize));
                assert(b.contains(v as usize));
                let xa = choose|xa: int| 0 <= xa < a.len() && a[xa] == u as usize;
                let xb = choose|xb: int| 0 <= xb < b.len() && b[xb] == v as usize;
                if gain_of(sol, u, v) >= 0 {
                    assert(plain_ok(sol, tabu, a[xa] as int, b[xb] as int));
                }
            }
        }
    }
}

/// One intensification step.
///
/// Among the swaps of a critical member for a critical outside vertex, a tabu
/// swap that would lift the density above `best_global_rho` goes first;
/// otherwise one of the swaps that lose no edge and gain the most is drawn.
/// A swap that is made goes through the counted helpers and bars its two
/// vertices from moving back. Whether or not a swap is made, the step counter
/// advances by one and the tenures are drawn afresh.
pub fn improve_once<'g>(
    sol: &mut Solution<'g>,
    tabu: &mut DualTabu,
    best_global_rho: &Ratio,
    freq: &mut Vec<usize>,
    p: &Params,
    rng: &mut StdRng,
) -> (moved: bool)
    requires
        old(sol).wf(),
        old(tabu).wf(),
        old(tabu).can_stamp(),
        covers(old(tabu), old(sol)),
        old(freq)@.len() == old(sol)@.len(),
        p.gamma_target.wf(),
        p.gamma_target.num <= u32::MAX,
    ensures
        final(sol).wf(),
        final(sol).spec_graph() == old(sol).spec_graph(),
        final(sol).spec_size() == old(sol).spec_size(),
        final(freq)@.len() == old(freq)@.len(),
        final(tabu).wf(),
        covers(final(tabu), final(sol)),
        final(tabu).spec_iter() == old(tabu).spec_iter() + 1,
        final(tabu).tenure_add() <= DEFICIT_CAP + spread(old(sol).spec_size() as int),
        final(tabu).tenure_rm() <= DEFICIT_CAP + spread(old(sol).spec_size() as int),
        crate::tabu::tenures_drawn(
            final(tabu),
            final(sol).spec_size() as int,
            final(sol).spec_edges() as int,
            p.gamma_target,
        ),
        !moved ==> final(sol)@ == old(sol)@ && final(freq)@ == old(freq)@ && final(tabu).expire_add()
            == old(tabu).expire_add() && final(tabu).expire_rm() == old(tabu).expire_rm(),
        !moved ==> forall|u: int, v: int|
            in_critical_a(old(sol), old(tabu), u) && in_critical_b(old(sol), old(tabu), v)
                ==> gain_of(old(sol), u, v) < 0,
        moved ==> exists|u: int, v: int|
            is_best_swap(old(sol), old(tabu), u, v) && swapped(
                old(sol),
                old(tabu),
                old(freq)@,
                u,
                v,
                final(sol),
                final(tabu),
                final(freq)@,
            ),
        moved ==> final(sol).spec_edges() >= old(sol).spec_edges(),
{
    let (set_a, set_b) = critical_sets(sol, tabu);
    proof {
        assert(all_inside(sol, set_a@)) by {
            assert forall|i: int| 0 <= i < set_a@.len() implies (#[trigger] set_a@[i]) < sol@.len()
                && sol@[set_a@[i] as int] by {
                assert(set_a@.contains(set_a@[i]));
            }
        }
        assert(all_outside(sol, set_b@)) by {
            assert forall|i: int| 0 <= i < set_b@.len() implies (#[trigger] set_b@[i]) < sol@.len()
                && !sol@[set_b@[i] as int] by {
                assert(set_b@.contains(set_b@[i]));
            }
        }
    }
    let ranking = rank_swaps(sol, tabu, &set_a, &set_b, best_global_rho);
    let chosen: Option<(usize, usize)> = match ranking.aspiring {
        Some(pair) => Some(pair),
        None => pick_one(rng, &ranking.ties),
    };
    proof {
        sol.lemma_bounds();
        lemma_ranking_of_critical(
            sol,
            tabu,
            set_a@,
            set_b@,
            *best_global_rho,
            ranking.aspiring,
            ranking.ties@,
        );
    }
    let mut did_swap = false;
    if let Some((u, v)) = chosen {
        proof {
            let t = choose|t: int| 0 <= t < ranking.ties@.len() && ranking.ties@[t] == (u, v);
            assert(is_best_swap(sol, tabu, ranking.ties@[t].0 as int, ranking.ties@[t].1 as int));
            lemma_induced_swap(sol.spec_graph()@, sol@, u as int, v as int);
        }
        remove_counted(sol, u, freq);
        add_counted(sol, v, freq);
        tabu.forbid_u(u);
        tabu.forbid_v(v);
        did_swap = true;
        assert(swapped(old(sol), old(tabu), old(freq)@, u as int, v as int, sol, tabu, freq@));
    }
    tabu.step();
    proof {
        sol.lemma_bounds();
    }
    tabu.update_tenures(sol.size(), sol.edges(), &p.gamma_target, rng);
    did_swap
}

} // verus!
