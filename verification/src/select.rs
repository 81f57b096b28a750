//! Scans over the vertices outside a solution, by the number of neighbours
//! that each has inside it.

use crate::neighbour::inner;
use crate::neighbour::lemma_push_contains;
use crate::solution::Solution;
use vstd::prelude::*;

verus! {

/// `v` is a vertex outside the solution.
pub open spec fn is_outside<'g>(sol: &Solution<'g>, v: int) -> bool {
    0 <= v < sol@.len() && !sol@[v]
}

/// The entries of `s` are in increasing order, none twice.
pub open spec fn is_increasing(s: Seq<usize>) -> bool {
    forall|i: int, j: int| 0 <= i < j < s.len() ==> s[i] < s[j]
}

/// `lo` and `hi` are the least and the greatest number of inner neighbours
/// among the vertices outside the solution.
pub open spec fn are_outside_extremes<'g>(sol: &Solution<'g>, lo: int, hi: int) -> bool {
    &&& exists|v: int| is_outside(sol, v) && inner(sol, v) == lo
    &&& exists|v: int| is_outside(sol, v) && inner(sol, v) == hi
    &&& forall|v: int| is_outside(sol, v) ==> lo <= inner(sol, v) <= hi
}

/// The least and the greatest number of inner neighbours among the vertices
/// outside the solution, or `None` where every vertex is a member.
pub fn outside_extremes<'g>(sol: &Solution<'g>) -> (r: Option<(usize, usize)>)
    requires
        sol.wf(),
    ensures
        r is None ==> forall|v: int| !is_outside(sol, v),
        r is Some ==> are_outside_extremes(sol, r->Some_0.0 as int, r->Some_0.1 as int),
        r is Some ==> r->Some_0.1 <= sol.spec_size(),
{
    let n = sol.graph().n();
    let mut best: Option<(usize, usize)> = None;
    let ghost mut at_lo: int = 0;
    let ghost mut at_hi: int = 0;
    let mut v: usize = 0;
    while v < n
        invariant
            v <= n,
            n == sol@.len(),
            sol.wf(),
            best is None ==> forall|w: int| 0 <= w < v ==> !is_outside(sol, w),
            best is Some ==> 0 <= at_lo < v && is_outside(sol, at_lo) && inner(sol, at_lo)
                == best->Some_0.0,
            best is Some ==> 0 <= at_hi < v && is_outside(sol, at_hi) && inner(sol, at_hi)
                == best->Some_0.1,
            best is Some ==> forall|w: int|
                0 <= w < v && is_outside(sol, w) ==> best->Some_0.0 <= inner(sol, w)
                    <= best->Some_0.1,
            best is Some ==> best->Some_0.1 <= sol.spec_size(),
        decreases n - v,
    {
        if !sol.contains(v) {
            let c = sol.count_connections(v);
            match best {
                None => {
                    best = Some((c, c));
                    proof {
                        at_lo = v as int;
                        at_hi = v as int;
                    }
                },
                Some((lo, hi)) => {
                    let new_lo = if c < lo { c } else { lo };
                    let new_hi = if c > hi { c } else { hi };
                    proof {
                        if c < lo {
                            at_lo = v as int;
                        }
                        if c > hi {
                            at_hi = v as int;
                        }
                    }
                    best = Some((new_lo, new_hi));
                },
            }
        }
        v = v + 1;
    }
    best
}

/// The vertices outside the solution that have from `lo` to `hi` inner
/// neighbours, in increasing order.
pub fn outside_between<'g>(sol: &Solution<'g>, lo: usize, hi: usize) -> (r: Vec<usize>)
    requires
        sol.wf(),
    ensures
        forall|v: usize| #[trigger]
            r@.contains(v) <==> (is_outside(sol, v as int) && lo <= inner(sol, v as int) <= hi),
        forall|i: int, j: int| 0 <= i < j < r@.len() ==> r@[i] < r@[j],
        is_increasing(r@),
{
    let n = sol.graph().n();
    let mut out: Vec<usize> = Vec::new();
    let mut v: usize = 0;
    while v < n
        invariant
            v <= n,
            n == sol@.len(),
            sol.wf(),
            forall|w: usize| #[trigger]
                out@.contains(w) <==> (w < v && is_outside(sol, w as int) && lo <= inner(
                    sol,
                    w as int,
                ) <= hi),
            forall|i: int| 0 <= i < out@.len() ==> out@[i] < v,
            forall|i: int, j: int| 0 <= i < j < out@.len() ==> out@[i] < out@[j],
        decreases n - v,
    {
        let ghost before = out@;
        let mut take = false;
        if !sol.contains(v) {
            let c = sol.count_connections(v);
            take = lo <= c && c <= hi;
        }
        if take {
            out.push(v);
            proof {
                lemma_push_contains(before, v);
            }
        }
        proof {
            assert forall|w: usize| #[trigger]
                out@.contains(w) <==> (w < v + 1 && is_outside(sol, w as int) && lo <= inner(
                    sol,
                    w as int,
                ) <= hi) by {
                assert(before.contains(w) <==> (w < v && is_outside(sol, w as int) && lo <= inner(
                    sol,
                    w as int,
                ) <= hi));
                if take {
                    assert(out@ == before.push(v));
                    assert(out@.contains(w) <==> before.contains(w) || w == v);
                } else {
                    assert(out@ == before);
                }
            }
        }
        v = v + 1;
    }
    proof {
        assert forall|w: usize| #[trigger]
            out@.contains(w) <==> (is_outside(sol, w as int) && lo <= inner(sol, w as int)
                <= hi) by {
            assert(out@.contains(w) <==> (w < v && is_outside(sol, w as int) && lo <= inner(
                sol,
                w as int,
            ) <= hi));
        }
    }
    out
}

} // verus!
