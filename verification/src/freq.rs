//! The long-term frequency memory: one counter per vertex, bumped on every
//! counted change of membership and cleared as a whole once a counter passes
//! the size of the solution.

use crate::induced::induced_edges;
use crate::solution::Solution;
use vstd::prelude::*;

verus! {

/// The memory after a counted change of `v` that left the solution with
/// `size` members: the counter of `v` goes up by one, and if it then exceeds
/// `size`, every counter is set to zero.
pub open spec fn counted(freq: Seq<usize>, v: int, size: int) -> Seq<usize> {
    if freq[v] + 1 > size {
        Seq::new(freq.len(), |i: int| 0usize)
    } else {
        freq.update(v, (freq[v] + 1) as usize)
    }
}

/// Every counter is at most `bound`.
pub open spec fn counts_within(freq: Seq<usize>, bound: int) -> bool {
    forall|i: int| 0 <= i < freq.len() ==> #[trigger] freq[i] <= bound
}

/// Counts one change of `v` in `freq` for a solution that now has `size`
/// members.
pub fn count_change(freq: &mut Vec<usize>, v: usize, size: usize)
    requires
        v < old(freq)@.len(),
    ensures
        final(freq)@ == counted(old(freq)@, v as int, size as int),
        final(freq)@.len() == old(freq)@.len(),
        counts_within(old(freq)@, size as int) ==> counts_within(final(freq)@, size as int),
{
    let before: usize = freq[v];
    if before >= size {
        let n = freq.len();
        let mut i: usize = 0;
        while i < n
            invariant
                i <= n,
                n == freq@.len(),
                forall|j: int| 0 <= j < i ==> freq@[j] == 0,
            decreases n - i,
        {
            freq[i] = 0;
            i = i + 1;
        }
        assert(freq@ =~= Seq::new(freq@.len(), |i: int| 0usize));
    } else {
        freq[v] = before + 1;
    }
}

/// Puts `v` into the solution and counts the change.
pub fn add_counted<'g>(sol: &mut Solution<'g>, v: usize, freq_mem: &mut Vec<usize>)
    requires
        old(sol).wf(),
        v < old(sol)@.len(),
        old(freq_mem)@.len() == old(sol)@.len(),
    ensures
        final(sol).wf(),
        final(sol).spec_graph() == old(sol).spec_graph(),
        final(sol)@ == old(sol)@.update(v as int, true),
        !old(sol)@[v as int] ==> final(sol).spec_size() == old(sol).spec_size() + 1,
        old(sol)@[v as int] ==> final(sol).spec_size() == old(sol).spec_size(),
        final(freq_mem)@ == counted(old(freq_mem)@, v as int, final(sol).spec_size() as int),
        final(freq_mem)@.len() == old(freq_mem)@.len(),
{
    sol.add(v);
    let k = sol.size();
    count_change(freq_mem, v, k);
}

/// Takes `v` out of the solution and counts the change.
pub fn remove_counted<'g>(sol: &mut Solution<'g>, v: usize, freq_mem: &mut Vec<usize>)
    requires
        old(sol).wf(),
        v < old(sol)@.len(),
        old(freq_mem)@.len() == old(sol)@.len(),
    ensures
        final(sol).wf(),
        final(sol).spec_graph() == old(sol).spec_graph(),
        final(sol)@ == old(sol)@.update(v as int, false),
        old(sol)@[v as int] ==> final(sol).spec_size() + 1 == old(sol).spec_size(),
        !old(sol)@[v as int] ==> final(sol).spec_size() == old(sol).spec_size(),
        final(freq_mem)@ == counted(old(freq_mem)@, v as int, final(sol).spec_size() as int),
        final(freq_mem)@.len() == old(freq_mem)@.len(),
{
    sol.remove(v);
    let k = sol.size();
    count_change(freq_mem, v, k);
}

/// A counted entry of a vertex from outside the subset, followed by its
/// counted exit, restores the membership row and with it the induced edges.
/// Where neither step clears the memory, the counter of the vertex ends
/// higher by exactly two and every other counter as it was. `size` is the
/// number of members before the entry.
pub proof fn lemma_counted_round_trip(
    g: Seq<Seq<bool>>,
    members: Seq<bool>,
    freq: Seq<usize>,
    v: int,
    size: int,
)
    requires
        0 <= v < members.len(),
        freq.len() == members.len(),
        !members[v],
        freq[v] + 2 <= size <= usize::MAX,
    ensures
        members.update(v, true).update(v, false) == members,
        induced_edges(g, members.update(v, true).update(v, false)) == induced_edges(g, members),
        counted(counted(freq, v, size + 1), v, size) == freq.update(v, (freq[v] + 2) as usize),
        counted(counted(freq, v, size + 1), v, size)[v] == freq[v] + 2,
{
    assert(members.update(v, true).update(v, false) =~= members);
    let once = counted(freq, v, size + 1);
    assert(once == freq.update(v, (freq[v] + 1) as usize));
    assert(counted(once, v, size) =~= freq.update(v, (freq[v] + 2) as usize));
}

} // verus!
