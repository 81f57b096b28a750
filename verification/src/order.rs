//! Sorting of plain numbers.

use vstd::prelude::*;

verus! {

/// The entries of `s` never decrease.
pub open spec fn is_ascending(s: Seq<usize>) -> bool {
    forall|i: int, j: int| 0 <= i <= j < s.len() ==> s[i] <= s[j]
}

/// `slice::sort_unstable`: puts the entries in ascending order. The entries
/// are the same as before, each as often as before.
#[verifier::external_body]
pub(crate) fn sort_ascending(v: &mut Vec<usize>)
    ensures
        final(v)@.len() == old(v)@.len(),
        final(v)@.to_multiset() == old(v)@.to_multiset(),
        is_ascending(final(v)@),
{
    v.sort_unstable();
}

} // verus!
