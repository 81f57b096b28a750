//! Bit rows: the packed rows of booleans that hold adjacency and membership,
//! and the counting functions over them that every contract is stated with.

use bitvec::order::Lsb0;
use bitvec::vec::BitVec;
use vstd::prelude::*;

verus! {

/// A packed row of bits. Its contents are known through [`row_bits`] alone.
#[verifier::external_body]
pub struct BitRow {
    bits: BitVec<usize, Lsb0>,
}

/// The bits that a row holds, first to last.
pub uninterp spec fn row_bits(r: BitRow) -> Seq<bool>;

/// The number of `true` entries among the first `k` of `s`.
pub open spec fn count_true(s: Seq<bool>, k: int) -> nat
    decreases k,
{
    if k <= 0 {
        0
    } else {
        count_true(s, k - 1) + if s[k - 1] { 1nat } else { 0nat }
    }
}

/// The number of positions among the first `k` at which `a` and `b` are both
/// `true`.
pub open spec fn count_common(a: Seq<bool>, b: Seq<bool>, k: int) -> nat
    decreases k,
{
    if k <= 0 {
        0
    } else {
        count_common(a, b, k - 1) + if a[k - 1] && b[k - 1] { 1nat } else { 0nat }
    }
}

/// The positions of the `true` entries of `bits`, in increasing order, are
/// exactly the entries of `ones`.
pub open spec fn lists_ones(bits: Seq<bool>, ones: Seq<usize>) -> bool {
    &&& forall|k: int| 0 <= k < ones.len() ==> ones[k] < bits.len() && #[trigger] bits[ones[k] as int]
    &&& forall|i: int| 0 <= i < bits.len() && #[trigger] bits[i] ==> exists|k: int| 0 <= k < ones.len() && ones[k] == i
    &&& forall|j: int, k: int| 0 <= j < k < ones.len() ==> ones[j] < ones[k]
}

/// `BitVec::repeat`: a row of `len` bits, each equal to `bit`. The outside
/// function panics beyond its longest row, an eighth of the `usize` range.
#[verifier::external_body]
pub(crate) fn row_repeat(bit: bool, len: usize) -> (r: BitRow)
    requires
        len <= usize::MAX / 8,
    ensures
        row_bits(r).len() == len,
        forall|i: int| 0 <= i < len ==> row_bits(r)[i] == bit,
{
    BitRow { bits: BitVec::repeat(bit, len) }
}

/// `BitVec::len`: the number of bits in the row.
#[verifier::external_body]
pub(crate) fn row_len(r: &BitRow) -> (n: usize)
    ensures
        n == row_bits(*r).len(),
{
    r.bits.len()
}

/// Indexing a row by `usize`: the bit at `i`.
#[verifier::external_body]
pub(crate) fn row_get(r: &BitRow, i: usize) -> (b: bool)
    requires
        i < row_bits(*r).len(),
    ensures
        b == row_bits(*r)[i as int],
{
    r.bits[i]
}

/// `BitSlice::set`: writes `value` at `i` and leaves every other bit alone.
#[verifier::external_body]
pub(crate) fn row_set(r: &mut BitRow, i: usize, value: bool)
    requires
        i < row_bits(*old(r)).len(),
    ensures
        row_bits(*final(r)) == row_bits(*old(r)).update(i as int, value),
{
    r.bits.set(i, value);
}

/// `BitSlice::count_ones`: the number of bits that are set.
#[verifier::external_body]
pub(crate) fn row_count_ones(r: &BitRow) -> (n: usize)
    ensures
        n == count_true(row_bits(*r), row_bits(*r).len() as int),
{
    r.bits.count_ones()
}

/// `BitSlice::iter_ones`: the index of each set bit, in increasing order.
#[verifier::external_body]
pub(crate) fn row_ones(r: &BitRow) -> (ones: Vec<usize>)
    ensures
        lists_ones(row_bits(*r), ones@),
{
    r.bits.iter_ones().collect()
}

/// `Clone` for `BitVec`: a new row with the same bits.
#[verifier::external_body]
pub(crate) fn row_clone(r: &BitRow) -> (c: BitRow)
    ensures
        row_bits(c) == row_bits(*r),
{
    BitRow { bits: r.bits.clone() }
}

impl BitRow {
    /// The bits of the row as a sequence.
    pub open spec fn view(&self) -> Seq<bool> {
        row_bits(*self)
    }

    /// The number of bits in the row.
    pub fn len(&self) -> (n: usize)
        ensures
            n == self@.len(),
    {
        row_len(self)
    }

    /// The bit at position `i`.
    pub fn get(&self, i: usize) -> (b: bool)
        requires
            i < self@.len(),
        ensures
            b == self@[i as int],
    {
        row_get(self, i)
    }

    /// The number of set bits.
    pub fn count_ones(&self) -> (n: usize)
        ensures
            n == count_true(self@, self@.len() as int),
    {
        row_count_ones(self)
    }
}

/// A prefix of length `k` holds at most `k` `true` entries.
pub proof fn lemma_count_true_bound(s: Seq<bool>, k: int)
    requires
        0 <= k,
    ensures
        count_true(s, k) <= k,
    decreases k,
{
    if k > 0 {
        lemma_count_true_bound(s, k - 1);
    }
}

/// Two rows have no more common `true` entries than the second has `true`
/// entries, and the count grows with the prefix.
pub proof fn lemma_count_common_bound(a: Seq<bool>, b: Seq<bool>, k: int)
    requires
        0 <= k,
    ensures
        count_common(a, b, k) <= count_true(b, k),
        count_common(a, b, k) <= count_true(a, k),
        count_common(a, b, k) <= k,
    decreases k,
{
    if k > 0 {
        lemma_count_common_bound(a, b, k - 1);
    }
}

/// The count depends only on the entries inside the prefix.
pub proof fn lemma_count_common_agree(
    a1: Seq<bool>,
    b1: Seq<bool>,
    a2: Seq<bool>,
    b2: Seq<bool>,
    k: int,
)
    requires
        forall|i: int| 0 <= i < k ==> a1[i] == a2[i] && b1[i] == b2[i],
    ensures
        count_common(a1, b1, k) == count_common(a2, b2, k),
    decreases k,
{
    if k > 0 {
        lemma_count_common_agree(a1, b1, a2, b2, k - 1);
    }
}

/// Writing one entry of `s` moves the count of `true` entries by at most one,
/// and only where the written position lies inside the prefix.
pub proof fn lemma_count_true_update(s: Seq<bool>, i: int, value: bool, k: int)
    requires
        0 <= i < s.len(),
        0 <= k <= s.len(),
    ensures
        count_true(s.update(i, value), k) + (if i < k && s[i] { 1int } else { 0int })
            == count_true(s, k) + (if i < k && value { 1int } else { 0int }),
    decreases k,
{
    if k > 0 {
        lemma_count_true_update(s, i, value, k - 1);
    }
}

/// Writing one entry of the second row moves the common count by at most
/// one, and only where the first row is set at the written position.
pub proof fn lemma_count_common_update(a: Seq<bool>, b: Seq<bool>, i: int, value: bool, k: int)
    requires
        0 <= i < b.len(),
        0 <= k <= b.len(),
    ensures
        count_common(a, b.update(i, value), k) + (if i < k && a[i] && b[i] { 1int } else { 0int })
            == count_common(a, b, k) + (if i < k && a[i] && value { 1int } else { 0int }),
    decreases k,
{
    if k > 0 {
        lemma_count_common_update(a, b, i, value, k - 1);
    }
}

/// A row without `true` entries counts zero.
pub proof fn lemma_count_true_none(s: Seq<bool>, k: int)
    requires
        forall|i: int| 0 <= i < k ==> !s[i],
    ensures
        count_true(s, k) == 0,
    decreases k,
{
    if k > 0 {
        lemma_count_true_none(s, k - 1);
    }
}

/// A positive count has a `true` entry behind it.
pub proof fn lemma_count_true_some(s: Seq<bool>, k: int)
    requires
        count_true(s, k) > 0,
    ensures
        exists|i: int| 0 <= i < k && s[i],
    decreases k,
{
    if k > 0 {
        if !s[k - 1] {
            lemma_count_true_some(s, k - 1);
        }
    }
}

/// A `true` entry inside the prefix makes the count positive.
pub proof fn lemma_count_true_witness(s: Seq<bool>, i: int, k: int)
    requires
        0 <= i < k,
        s[i],
    ensures
        count_true(s, k) >= 1,
    decreases k,
{
    if i < k - 1 {
        lemma_count_true_witness(s, i, k - 1);
    }
}

/// A prefix of `true` entries alone counts its own length.
pub proof fn lemma_count_true_all(s: Seq<bool>, k: int)
    requires
        0 <= k,
        forall|i: int| 0 <= i < k ==> s[i],
    ensures
        count_true(s, k) == k,
    decreases k,
{
    if k > 0 {
        lemma_count_true_all(s, k - 1);
    }
}

/// The number of positions at which two rows are both set, over the length
/// that the rows share.
pub fn count_intersecting_ones(a: &BitRow, b: &BitRow) -> (c: usize)
    ensures
        c == count_common(a@, b@, if a@.len() <= b@.len() { a@.len() as int } else { b@.len() as int }),
{
    let la = row_len(a);
    let lb = row_len(b);
    let len = if la <= lb { la } else { lb };
    let mut c: usize = 0;
    let mut i: usize = 0;
    while i < len
        invariant
            i <= len,
            len <= a@.len(),
            len <= b@.len(),
            c == count_common(a@, b@, i as int),
            c <= i,
        decreases len - i,
    {
        if row_get(a, i) && row_get(b, i) {
            c = c + 1;
        }
        i = i + 1;
    }
    c
}

} // verus!
