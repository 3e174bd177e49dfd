//! Counting the set flags of a sequence of flags.
use vstd::prelude::*;

verus! {

/// The number of positions below `upto` whose flag is set.
pub open spec fn count_set(bits: Seq<bool>, upto: int) -> nat
    decreases upto,
{
    if upto <= 0 {
        0
    } else {
        count_set(bits, upto - 1) + (if upto <= bits.len() && bits[upto - 1] {
            1nat
        } else {
            0nat
        })
    }
}

/// The count grows with the bound.
pub proof fn lemma_count_monotonic(bits: Seq<bool>, lower: int, upper: int)
    requires
        lower <= upper,
    ensures
        count_set(bits, lower) <= count_set(bits, upper),
    decreases upper - lower,
{
    if lower < upper {
        lemma_count_monotonic(bits, lower, upper - 1);
    }
}

/// A set position is told apart from every other by the number of set
/// positions below it, and that number is below the number of all of them.
pub proof fn lemma_rank(bits: Seq<bool>, a: int, b: int)
    requires
        0 <= a < bits.len(),
        0 <= b < bits.len(),
        bits[a],
        bits[b],
    ensures
        count_set(bits, a) < count_set(bits, bits.len() as int),
        a < b ==> count_set(bits, a) < count_set(bits, b),
        count_set(bits, a) == count_set(bits, b) ==> a == b,
{
    lemma_count_monotonic(bits, a + 1, bits.len() as int);
    if a < b {
        lemma_count_monotonic(bits, a + 1, b);
    }
    if b < a {
        lemma_count_monotonic(bits, b + 1, a);
    }
}

/// Appending a set bit raises the count of set bits by one.
pub proof fn lemma_count_pushed(before: Seq<bool>, after: Seq<bool>, k: int)
    requires
        after == before.push(true),
        k == before.len(),
    ensures
        count_set(after, k + 1) == count_set(before, k) + 1,
{
    lemma_count_same(before, after, k);
}

/// The count of set bits below `upto` depends on the bits below `upto`
/// only.
pub proof fn lemma_count_same(a: Seq<bool>, b: Seq<bool>, upto: int)
    requires
        upto <= a.len(),
        upto <= b.len(),
        forall|i: int| 0 <= i < upto ==> a[i] == b[i],
    ensures
        count_set(a, upto) == count_set(b, upto),
    decreases upto,
{
    if upto > 0 {
        lemma_count_same(a, b, upto - 1);
    }
}

/// Clearing one bit lowers the count of set bits by one at most.
pub proof fn lemma_count_cleared(bits: Seq<bool>, index: int, upto: int)
    requires
        0 <= index < bits.len(),
        0 <= upto <= bits.len(),
    ensures
        count_set(bits.update(index, false), upto) + 1 >= count_set(bits, upto),
        count_set(bits.update(index, false), upto) <= count_set(bits, upto),
    decreases upto,
{
    if upto > 0 {
        lemma_count_cleared(bits, index, upto - 1);
        if index >= upto {
            lemma_count_same(bits, bits.update(index, false), upto);
        } else if index < upto - 1 {
        } else {
            lemma_count_same(bits, bits.update(index, false), upto - 1);
        }
    }
}

/// Where no bit below `upto` is set, the count of set bits below it is
/// zero.
pub proof fn lemma_count_none(bits: Seq<bool>, upto: int)
    requires
        0 <= upto <= bits.len(),
        forall|i: int| 0 <= i < upto ==> !bits[i],
    ensures
        count_set(bits, upto) == 0,
    decreases upto,
{
    if upto > 0 {
        lemma_count_none(bits, upto - 1);
    }
}

} // verus!
