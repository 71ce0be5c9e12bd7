//! Sums over sequences of natural numbers, and the facts about them that the
//! counting arguments of the solver use.
use vstd::prelude::*;

verus! {

/// The sum of the elements of `s`.
pub open spec fn sum(s: Seq<nat>) -> nat
    decreases s.len(),
{
    if s.len() == 0 {
        0
    } else {
        sum(s.drop_last()) + s.last()
    }
}

/// A sequence that is nowhere above another has no larger sum.
pub proof fn lemma_sum_le(a: Seq<nat>, b: Seq<nat>)
    requires
        a.len() == b.len(),
        forall|i: int| 0 <= i < a.len() ==> a[i] <= b[i],
    ensures
        sum(a) <= sum(b),
    decreases a.len(),
{
    if a.len() > 0 {
        lemma_sum_le(a.drop_last(), b.drop_last());
    }
}

/// A sequence that is nowhere above another and below it at `i` has a
/// smaller sum.
pub proof fn lemma_sum_lt(a: Seq<nat>, b: Seq<nat>, i: int)
    requires
        a.len() == b.len(),
        forall|j: int| 0 <= j < a.len() ==> a[j] <= b[j],
        0 <= i < a.len(),
        a[i] < b[i],
    ensures
        sum(a) < sum(b),
    decreases a.len(),
{
    if i == a.len() - 1 {
        lemma_sum_le(a.drop_last(), b.drop_last());
    } else {
        lemma_sum_lt(a.drop_last(), b.drop_last(), i);
    }
}

/// The sum of a prefix grows by the element that the prefix takes in.
pub proof fn lemma_sum_step(s: Seq<nat>, k: int)
    requires
        0 <= k < s.len(),
    ensures
        sum(s.take(k + 1)) == sum(s.take(k)) + s[k],
{
    assert(s.take(k + 1).drop_last() =~= s.take(k));
}

/// No prefix sums to more than the whole, and no element is above the sum.
pub proof fn lemma_sum_prefix(s: Seq<nat>, k: int)
    requires
        0 <= k <= s.len(),
    ensures
        sum(s.take(k)) <= sum(s),
        k < s.len() ==> sum(s.take(k)) + s[k] <= sum(s),
    decreases s.len() - k,
{
    if k == s.len() {
        assert(s.take(k) =~= s);
    } else {
        lemma_sum_step(s, k);
        lemma_sum_prefix(s, k + 1);
    }
}

/// A sequence of zeros sums to zero, and only such a sequence does.
pub proof fn lemma_sum_zero(s: Seq<nat>)
    ensures
        sum(s) == 0 <==> forall|i: int| 0 <= i < s.len() ==> s[i] == 0,
    decreases s.len(),
{
    if s.len() > 0 {
        lemma_sum_zero(s.drop_last());
        if sum(s) == 0 {
            assert forall|i: int| 0 <= i < s.len() implies s[i] == 0 by {
                if i < s.len() - 1 {
                    assert(s.drop_last()[i] == s[i]);
                }
            }
        }
        if forall|i: int| 0 <= i < s.len() ==> s[i] == 0 {
            assert forall|i: int| 0 <= i < s.drop_last().len() implies s.drop_last()[i] == 0 by {
                assert(s.drop_last()[i] == s[i]);
            }
        }
    }
}

/// The weights of the tiles that `mask` selects, zero elsewhere.
pub open spec fn masked(weights: Seq<u32>, mask: Seq<bool>) -> Seq<nat> {
    Seq::new(
        weights.len(),
        |i: int| if i < mask.len() && mask[i] { weights[i] as nat } else { 0 },
    )
}

/// One for each position that `mask` selects, zero elsewhere.
pub open spec fn marks(mask: Seq<bool>) -> Seq<nat> {
    Seq::new(mask.len(), |i: int| if mask[i] { 1nat } else { 0nat })
}

/// Number of positions that `mask` selects.
pub open spec fn count(mask: Seq<bool>) -> nat {
    sum(marks(mask))
}

/// `a` selects no position that `b` does not select.
pub open spec fn within(a: Seq<bool>, b: Seq<bool>) -> bool {
    &&& a.len() == b.len()
    &&& forall|i: int| 0 <= i < a.len() && a[i] ==> b[i]
}

/// A mask within another selects no more positions, and fewer if it leaves
/// one out; the weights it selects sum to no more.
pub proof fn lemma_within(a: Seq<bool>, b: Seq<bool>, weights: Seq<u32>)
    requires
        within(a, b),
    ensures
        count(a) <= count(b),
        a != b ==> count(a) < count(b),
        sum(masked(weights, a)) <= sum(masked(weights, b)),
{
    lemma_sum_le(marks(a), marks(b));
    lemma_sum_le(masked(weights, a), masked(weights, b));
    if a != b {
        if forall|i: int| 0 <= i < a.len() ==> a[i] == b[i] {
            assert(a =~= b);
        }
        let i = choose|i: int| 0 <= i < a.len() && a[i] != b[i];
        lemma_sum_lt(marks(a), marks(b), i);
    }
}

} // verus!
