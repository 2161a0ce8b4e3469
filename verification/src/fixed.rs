//! Fixed-point scale and integer summation helpers.
//!
//! All scores and edge weights in this crate are fixed-point numbers in
//! billionths: the value `FIXED_ONE` stands for the real number `1.0`.

use vstd::prelude::*;

verus! {

/// One unit of score or weight: fixed-point values are in billionths.
pub const FIXED_ONE: u64 = 1_000_000_000;

/// The all-zero vector of `n` 64-bit values.
pub open spec fn zeros64(n: int) -> Seq<u64> {
    Seq::new(n as nat, |i: int| 0u64)
}

/// Sum of a sequence of 64-bit values, as a mathematical integer.
pub open spec fn sum64(s: Seq<u64>) -> int
    decreases s.len(),
{
    if s.len() == 0 {
        0
    } else {
        sum64(s.drop_last()) + s.last()
    }
}

/// A sum of unsigned values is non-negative.
pub proof fn lemma_sum64_nonneg(s: Seq<u64>)
    ensures
        sum64(s) >= 0,
    decreases s.len(),
{
    if s.len() > 0 {
        lemma_sum64_nonneg(s.drop_last());
    }
}

/// Extending a prefix by one element adds that element to its sum.
pub proof fn lemma_sum64_take_succ(s: Seq<u64>, i: int)
    requires
        0 <= i < s.len(),
    ensures
        sum64(s.take(i + 1)) == sum64(s.take(i)) + s[i],
{
    assert(s.take(i + 1).drop_last() =~= s.take(i));
    assert(s.take(i + 1).last() == s[i]);
}

/// The sum of a whole sequence is the sum of its full prefix.
pub proof fn lemma_sum64_take_all(s: Seq<u64>)
    ensures
        sum64(s.take(s.len() as int)) == sum64(s),
{
    assert(s.take(s.len() as int) =~= s);
}

/// Each element is bounded by the sum of the whole sequence.
pub proof fn lemma_sum64_bounds_element(s: Seq<u64>, i: int)
    requires
        0 <= i < s.len(),
    ensures
        s[i] <= sum64(s),
    decreases s.len(),
{
    lemma_sum64_nonneg(s.drop_last());
    if i < s.len() - 1 {
        lemma_sum64_bounds_element(s.drop_last(), i);
    }
}

/// Replacing one element changes the sum by the difference.
pub proof fn lemma_sum64_update(s: Seq<u64>, i: int, v: u64)
    requires
        0 <= i < s.len(),
    ensures
        sum64(s.update(i, v)) == sum64(s) - s[i] + v,
    decreases s.len(),
{
    if i == s.len() - 1 {
        assert(s.update(i, v).drop_last() =~= s.drop_last());
    } else {
        assert(s.update(i, v).drop_last() =~= s.drop_last().update(i, v));
        lemma_sum64_update(s.drop_last(), i, v);
    }
}

/// Appending an element adds it to the sum.
pub proof fn lemma_sum64_push(s: Seq<u64>, v: u64)
    ensures
        sum64(s.push(v)) == sum64(s) + v,
{
    assert(s.push(v).drop_last() =~= s);
}

/// A prefix of unsigned values sums to no more than the whole sequence.
pub proof fn lemma_sum64_prefix_le(s: Seq<u64>, i: int)
    requires
        0 <= i <= s.len(),
    ensures
        sum64(s.take(i)) <= sum64(s),
    decreases s.len() - i,
{
    if i == s.len() {
        lemma_sum64_take_all(s);
    } else {
        lemma_sum64_take_succ(s, i);
        lemma_sum64_prefix_le(s, i + 1);
    }
}

/// Floor-division facts: the quotient is non-negative, multiplying it back
/// stays at or below the dividend, and it never exceeds the dividend.
pub proof fn lemma_div_floor(x: int, d: int)
    requires
        x >= 0,
        d > 0,
    ensures
        0 <= x / d,
        d * (x / d) <= x,
        x / d <= x,
{
    vstd::arithmetic::div_mod::lemma_fundamental_div_mod(x, d);
    vstd::arithmetic::div_mod::lemma_mod_bound(x, d);
    vstd::arithmetic::div_mod::lemma_div_nonincreasing(x, d);
    if x > 0 {
        vstd::arithmetic::div_mod::lemma_div_pos_is_pos(x, d);
    } else {
        vstd::arithmetic::div_mod::lemma_div_of0(d);
    }
}

} // verus!
