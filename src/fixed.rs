use vstd::prelude::*;

verus! {

/// The number of units that stand for the value 1.
pub const ONE: u64 = 1_000_000_000;

/// Product of two fixed-point values, rounded down.
pub open spec fn fx_mul(a: int, b: int) -> int {
    (a * b) / (ONE as int)
}

/// The values of a sequence as mathematical integers.
pub open spec fn as_ints(s: Seq<u64>) -> Seq<int> {
    s.map_values(|v: u64| v as int)
}

/// Sum of a sequence of fixed-point values.
pub open spec fn sum(s: Seq<u64>) -> int
    decreases s.len(),
{
    if s.len() == 0 {
        0
    } else {
        sum(s.drop_last()) + s.last()
    }
}

/// Multiplies two fixed-point values, rounding down.
pub fn mul_fx(a: u64, b: u64) -> (r: u64)
    requires
        fx_mul(a as int, b as int) <= u64::MAX,
    ensures
        r == fx_mul(a as int, b as int),
{
    proof {
        assert(0 <= (a as int) * (b as int) <= (u64::MAX as int) * (u64::MAX as int)) by (nonlinear_arith);
    }
    let p: u128 = (a as u128) * (b as u128);
    (p / (ONE as u128)) as u64
}

pub proof fn lemma_sum_nonneg(s: Seq<u64>)
    ensures
        sum(s) >= 0,
    decreases s.len(),
{
    if s.len() > 0 {
        lemma_sum_nonneg(s.drop_last());
    }
}

/// Replacing one entry changes the sum by the difference.
pub proof fn lemma_sum_update(s: Seq<u64>, j: int, v: u64)
    requires
        0 <= j < s.len(),
    ensures
        sum(s.update(j, v)) == sum(s) - s[j] + v,
    decreases s.len(),
{
    let t = s.update(j, v);
    if j == s.len() - 1 {
        assert(t.drop_last() =~= s.drop_last());
    } else {
        lemma_sum_update(s.drop_last(), j, v);
        assert(t.drop_last() =~= s.drop_last().update(j, v));
    }
}

/// Every entry is at most the sum.
pub proof fn lemma_entry_le_sum(s: Seq<u64>, j: int)
    requires
        0 <= j < s.len(),
    ensures
        s[j] <= sum(s),
    decreases s.len(),
{
    lemma_sum_nonneg(s.drop_last());
    if j < s.len() - 1 {
        lemma_entry_le_sum(s.drop_last(), j);
    }
}

/// A sequence of zeroes sums to zero.
pub proof fn lemma_sum_zeroes(s: Seq<u64>)
    requires
        forall|i: int| 0 <= i < s.len() ==> s[i] == 0,
    ensures
        sum(s) == 0,
    decreases s.len(),
{
    if s.len() > 0 {
        lemma_sum_zeroes(s.drop_last());
    }
}

/// A sequence of `len` copies of `v` sums to `len * v`.
pub proof fn lemma_sum_constant(s: Seq<u64>, v: u64)
    requires
        forall|i: int| 0 <= i < s.len() ==> s[i] == v,
    ensures
        sum(s) == s.len() * v,
    decreases s.len(),
{
    if s.len() > 0 {
        lemma_sum_constant(s.drop_last(), v);
        assert(sum(s) == (s.len() - 1) * v + v);
        assert((s.len() - 1) * v + v == s.len() * v) by (nonlinear_arith);
    }
}

} // verus!
