use vstd::prelude::*;
use crate::fixed::{fx_mul, mul_fx, sum, lemma_sum_update};

verus! {

/// Turns a vector of one orientation into a copy of the other orientation.
pub trait Transpose<T> {
    fn transpose(&self) -> T;
}

/// A dense column vector of fixed-point values.
pub struct ColVec {
    values: Vec<u64>,
}

/// A dense row vector of fixed-point values.
pub struct RowVec {
    values: Vec<u64>,
}

impl View for ColVec {
    type V = Seq<u64>;

    closed spec fn view(&self) -> Seq<u64> {
        self.values@
    }
}

impl View for RowVec {
    type V = Seq<u64>;

    closed spec fn view(&self) -> Seq<u64> {
        self.values@
    }
}

/// A vector of `len` zeroes.
fn zero_values(len: usize) -> (r: Vec<u64>)
    ensures
        r@.len() == len,
        forall|i: int| 0 <= i < len ==> r@[i] == 0,
{
    let mut v: Vec<u64> = Vec::with_capacity(len);
    let mut i: usize = 0;
    while i < len
        invariant
            i <= len,
            v@.len() == i,
            forall|k: int| 0 <= k < i ==> v@[k] == 0,
        decreases len - i,
    {
        v.push(0);
        i = i + 1;
    }
    v
}

/// The values `init(0), .., init(len - 1)`.
fn values_with<F: Fn(usize) -> u64>(len: usize, init: F) -> (r: Vec<u64>)
    requires
        forall|i: usize| i < len ==> init.requires((i,)),
    ensures
        r@.len() == len,
        forall|i: int| 0 <= i < len ==> init.ensures((i as usize,), r@[i]),
{
    let mut v: Vec<u64> = Vec::with_capacity(len);
    let mut i: usize = 0;
    while i < len
        invariant
            i <= len,
            v@.len() == i,
            forall|j: usize| j < len ==> init.requires((j,)),
            forall|k: int| 0 <= k < i ==> init.ensures((k as usize,), v@[k]),
        decreases len - i,
    {
        let x = init(i);
        v.push(x);
        i = i + 1;
    }
    v
}

/// Each value times the fixed-point factor `k`, rounded down.
fn scaled_values(values: &Vec<u64>, k: u64) -> (r: Vec<u64>)
    requires
        forall|i: int| 0 <= i < values@.len() ==> fx_mul(values@[i] as int, k as int) <= u64::MAX,
    ensures
        r@.len() == values@.len(),
        forall|i: int| 0 <= i < values@.len() ==> r@[i] == fx_mul(values@[i] as int, k as int),
{
    let mut v: Vec<u64> = Vec::with_capacity(values.len());
    let mut i: usize = 0;
    while i < values.len()
        invariant
            i <= values@.len(),
            v@.len() == i,
            forall|j: int| 0 <= j < values@.len() ==> fx_mul(values@[j] as int, k as int) <= u64::MAX,
            forall|j: int| 0 <= j < i ==> v@[j] == fx_mul(values@[j] as int, k as int),
        decreases values@.len() - i,
    {
        v.push(mul_fx(values[i], k));
        i = i + 1;
    }
    v
}

/// Each value divided by the count `k`, rounded down.
fn divided_values(values: &Vec<u64>, k: u64) -> (r: Vec<u64>)
    requires
        k > 0,
    ensures
        r@.len() == values@.len(),
        forall|i: int| 0 <= i < values@.len() ==> r@[i] == values@[i] / k,
{
    let mut v: Vec<u64> = Vec::with_capacity(values.len());
    let mut i: usize = 0;
    while i < values.len()
        invariant
            i <= values@.len(),
            k > 0,
            v@.len() == i,
            forall|j: int| 0 <= j < i ==> v@[j] == values@[j] / k,
        decreases values@.len() - i,
    {
        v.push(values[i] / k);
        i = i + 1;
    }
    v
}

impl ColVec {
    /// A column vector of `len` zeroes.
    pub fn zeroes(len: usize) -> (r: ColVec)
        ensures
            r@.len() == len,
            forall|i: int| 0 <= i < len ==> r@[i] == 0,
    {
        ColVec { values: zero_values(len) }
    }

    /// The column vector `init(0), .., init(len - 1)`.
    pub fn init_with<F: Fn(usize) -> u64>(len: usize, init: F) -> (r: ColVec)
        requires
            forall|i: usize| i < len ==> init.requires((i,)),
        ensures
            r@.len() == len,
            forall|i: int| 0 <= i < len ==> init.ensures((i as usize,), r@[i]),
    {
        ColVec { values: values_with(len, init) }
    }

    pub fn len(&self) -> (r: usize)
        ensures
            r == self@.len(),
    {
        self.values.len()
    }

    /// The value at `index`.
    pub fn get(&self, index: usize) -> (r: u64)
        requires
            index < self@.len(),
        ensures
            r == self@[index as int],
    {
        self.values[index]
    }

    /// Replaces the value at `index`.
    pub fn set(&mut self, index: usize, value: u64)
        requires
            index < old(self)@.len(),
        ensures
            final(self)@ == old(self)@.update(index as int, value),
    {
        self.values.set(index, value);
    }

    /// A new vector: each value times the fixed-point factor `k`, rounded down.
    pub fn mul(&self, k: u64) -> (r: ColVec)
        requires
            forall|i: int| 0 <= i < self@.len() ==> fx_mul(self@[i] as int, k as int) <= u64::MAX,
        ensures
            r@.len() == self@.len(),
            forall|i: int| 0 <= i < self@.len() ==> r@[i] == fx_mul(self@[i] as int, k as int),
    {
        assert(self.values@ == self@);
        ColVec { values: scaled_values(&self.values, k) }
    }

    /// A new vector: each value divided by the count `k`, rounded down.
    pub fn div(&self, k: u64) -> (r: ColVec)
        requires
            k > 0,
        ensures
            r@.len() == self@.len(),
            forall|i: int| 0 <= i < self@.len() ==> r@[i] == self@[i] / k,
    {
        ColVec { values: divided_values(&self.values, k) }
    }
}

impl Transpose<RowVec> for ColVec {
    fn transpose(&self) -> (r: RowVec)
        ensures
            r@ == self@,
    {
        RowVec { values: self.values.clone() }
    }
}

impl RowVec {
    /// A row vector of `len` zeroes.
    pub fn zeroes(len: usize) -> (r: RowVec)
        ensures
            r@.len() == len,
            forall|i: int| 0 <= i < len ==> r@[i] == 0,
    {
        RowVec { values: zero_values(len) }
    }

    /// The row vector `init(0), .., init(len - 1)`.
    pub fn init_with<F: Fn(usize) -> u64>(len: usize, init: F) -> (r: RowVec)
        requires
            forall|i: usize| i < len ==> init.requires((i,)),
        ensures
            r@.len() == len,
            forall|i: int| 0 <= i < len ==> init.ensures((i as usize,), r@[i]),
    {
        RowVec { values: values_with(len, init) }
    }

    pub fn len(&self) -> (r: usize)
        ensures
            r == self@.len(),
    {
        self.values.len()
    }

    /// The value at `index`.
    pub fn get(&self, index: usize) -> (r: u64)
        requires
            index < self@.len(),
        ensures
            r == self@[index as int],
    {
        self.values[index]
    }

    /// Replaces the value at `index`.
    pub fn set(&mut self, index: usize, value: u64)
        requires
            index < old(self)@.len(),
        ensures
            final(self)@ == old(self)@.update(index as int, value),
    {
        self.values.set(index, value);
    }

    /// A new vector: each value times the fixed-point factor `k`, rounded down.
    pub fn mul(&self, k: u64) -> (r: RowVec)
        requires
            forall|i: int| 0 <= i < self@.len() ==> fx_mul(self@[i] as int, k as int) <= u64::MAX,
        ensures
            r@.len() == self@.len(),
            forall|i: int| 0 <= i < self@.len() ==> r@[i] == fx_mul(self@[i] as int, k as int),
    {
        assert(self.values@ == self@);
        RowVec { values: scaled_values(&self.values, k) }
    }

    /// Scales the vector in place by the fixed-point factor `k`, rounding down.
    pub fn mul_assign(&mut self, k: u64)
        requires
            forall|i: int| 0 <= i < old(self)@.len() ==> fx_mul(old(self)@[i] as int, k as int) <= u64::MAX,
        ensures
            final(self)@.len() == old(self)@.len(),
            forall|i: int| 0 <= i < old(self)@.len() ==> final(self)@[i] == fx_mul(old(self)@[i] as int, k as int),
    {
        let ghost before = self@;
        let mut i: usize = 0;
        while i < self.values.len()
            invariant
                self@.len() == before.len(),
                i <= before.len(),
                forall|j: int| 0 <= j < before.len() ==> fx_mul(before[j] as int, k as int) <= u64::MAX,
                forall|j: int| 0 <= j < i ==> self@[j] == fx_mul(before[j] as int, k as int),
                forall|j: int| i <= j < before.len() ==> self@[j] == before[j],
            decreases before.len() - i,
        {
            assert(self.values@[i as int] == before[i as int]);
            let x = mul_fx(self.values[i], k);
            self.values.set(i, x);
            i = i + 1;
        }
    }

    /// A new vector: each value divided by the count `k`, rounded down.
    pub fn div(&self, k: u64) -> (r: RowVec)
        requires
            k > 0,
        ensures
            r@.len() == self@.len(),
            forall|i: int| 0 <= i < self@.len() ==> r@[i] == self@[i] / k,
    {
        RowVec { values: divided_values(&self.values, k) }
    }

    /// Adds `k` to every value.
    pub fn add_to_all(&mut self, k: u64)
        requires
            forall|i: int| 0 <= i < old(self)@.len() ==> old(self)@[i] + k <= u64::MAX,
        ensures
            final(self)@.len() == old(self)@.len(),
            forall|i: int| 0 <= i < old(self)@.len() ==> final(self)@[i] == old(self)@[i] + k,
            sum(final(self)@) == sum(old(self)@) + old(self)@.len() * k,
    {
        let ghost before = self@;
        let mut i: usize = 0;
        while i < self.values.len()
            invariant
                self@.len() == before.len(),
                i <= before.len(),
                forall|j: int| 0 <= j < before.len() ==> before[j] + k <= u64::MAX,
                forall|j: int| 0 <= j < i ==> self@[j] == before[j] + k,
                forall|j: int| i <= j < before.len() ==> self@[j] == before[j],
                sum(self@) == sum(before) + i * k,
            decreases before.len() - i,
        {
            assert(self.values@[i as int] == before[i as int]);
            let x = self.values[i] + k;
            proof {
                lemma_sum_update(self@, i as int, x);
                assert(sum(before) + i * k + k == sum(before) + (i + 1) * k) by (nonlinear_arith);
            }
            self.values.set(i, x);
            i = i + 1;
        }
    }

    /// The dot product with a column vector of the same length, each term
    /// rounded down.
    pub fn dot(&self, c: &ColVec) -> (r: u64)
        requires
            self@.len() == c@.len(),
            dot_spec(self@, c@) <= u64::MAX,
        ensures
            r == dot_spec(self@, c@),
    {
        let mut acc: u64 = 0;
        let mut i: usize = 0;
        while i < self.values.len()
            invariant
                self@.len() == c@.len(),
                dot_spec(self@, c@) <= u64::MAX,
                i <= self@.len(),
                acc == dot_spec(self@.take(i as int), c@.take(i as int)),
            decreases self@.len() - i,
        {
            proof {
                lemma_dot_prefix_le(self@, c@, i as int + 1);
                assert(self@.take(i as int + 1).drop_last() =~= self@.take(i as int));
                assert(c@.take(i as int + 1).drop_last() =~= c@.take(i as int));
                assert(fx_mul(self@[i as int] as int, c@[i as int] as int) >= 0) by (nonlinear_arith);
            }
            let t = mul_fx(self.values[i], c.values[i]);
            acc = acc + t;
            i = i + 1;
        }
        proof {
            assert(self@.take(self@.len() as int) =~= self@);
            assert(c@.take(c@.len() as int) =~= c@);
        }
        acc
    }
}

/// Dot product of two equally long sequences, each term rounded down.
pub open spec fn dot_spec(a: Seq<u64>, b: Seq<u64>) -> int
    decreases a.len(),
{
    if a.len() == 0 || b.len() == 0 {
        0
    } else {
        dot_spec(a.drop_last(), b.drop_last()) + fx_mul(a.last() as int, b.last() as int)
    }
}

pub proof fn lemma_dot_nonneg(a: Seq<u64>, b: Seq<u64>)
    ensures
        dot_spec(a, b) >= 0,
    decreases a.len(),
{
    if a.len() > 0 && b.len() > 0 {
        lemma_dot_nonneg(a.drop_last(), b.drop_last());
        assert(fx_mul(a.last() as int, b.last() as int) >= 0) by (nonlinear_arith);
    }
}

/// A prefix's dot product is at most the whole one.
pub proof fn lemma_dot_prefix_le(a: Seq<u64>, b: Seq<u64>, k: int)
    requires
        a.len() == b.len(),
        0 <= k <= a.len(),
    ensures
        dot_spec(a.take(k), b.take(k)) <= dot_spec(a, b),
    decreases a.len(),
{
    if k < a.len() {
        assert(fx_mul(a.last() as int, b.last() as int) >= 0) by (nonlinear_arith);
        lemma_dot_nonneg(a.drop_last(), b.drop_last());
        lemma_dot_prefix_le(a.drop_last(), b.drop_last(), k);
        assert(a.drop_last().take(k) =~= a.take(k));
        assert(b.drop_last().take(k) =~= b.take(k));
    } else {
        assert(a.take(k) =~= a);
        assert(b.take(k) =~= b);
    }
}

impl Transpose<ColVec> for RowVec {
    fn transpose(&self) -> (r: ColVec)
        ensures
            r@ == self@,
    {
        ColVec { values: self.values.clone() }
    }
}

} // verus!
