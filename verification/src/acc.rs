//! Running statistics for one key.
//!
//! An [`Acc`] holds the minimum, maximum, sum and count of every value folded
//! into it so far. It starts at the neutral element (`min` at the top of the
//! range, `max` at the bottom, `sum` and `size` zero), grows one value at a
//! time with [`Acc::add_value`], and two accumulators combine componentwise
//! with [`Acc::add_acc`]. The sum is kept wide enough that, as long as the
//! count stays under [`MAX_COUNT`], no addition can overflow.

use vstd::math::{max, min};
use vstd::prelude::*;

verus! {

/// Largest record count an accumulator accepts; keeps `sum` within `i64`.
pub const MAX_COUNT: i64 = 0x4000_0000_0000;

/// Running statistics: minimum, sum, maximum and count of the values seen.
#[derive(Clone, Copy, Debug, PartialEq, Eq, Structural)]
pub struct Acc {
    pub min: i16,
    pub sum: i64,
    pub max: i16,
    pub size: i64,
}

/// The mathematical value of an accumulator.
pub struct AccModel {
    pub min: int,
    pub sum: int,
    pub max: int,
    pub size: int,
}

impl View for Acc {
    type V = AccModel;

    open spec fn view(&self) -> AccModel {
        AccModel { min: self.min as int, sum: self.sum as int, max: self.max as int, size: self.size as int }
    }
}

/// The accumulator of the empty value sequence.
pub open spec fn acc_empty() -> AccModel {
    AccModel { min: i16::MAX as int, sum: 0, max: i16::MIN as int, size: 0 }
}

/// One value folded into an accumulator.
pub open spec fn acc_add(a: AccModel, v: int) -> AccModel {
    AccModel { min: min(a.min, v), sum: a.sum + v, max: max(a.max, v), size: a.size + 1 }
}

/// Two accumulators combined componentwise.
pub open spec fn acc_merge(a: AccModel, b: AccModel) -> AccModel {
    AccModel { min: min(a.min, b.min), sum: a.sum + b.sum, max: max(a.max, b.max), size: a.size + b.size }
}

/// A representable accumulator: the count is within range and the sum is
/// bounded by the count times the widest value.
pub open spec fn acc_wf(a: AccModel) -> bool {
    &&& 0 <= a.size <= MAX_COUNT as int
    &&& -32768 * a.size <= a.sum <= 32768 * a.size
    &&& i16::MIN as int <= a.min <= i16::MAX as int
    &&& i16::MIN as int <= a.max <= i16::MAX as int
}

impl Default for Acc {
    /// The neutral accumulator, ready for its first value.
    fn default() -> (r: Self)
        ensures
            r@ == acc_empty(),
            acc_wf(r@),
    {
        Acc { min: i16::MAX, sum: 0, max: i16::MIN, size: 0 }
    }
}

impl Acc {
    /// Folds one value into the running statistics.
    pub fn add_value(&mut self, v: i16)
        requires
            acc_wf(old(self)@),
            old(self)@.size < MAX_COUNT as int,
        ensures
            final(self)@ == acc_add(old(self)@, v as int),
            acc_wf(final(self)@),
    {
        if v < self.min {
            self.min = v;
        }
        if v > self.max {
            self.max = v;
        }
        self.sum = self.sum + (v as i64);
        self.size = self.size + 1;
    }

    /// Combines another accumulator into this one, componentwise.
    pub fn add_acc(&mut self, other: &Self)
        requires
            acc_wf(old(self)@),
            acc_wf(other@),
            old(self)@.size + other@.size <= MAX_COUNT as int,
        ensures
            final(self)@ == acc_merge(old(self)@, other@),
            acc_wf(final(self)@),
    {
        if other.min < self.min {
            self.min = other.min;
        }
        if other.max > self.max {
            self.max = other.max;
        }
        self.sum = self.sum + other.sum;
        self.size = self.size + other.size;
    }
}

/// Combining accumulators is commutative and, in combination with
/// [`lemma_merge_assoc`], order-independent: the final table does not depend
/// on the order in which partial accumulators arrive.
pub proof fn lemma_merge_comm(a: AccModel, b: AccModel)
    ensures
        acc_merge(a, b) == acc_merge(b, a),
{
}

/// Combining accumulators is associative.
pub proof fn lemma_merge_assoc(a: AccModel, b: AccModel, c: AccModel)
    ensures
        acc_merge(acc_merge(a, b), c) == acc_merge(a, acc_merge(b, c)),
{
}

/// The accumulator of a whole value sequence, folded left to right.
pub open spec fn acc_of(vs: Seq<int>) -> AccModel
    decreases vs.len(),
{
    if vs.len() == 0 {
        acc_empty()
    } else {
        acc_add(acc_of(vs.drop_last()), vs.last())
    }
}

/// The least element of a non-empty value sequence.
pub open spec fn seq_min(vs: Seq<int>) -> int
    decreases vs.len(),
{
    if vs.len() <= 1 {
        vs[0]
    } else {
        min(seq_min(vs.drop_last()), vs.last())
    }
}

/// The greatest element of a non-empty value sequence.
pub open spec fn seq_max(vs: Seq<int>) -> int
    decreases vs.len(),
{
    if vs.len() <= 1 {
        vs[0]
    } else {
        max(seq_max(vs.drop_last()), vs.last())
    }
}

/// The sum of a value sequence.
pub open spec fn seq_sum(vs: Seq<int>) -> int
    decreases vs.len(),
{
    if vs.len() == 0 {
        0
    } else {
        seq_sum(vs.drop_last()) + vs.last()
    }
}

/// Accumulator correctness: over any non-empty sequence of representable
/// values, the folded accumulator carries exactly the sequence's minimum,
/// maximum, sum and length.
pub proof fn lemma_acc_of_correct(vs: Seq<int>)
    requires
        vs.len() > 0,
        forall|i: int| 0 <= i < vs.len() ==> i16::MIN as int <= #[trigger] vs[i] <= i16::MAX as int,
    ensures
        acc_of(vs).min == seq_min(vs),
        acc_of(vs).max == seq_max(vs),
        acc_of(vs).sum == seq_sum(vs),
        acc_of(vs).size == vs.len(),
    decreases vs.len(),
{
    if vs.len() == 1 {
        assert(vs.drop_last().len() == 0);
        assert(acc_of(vs.drop_last()) == acc_empty());
        assert(seq_sum(vs.drop_last()) == 0);
    } else {
        lemma_acc_of_correct(vs.drop_last());
    }
}

} // verus!
