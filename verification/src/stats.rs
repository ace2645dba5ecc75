//! The accumulator kept for one key: least and greatest reading, their exact
//! sum and their number.

use crate::summary::Summary;
use vstd::prelude::*;

verus! {

/// Running statistics of the readings seen for one key.
///
/// Readings are whole numbers of the smallest unit that the input format
/// resolves. The sum is kept in 128 bits: it can then never overflow, however
/// many 64-bit readings a `usize` can count.
#[derive(Clone, Copy, Debug)]
pub struct TempStats {
    min: i64,
    max: i64,
    sum: i128,
    count: usize,
}

impl View for TempStats {
    type V = Summary;

    closed spec fn view(&self) -> Summary {
        Summary {
            min: self.min as int,
            max: self.max as int,
            sum: self.sum as int,
            count: self.count as nat,
        }
    }
}

/// A summary that an accumulator can hold: consistent, with extremes that fit
/// a reading and a count that fits the machine.
pub open spec fn representable(s: Summary) -> bool {
    &&& s.consistent()
    &&& i64::MIN <= s.min
    &&& s.max <= i64::MAX
    &&& s.count <= usize::MAX
}

/// The bounds within which the sum of a representable summary lies.
pub proof fn lemma_sum_bounds(s: Summary)
    requires
        representable(s),
    ensures
        -0x8000_0000_0000_0000 * s.count <= s.sum <= 0x7fff_ffff_ffff_ffff * s.count,
        i128::MIN <= s.sum - 0x8000_0000_0000_0000,
        s.sum + 0x8000_0000_0000_0000 < i128::MAX,
{
    let c = s.count as int;
    assert(c * s.min >= c * (-0x8000_0000_0000_0000)) by (nonlinear_arith)
        requires
            c >= 0,
            s.min >= -0x8000_0000_0000_0000,
    ;
    assert(c * s.max <= c * 0x7fff_ffff_ffff_ffff) by (nonlinear_arith)
        requires
            c >= 0,
            s.max <= 0x7fff_ffff_ffff_ffff,
    ;
    assert(c * 0x8000_0000_0000_0000 <= 0xffff_ffff_ffff_ffff * 0x8000_0000_0000_0000)
        by (nonlinear_arith)
        requires
            0 <= c <= 0xffff_ffff_ffff_ffff,
    ;
}

/// The mean of a consistent summary, rounded down, lies between its extremes.
pub proof fn lemma_mean_between_extremes(s: Summary)
    requires
        s.consistent(),
    ensures
        s.min <= s.mean_floor() <= s.max,
{
    let c = s.count as int;
    let q = s.sum / c;
    assert(s.min <= q && q <= s.max) by (nonlinear_arith)
        requires
            c >= 1,
            c * s.min <= s.sum,
            s.sum <= c * s.max,
            q == s.sum / c,
    ;
}

impl TempStats {
    /// Whether the accumulator stands for at least one reading and its fields
    /// agree with one another.
    pub open spec fn wf(&self) -> bool {
        representable(self@)
    }

    /// An accumulator that has seen exactly one reading.
    pub fn new(temp: i64) -> (stats: Self)
        ensures
            stats.wf(),
            stats@ == Summary::single(temp as int),
    {
        let stats = TempStats { min: temp, max: temp, sum: temp as i128, count: 1 };
        assert(stats@.count * stats@.min == stats@.sum) by (nonlinear_arith)
            requires
                stats@.count == 1,
                stats@.sum == stats@.min,
        ;
        stats
    }

    /// Takes one more reading into the accumulator.
    pub fn update(&mut self, temp: i64)
        requires
            old(self).wf(),
            old(self)@.count < usize::MAX,
        ensures
            final(self).wf(),
            final(self)@ == old(self)@.observe(temp as int),
    {
        proof {
            lemma_sum_bounds(self@);
            crate::summary::lemma_observe_consistent(self@, temp as int);
        }
        if temp < self.min {
            self.min = temp;
        }
        if temp > self.max {
            self.max = temp;
        }
        self.sum = self.sum + temp as i128;
        self.count = self.count + 1;
    }

    /// Takes all the readings of another accumulator into this one.
    pub fn merge(&mut self, other: &TempStats)
        requires
            old(self).wf(),
            other.wf(),
            old(self)@.count + other@.count <= usize::MAX,
        ensures
            final(self).wf(),
            final(self)@ == old(self)@.merge(other@),
    {
        proof {
            lemma_sum_bounds(self@);
            lemma_sum_bounds(other@);
            crate::summary::lemma_merge_consistent(self@, other@);
            let a = self@.count as int;
            let b = other@.count as int;
            assert(a * 0x8000_0000_0000_0000 + b * 0x8000_0000_0000_0000 <= 0xffff_ffff_ffff_ffff
                * 0x8000_0000_0000_0000) by (nonlinear_arith)
                requires
                    0 <= a,
                    0 <= b,
                    a + b <= 0xffff_ffff_ffff_ffff,
            ;
        }
        if other.min < self.min {
            self.min = other.min;
        }
        if other.max > self.max {
            self.max = other.max;
        }
        self.sum = self.sum + other.sum;
        self.count = self.count + other.count;
    }

    /// The least reading seen.
    pub fn min(&self) -> (value: i64)
        ensures
            value == self@.min,
    {
        self.min
    }

    /// The greatest reading seen.
    pub fn max(&self) -> (value: i64)
        ensures
            value == self@.max,
    {
        self.max
    }

    /// The exact sum of the readings seen.
    pub fn sum(&self) -> (value: i128)
        ensures
            value == self@.sum,
    {
        self.sum
    }

    /// The number of readings seen.
    pub fn count(&self) -> (value: usize)
        ensures
            value == self@.count,
    {
        self.count
    }

    /// The mean of the readings seen, rounded down to a whole unit.
    pub fn mean(&self) -> (value: i64)
        requires
            self.wf(),
        ensures
            value == self@.mean_floor(),
    {
        proof {
            lemma_sum_bounds(self@);
            lemma_mean_between_extremes(self@);
        }
        let count: u128 = self.count as u128;
        if self.sum >= 0 {
            let quotient: u128 = (self.sum as u128) / count;
            quotient as i64
        } else {
            let magnitude: u128 = (-self.sum) as u128;
            let quotient: u128 = (magnitude + (count - 1)) / count;
            proof {
                lemma_floor_of_negative(magnitude as int, count as int);
            }
            (-(quotient as i128)) as i64
        }
    }
}

/// Rounding a negative quotient down is rounding its magnitude up.
proof fn lemma_floor_of_negative(magnitude: int, divisor: int)
    requires
        magnitude > 0,
        divisor > 0,
    ensures
        (-magnitude) / divisor == -((magnitude + divisor - 1) / divisor),
{
    let q = (magnitude + divisor - 1) / divisor;
    let r = (magnitude + divisor - 1) % divisor;
    vstd::arithmetic::div_mod::lemma_fundamental_div_mod(magnitude + divisor - 1, divisor);
    assert(-magnitude == (-q) * divisor + (divisor - r - 1)) by (nonlinear_arith)
        requires
            magnitude + divisor - 1 == divisor * q + r,
    ;
    vstd::arithmetic::div_mod::lemma_fundamental_div_mod_converse(
        -magnitude,
        divisor,
        -q,
        divisor - r - 1,
    );
}

} // verus!
