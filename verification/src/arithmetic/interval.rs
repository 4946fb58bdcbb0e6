//! The coding interval, as mathematics and in registers.
//!
//! Both coders keep an interval `[low, high]` of 32-bit integers. Coding a
//! symbol narrows it to the symbol's share; renormalization then doubles it
//! for as long as it lies in one half of the register range, or straddles
//! the midpoint within the middle half.
use vstd::prelude::*;
use crate::arithmetic::model::{ModelView, PRange, MAX_CHARACTER_COUNT, lemma_table_monotonic};

verus! {

/// Half of the register range.
pub const HALF_U32: u32 = 0x8000_0000;

/// Three quarters of the register range.
pub const THREE_FOURTHS_U32: u32 = 0xC000_0000;

/// A quarter of the register range.
pub const ONE_FOURTH_U32: u32 = 0x4000_0000;

/// The number of values a register can hold.
pub open spec fn register_range() -> int {
    0x1_0000_0000
}

/// A coding interval, both bounds inclusive.
pub struct Interval {
    pub low: int,
    pub high: int,
}

impl Interval {
    /// The whole register range.
    pub open spec fn full() -> Interval {
        Interval { low: 0, high: 0xFFFF_FFFF }
    }

    /// The bounds are in order and fit a register.
    pub open spec fn valid(self) -> bool {
        0 <= self.low <= self.high < register_range()
    }

    /// The number of values in the interval.
    pub open spec fn width(self) -> int {
        self.high - self.low + 1
    }

    /// Whether `value` lies in the interval.
    pub open spec fn contains(self, value: int) -> bool {
        self.low <= value <= self.high
    }

    /// The part of the interval that belongs to the share
    /// `[lower / denom, upper / denom)`.
    pub open spec fn narrow(self, lower: int, upper: int, denom: int) -> Interval {
        Interval {
            low: self.low + self.width() * lower / denom,
            high: self.low + self.width() * upper / denom - 1,
        }
    }

    /// The interval lies in the lower half of the register range.
    pub open spec fn in_lower_half(self) -> bool {
        self.high < HALF_U32
    }

    /// The interval lies in the upper half of the register range.
    pub open spec fn in_upper_half(self) -> bool {
        self.low >= HALF_U32
    }

    /// The interval straddles the midpoint within the middle half.
    pub open spec fn in_middle(self) -> bool {
        self.low >= ONE_FOURTH_U32 && self.high < THREE_FOURTHS_U32
    }

    /// The interval is valid and no renormalization step applies to it.
    pub open spec fn settled(self) -> bool {
        &&& self.valid()
        &&& !self.in_lower_half()
        &&& !self.in_upper_half()
        &&& !self.in_middle()
    }

    /// The interval moved down by `offset` and doubled, its upper bound
    /// gaining a trailing one.
    pub open spec fn expand(self, offset: int) -> Interval {
        Interval { low: 2 * (self.low - offset), high: 2 * (self.high - offset) + 1 }
    }
}

/// A share of an interval that is at least as wide as the denominator is a
/// non-empty part of it.
pub proof fn lemma_narrow(interval: Interval, lower: int, upper: int, denom: int)
    requires
        interval.valid(),
        0 <= lower < upper <= denom <= interval.width(),
    ensures
        interval.narrow(lower, upper, denom).valid(),
        interval.low <= interval.narrow(lower, upper, denom).low,
        interval.narrow(lower, upper, denom).high <= interval.high,
{
    let w = interval.width();
    lemma_share(w, lower, upper, denom);
}

/// The arithmetic behind `lemma_narrow`: the scaled bounds of a share are
/// in order, at least one apart, and within the width.
pub proof fn lemma_share(w: int, lower: int, upper: int, denom: int)
    requires
        0 <= lower < upper <= denom <= w,
    ensures
        0 <= w * lower / denom < w * upper / denom <= w,
{
    assert(w * lower >= 0) by (nonlinear_arith)
        requires
            w >= 0,
            lower >= 0,
    ;
    assert(w * upper >= w * lower + denom) by (nonlinear_arith)
        requires
            w >= denom,
            upper >= lower + 1,
            denom > 0,
    ;
    assert(w * upper <= w * denom) by (nonlinear_arith)
        requires
            w >= 0,
            upper <= denom,
    ;
    lemma_div_step(w * lower, w * upper, denom);
    assert(w * upper / denom <= w) by (nonlinear_arith)
        requires
            w * upper <= w * denom,
            denom > 0,
    ;
    assert(w * lower / denom >= 0) by (nonlinear_arith)
        requires
            w * lower >= 0,
            denom > 0,
    ;
}

/// A numerator that is larger by at least the denominator has a larger
/// quotient.
pub proof fn lemma_div_step(a: int, b: int, d: int)
    requires
        d > 0,
        b >= a + d,
    ensures
        a / d < b / d,
{
    assert(a / d < b / d) by (nonlinear_arith)
        requires
            d > 0,
            b >= a + d,
    ;
}

/// A renormalization step doubles the width and keeps the interval valid.
pub proof fn lemma_expand(interval: Interval)
    requires
        interval.valid(),
    ensures
        interval.in_lower_half() ==> interval.expand(0).valid() && interval.expand(0).width() == 2
            * interval.width(),
        interval.in_upper_half() ==> interval.expand(HALF_U32 as int).valid() && interval.expand(
            HALF_U32 as int,
        ).width() == 2 * interval.width(),
        interval.in_middle() ==> interval.expand(ONE_FOURTH_U32 as int).valid() && interval.expand(
            ONE_FOURTH_U32 as int,
        ).width() == 2 * interval.width(),
{
}

/// The range of every symbol of a well-formed model is a proper share of
/// the total.
pub proof fn lemma_model_share(model: ModelView, symbol: int)
    requires
        model.wf(),
        0 <= symbol <= 256,
    ensures
        0 <= model.lower(symbol) < model.upper(symbol) <= model.total() <= MAX_CHARACTER_COUNT,
        model.upper(symbol) - model.lower(symbol) < model.total(),
{
    lemma_table_monotonic(model, symbol, 256);
    lemma_table_monotonic(model, 0, symbol);
    if symbol > 0 {
        lemma_table_monotonic(model, 0, symbol - 1);
        lemma_table_monotonic(model, symbol - 1, symbol);
    } else {
        lemma_table_monotonic(model, 0, 256);
    }
}

/// Narrows the registers `low` and `high` to the share `p`, in 64-bit
/// arithmetic.
pub(crate) fn narrow_registers(low: u32, high: u32, p: PRange) -> (narrowed: (u32, u32))
    requires
        low <= high,
        p.wf(),
        p.denom <= high - low + 1,
        p.denom <= MAX_CHARACTER_COUNT,
    ensures
        ({
            let interval = Interval { low: low as int, high: high as int };
            let target = interval.narrow(p.lower as int, p.upper as int, p.denom as int);
            &&& narrowed.0 == target.low
            &&& narrowed.1 == target.high
            &&& low <= narrowed.0 <= narrowed.1 <= high
        }),
{
    let range: u64 = high as u64 - low as u64 + 1;
    proof {
        lemma_share(range as int, p.lower as int, p.upper as int, p.denom as int);
        assert(range * p.upper <= 0x1_0000_0000 * 0x4000_0000) by (nonlinear_arith)
            requires
                0 <= range <= 0x1_0000_0000,
                0 <= p.upper <= 0x4000_0000,
        ;
        assert(range * p.lower <= range * p.upper) by (nonlinear_arith)
            requires
                0 <= range,
                0 <= p.lower <= p.upper,
        ;
    }
    let new_high: u32 = low + (((range * p.upper as u64) / p.denom as u64) - 1) as u32;
    let new_low: u32 = low + ((range * p.lower as u64) / p.denom as u64) as u32;
    (new_low, new_high)
}

} // verus!
