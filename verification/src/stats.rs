//! The running aggregate kept for one key: minimum, maximum, sum and count.

use vstd::prelude::*;

verus! {

/// The aggregate of one key as mathematical integers, all values in tenths.
pub struct Stats {
    pub min: int,
    pub max: int,
    pub sum: int,
    pub count: nat,
}

pub open spec fn least(a: int, b: int) -> int {
    if a <= b {
        a
    } else {
        b
    }
}

pub open spec fn greatest(a: int, b: int) -> int {
    if a >= b {
        a
    } else {
        b
    }
}

/// `sum / count`, rounded to the nearest integer, halves away from zero.
pub open spec fn rounded_mean(sum: int, count: int) -> int {
    let magnitude = if sum < 0 {
        -sum
    } else {
        sum
    };
    let quotient = magnitude / count;
    let rounded = if 2 * (magnitude % count) >= count {
        quotient + 1
    } else {
        quotient
    };
    if sum < 0 {
        -rounded
    } else {
        rounded
    }
}

impl Stats {
    /// The aggregate of a single value.
    pub open spec fn single(value: int) -> Stats {
        Stats { min: value, max: value, sum: value, count: 1 }
    }

    /// The aggregate after one more value.
    pub open spec fn observe(self, value: int) -> Stats {
        Stats {
            min: least(self.min, value),
            max: greatest(self.max, value),
            sum: self.sum + value,
            count: self.count + 1,
        }
    }

    /// The aggregate of the values behind `self` and the values behind `other`.
    pub open spec fn combine(self, other: Stats) -> Stats {
        Stats {
            min: least(self.min, other.min),
            max: greatest(self.max, other.max),
            sum: self.sum + other.sum,
            count: self.count + other.count,
        }
    }

    /// The mean in tenths, rounded to the nearest tenth.
    pub open spec fn mean(self) -> int {
        rounded_mean(self.sum, self.count as int)
    }
}

/// The aggregate of one key, in machine integers.
#[derive(Clone, Copy, Debug, PartialEq, Eq, Structural)]
pub struct StationData {
    pub min_report: i64,
    pub max_report: i64,
    pub report_sum: i128,
    pub report_count: usize,
}

impl View for StationData {
    type V = Stats;

    open spec fn view(&self) -> Stats {
        Stats {
            min: self.min_report as int,
            max: self.max_report as int,
            sum: self.report_sum as int,
            count: self.report_count as nat,
        }
    }
}

impl StationData {
    /// The sum is one that `report_count` values of 64 bits can have, which
    /// keeps every further addition inside 128 bits.
    pub open spec fn well_formed(&self) -> bool {
        -(self.report_count * 0x8000_0000_0000_0000) <= self.report_sum <= self.report_count
            * 0x8000_0000_0000_0000
    }

    /// An aggregate of no values: the minimum and the maximum start at the
    /// far ends of their type, so that the first value replaces both.
    pub fn new() -> (empty: StationData)
        ensures
            empty.min_report == i64::MAX,
            empty.max_report == i64::MIN,
            empty.report_sum == 0,
            empty.report_count == 0,
            empty.well_formed(),
    {
        StationData { min_report: i64::MAX, max_report: i64::MIN, report_sum: 0, report_count: 0 }
    }

    /// Takes one more value into the aggregate.
    pub fn record(&mut self, value: i64)
        requires
            old(self).well_formed(),
            old(self).report_count < usize::MAX,
        ensures
            final(self)@ == old(self)@.observe(value as int),
            final(self).well_formed(),
    {
        if value > self.max_report {
            self.max_report = value;
        }
        if value < self.min_report {
            self.min_report = value;
        }
        self.report_sum += value as i128;
        self.report_count += 1;
    }

    /// Takes the values behind `other` into the aggregate.
    pub fn merge(&mut self, other: &StationData)
        requires
            old(self).well_formed(),
            other.well_formed(),
            old(self).report_count + other.report_count <= usize::MAX,
        ensures
            final(self)@ == old(self)@.combine(other@),
            final(self).well_formed(),
    {
        if other.max_report > self.max_report {
            self.max_report = other.max_report;
        }
        if other.min_report < self.min_report {
            self.min_report = other.min_report;
        }
        self.report_sum += other.report_sum;
        self.report_count += other.report_count;
    }

    /// The mean of the values in tenths, rounded to the nearest tenth, halves
    /// away from zero.
    pub fn mean(&self) -> (mean: i128)
        requires
            self.well_formed(),
            self.report_count > 0,
        ensures
            mean == self@.mean(),
    {
        let count: u128 = self.report_count as u128;
        let negative = self.report_sum < 0;
        let magnitude: u128 = if negative {
            (-(self.report_sum + 1)) as u128 + 1
        } else {
            self.report_sum as u128
        };
        let quotient: u128 = magnitude / count;
        let remainder: u128 = magnitude % count;
        assert(quotient <= 0x8000_0000_0000_0000) by (nonlinear_arith)
            requires
                quotient == magnitude / count,
                count > 0,
                magnitude <= count * 0x8000_0000_0000_0000,
        ;
        let rounded: u128 = if 2 * remainder >= count {
            quotient + 1
        } else {
            quotient
        };
        if negative {
            -(rounded as i128)
        } else {
            rounded as i128
        }
    }
}

} // verus!
