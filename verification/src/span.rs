//! Lengths of time in whole nanoseconds.

use crate::key::Duplicate;
use vstd::prelude::*;

verus! {

/// The longest span: as many seconds as a `u64` counts, less a nanosecond.
pub const MAX_NANOS: u128 = 18_446_744_073_709_551_615_999_999_999;

/// A length of time.
#[derive(Debug, Clone, Copy, PartialEq, Eq, PartialOrd, Ord, Hash, Structural)]
pub struct Span {
    pub nanos: u128,
}

impl View for Span {
    type V = Span;

    open spec fn view(&self) -> Span {
        *self
    }
}

impl Span {
    /// No time at all.
    pub fn zero() -> (span: Self)
        ensures
            span.nanos == 0,
    {
        Span { nanos: 0 }
    }

    pub fn from_nanos(nanos: u64) -> (span: Self)
        ensures
            span.nanos == nanos,
    {
        Span { nanos: nanos as u128 }
    }

    pub fn from_millis(millis: u64) -> (span: Self)
        ensures
            span.nanos == millis * 1_000_000,
    {
        Span { nanos: millis as u128 * 1_000_000 }
    }

    pub fn from_secs(secs: u64) -> (span: Self)
        ensures
            span.nanos == secs * 1_000_000_000,
    {
        Span { nanos: secs as u128 * 1_000_000_000 }
    }

    pub fn is_zero(&self) -> (zero: bool)
        ensures
            zero == (self.nanos == 0),
    {
        self.nanos == 0
    }

    /// The longer of two spans.
    pub fn longer(self, other: Span) -> (longest: Span)
        ensures
            longest == if self.nanos < other.nanos {
                other
            } else {
                self
            },
    {
        if self.nanos < other.nanos {
            other
        } else {
            self
        }
    }

    /// The nearest span between two bounds.
    pub open spec fn clamped(self, low: Span, high: Span) -> Span {
        if self.nanos < low.nanos {
            low
        } else if self.nanos > high.nanos {
            high
        } else {
            self
        }
    }

    /// The nearest span between two bounds.
    pub fn clamp_between(self, low: Span, high: Span) -> (nearest: Span)
        requires
            low.nanos <= high.nanos,
        ensures
            nearest == self.clamped(low, high),
            low.nanos <= nearest.nanos <= high.nanos,
    {
        if self.nanos < low.nanos {
            low
        } else if self.nanos > high.nanos {
            high
        } else {
            self
        }
    }

    /// So many times the span, if that is still a span.
    pub fn checked_mul(self, factor: u32) -> (product: Option<Span>)
        ensures
            product == if self.nanos * factor <= MAX_NANOS {
                Some(Span { nanos: (self.nanos * factor) as u128 })
            } else {
                None
            },
    {
        match self.nanos.checked_mul(factor as u128) {
            Some(nanos) => {
                if nanos <= MAX_NANOS {
                    Some(Span { nanos })
                } else {
                    None
                }
            },
            None => None,
        }
    }

    /// The span and another, or the longest span.
    pub open spec fn plus(self, other: Span) -> Span {
        if self.nanos + other.nanos <= MAX_NANOS {
            Span { nanos: (self.nanos + other.nanos) as u128 }
        } else {
            Span { nanos: MAX_NANOS }
        }
    }

    /// The span and another, or the longest span.
    pub fn saturating_plus(self, other: Span) -> (sum: Span)
        ensures
            sum == self.plus(other),
    {
        match self.checked_plus(other) {
            Some(sum) => sum,
            None => Span { nanos: MAX_NANOS },
        }
    }

    /// The span and another, if that is still a span.
    pub fn checked_plus(self, other: Span) -> (sum: Option<Span>)
        ensures
            sum == if self.nanos + other.nanos <= MAX_NANOS {
                Some(Span { nanos: (self.nanos + other.nanos) as u128 })
            } else {
                None
            },
    {
        match self.nanos.checked_add(other.nanos) {
            Some(nanos) => {
                if nanos <= MAX_NANOS {
                    Some(Span { nanos })
                } else {
                    None
                }
            },
            None => None,
        }
    }
}

impl Duplicate for Span {
    fn duplicate_value(&self) -> (copy: Self) {
        *self
    }
}

} // verus!
