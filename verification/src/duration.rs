//! Time intervals at whole-second plus nanosecond resolution.
//!
//! Media manifests declare segment lengths as fractional seconds and bound
//! them by whole seconds, while group totals are accumulated at whole
//! milliseconds to avoid rounding drift.  This module holds the interval
//! type and the millisecond arithmetic on it.

use vstd::prelude::*;

verus! {

/// A non-negative time interval: `secs` whole seconds plus `nanos`
/// nanoseconds.  Mirrors the seconds/nanoseconds split of
/// `core::time::Duration`, with the parts held as plain integers so that
/// contracts can speak of them directly.
#[derive(Debug, Clone, Copy, PartialEq, Eq, Structural)]
pub struct Duration {
    pub secs: u64,
    pub nanos: u32,
}

impl Duration {
    /// The interval in whole milliseconds, truncating any sub-millisecond part.
    pub open spec fn spec_millis(self) -> int {
        self.secs * 1000 + self.nanos / 1_000_000
    }

    /// An interval of `ms` whole milliseconds and nothing finer.
    pub open spec fn spec_from_millis(ms: u64) -> Duration {
        Duration { secs: (ms / 1000) as u64, nanos: ((ms % 1000) * 1_000_000) as u32 }
    }

    /// Millisecond sum of two intervals, saturating at the largest
    /// representable whole-millisecond interval.
    pub open spec fn spec_add_millis(self, other: Duration) -> Duration {
        let total = self.spec_millis() + other.spec_millis();
        if total <= u64::MAX {
            Duration::spec_from_millis(total as u64)
        } else {
            Duration::spec_from_millis(u64::MAX)
        }
    }

    /// The zero interval.
    pub fn zero() -> (d: Duration)
        ensures
            d == (Duration { secs: 0, nanos: 0 }),
    {
        Duration { secs: 0, nanos: 0 }
    }

    /// An interval of exactly `s` whole seconds.
    pub fn from_secs(s: u64) -> (d: Duration)
        ensures
            d == (Duration { secs: s, nanos: 0 }),
    {
        Duration { secs: s, nanos: 0 }
    }

    /// The interval in whole milliseconds.
    pub fn millis(&self) -> (ms: u128)
        ensures
            ms == self.spec_millis(),
    {
        (self.secs as u128) * 1000 + ((self.nanos / 1_000_000) as u128)
    }

    /// An interval of `ms` whole milliseconds.
    pub fn from_millis(ms: u64) -> (d: Duration)
        ensures
            d == Duration::spec_from_millis(ms),
    {
        Duration { secs: ms / 1000, nanos: (ms % 1000) as u32 * 1_000_000 }
    }

    /// Millisecond sum of two intervals, saturating at the largest
    /// representable whole-millisecond interval.
    pub fn add_millis(&self, other: &Duration) -> (d: Duration)
        ensures
            d == self.spec_add_millis(*other),
    {
        let a: u128 = self.millis();
        let b: u128 = other.millis();
        let total: u128 = a + b;
        if total <= u64::MAX as u128 {
            Duration::from_millis(total as u64)
        } else {
            Duration::from_millis(u64::MAX)
        }
    }

    /// Converting a whole-millisecond count to an interval loses nothing.
    pub proof fn lemma_from_millis_exact(ms: u64)
        ensures
            Duration::spec_from_millis(ms).spec_millis() == ms,
    {
        assert((ms % 1000) * 1_000_000 / 1_000_000 == ms % 1000) by (nonlinear_arith);
        assert(ms / 1000 * 1000 + ms % 1000 == ms) by (nonlinear_arith);
    }
}

/// The outcome of reading a fractional-seconds payload: the whole-second
/// and nanosecond parts of the interval that the standard library yields
/// for those characters, or nothing when they do not parse as a finite
/// number or do not fit an interval.
pub uninterp spec fn float_secs_of(s: Seq<char>) -> Option<(u64, u32)>;

/// Relies on `str::parse` to a 32-bit binary float and on
/// `core::time::Duration::try_from_secs_f32`: both depend on the
/// characters alone, so their outcome is a single-valued function of `s`,
/// named `float_secs_of` above.  `try_from_secs_f32` returns an error for
/// negative, non-finite or overlarge values rather than panicking, and
/// `as_secs` and `subsec_nanos` read the interval's two parts out.
#[verifier::external_body]
pub(crate) fn parse_fractional_secs(s: &Vec<char>) -> (r: Option<(u64, u32)>)
    ensures
        r == float_secs_of(s@),
{
    let text: String = s.iter().collect();
    match text.parse() {
        Ok(x) => match core::time::Duration::try_from_secs_f32(x) {
            Ok(d) => Some((d.as_secs(), d.subsec_nanos())),
            Err(_) => None,
        },
        Err(_) => None,
    }
}

} // verus!
