use vstd::prelude::*;

verus! {

/// A span of time, measured in whole nanoseconds.
///
/// The value of a duration is its length in nanoseconds (`self@`). Every
/// constructor keeps it at or below `max_duration_nanos()`, the length of the
/// longest span that `u64` seconds plus a sub-second part can express.
#[derive(Clone, Copy, Debug, PartialEq, Eq, PartialOrd, Ord, Hash, Structural)]
pub struct Duration {
    nanos: u128,
}

impl View for Duration {
    type V = int;

    closed spec fn view(&self) -> int {
        self.nanos as int
    }
}

/// The largest representable duration, in nanoseconds.
pub open spec fn max_duration_nanos() -> int {
    u64::MAX * 1_000_000_000 + 999_999_999
}

/// The largest value that `u64` nanoseconds can hold.
pub open spec fn u64_nanos_cap(n: int) -> int {
    if n <= u64::MAX {
        n
    } else {
        u64::MAX as int
    }
}

/// The duration of `n` nanoseconds (for `0 <= n <= u128::MAX`).
pub closed spec fn duration_of(n: int) -> Duration {
    Duration { nanos: n as u128 }
}

/// The sum of two durations, saturating at the longest span.
pub open spec fn saturating_sum(a: Duration, b: Duration) -> Duration {
    if a@ + b@ <= max_duration_nanos() {
        duration_of(a@ + b@)
    } else {
        duration_of(max_duration_nanos())
    }
}

/// A duration is determined by its length.
pub proof fn lemma_duration_view_eq(a: Duration, b: Duration)
    requires
        a@ == b@,
    ensures
        a == b,
{
}

/// `duration_of` builds the duration of the given length.
pub broadcast proof fn lemma_duration_of(n: int)
    requires
        0 <= n <= u128::MAX,
    ensures
        #[trigger] duration_of(n)@ == n,
{
}

/// Every duration has a length in `0..=u128::MAX`.
pub broadcast proof fn lemma_duration_range(d: Duration)
    ensures
        0 <= #[trigger] d@ <= u128::MAX,
{
}

impl Duration {

    pub fn zero() -> (d: Duration)
        ensures
            d@ == 0,
    {
        Duration { nanos: 0 }
    }

    pub fn from_secs(secs: u64) -> (d: Duration)
        ensures
            d@ == secs * 1_000_000_000,
    {
        Duration { nanos: secs as u128 * 1_000_000_000 }
    }

    pub fn from_millis(millis: u64) -> (d: Duration)
        ensures
            d@ == millis * 1_000_000,
    {
        Duration { nanos: millis as u128 * 1_000_000 }
    }

    pub fn from_micros(micros: u64) -> (d: Duration)
        ensures
            d@ == micros * 1_000,
    {
        Duration { nanos: micros as u128 * 1_000 }
    }

    pub fn from_nanos(nanos: u64) -> (d: Duration)
        ensures
            d@ == nanos,
    {
        Duration { nanos: nanos as u128 }
    }

    /// The length of the span in nanoseconds.
    pub fn as_nanos(&self) -> (n: u128)
        ensures
            n == self@,
    {
        self.nanos
    }

    /// Builds a duration of `nanos` nanoseconds, the value of `as_nanos`.
    pub fn from_total_nanos(nanos: u128) -> (d: Duration)
        requires
            nanos <= max_duration_nanos(),
        ensures
            d@ == nanos,
    {
        Duration { nanos }
    }

    /// The sum of two spans, or the longest span where the sum exceeds it.
    pub fn saturating_add(self, other: Duration) -> (d: Duration)
        ensures
            d == saturating_sum(self, other),
            d@ == if self@ + other@ <= max_duration_nanos() {
                self@ + other@
            } else {
                max_duration_nanos()
            },
    {
        let max: u128 = 18_446_744_073_709_551_615u128 * 1_000_000_000 + 999_999_999;
        match self.nanos.checked_add(other.nanos) {
            Some(sum) => {
                if sum <= max {
                    Duration { nanos: sum }
                } else {
                    Duration { nanos: max }
                }
            },
            None => Duration { nanos: max },
        }
    }

    /// `self` is not longer than `other`.
    pub fn le(&self, other: &Duration) -> (b: bool)
        ensures
            b == (self@ <= other@),
    {
        self.nanos <= other.nanos
    }

    /// `self` is strictly shorter than `other`.
    pub fn lt(&self, other: &Duration) -> (b: bool)
        ensures
            b == (self@ < other@),
    {
        self.nanos < other.nanos
    }

    /// The length in nanoseconds, capped at the largest `u64`.
    pub fn as_nanos_u64_saturating(&self) -> (n: u64)
        ensures
            n == u64_nanos_cap(self@),
    {
        if self.nanos <= 18_446_744_073_709_551_615u128 {
            self.nanos as u64
        } else {
            u64::MAX
        }
    }
}

} // verus!
