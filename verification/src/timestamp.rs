//! Playback timestamps: non-negative durations with millisecond resolution.

use vstd::prelude::*;

verus! {

/// A non-negative duration measured in whole milliseconds.
///
/// Timestamps order totally by their millisecond count and are the time
/// coordinate of every line and segment in a document, as well as of the
/// playback clock.
#[derive(Clone, Copy, PartialEq, Eq, Structural, Debug)]
pub struct Timestamp {
    pub millis: u64,
}

impl Timestamp {
    /// The zero duration.
    pub fn zero() -> (r: Timestamp)
        ensures
            r.millis == 0,
    {
        Timestamp { millis: 0 }
    }

    /// The timestamp holding exactly `ms` milliseconds.
    pub fn from_millis(ms: u64) -> (r: Timestamp)
        ensures
            r.millis == ms,
    {
        Timestamp { millis: ms }
    }

    /// True when `self` is strictly earlier than `other`.
    pub fn lt(self, other: Timestamp) -> (r: bool)
        ensures
            r == (self.millis < other.millis),
    {
        self.millis < other.millis
    }

    /// True when `self` is no later than `other`.
    pub fn le(self, other: Timestamp) -> (r: bool)
        ensures
            r == (self.millis <= other.millis),
    {
        self.millis <= other.millis
    }

    /// Sum of two durations, clamped at the largest representable value.
    pub fn saturating_add(self, other: Timestamp) -> (r: Timestamp)
        ensures
            self.millis + other.millis <= u64::MAX ==> r.millis == self.millis + other.millis,
            self.millis + other.millis > u64::MAX ==> r.millis == u64::MAX,
    {
        if self.millis <= u64::MAX - other.millis {
            Timestamp { millis: self.millis + other.millis }
        } else {
            Timestamp { millis: u64::MAX }
        }
    }

    /// Difference of two durations, clamped at zero.
    pub fn saturating_sub(self, other: Timestamp) -> (r: Timestamp)
        ensures
            self.millis >= other.millis ==> r.millis == self.millis - other.millis,
            self.millis < other.millis ==> r.millis == 0,
    {
        if self.millis >= other.millis {
            Timestamp { millis: self.millis - other.millis }
        } else {
            Timestamp { millis: 0 }
        }
    }

    /// Whole minutes contained in the duration.
    pub fn minutes(self) -> (r: u64)
        ensures
            r == self.millis / 60000,
    {
        self.millis / 60000
    }

    /// Seconds shown on a clock face: the second count modulo one minute.
    pub fn seconds_part(self) -> (r: u64)
        ensures
            r == (self.millis / 1000) % 60,
    {
        (self.millis / 1000) % 60
    }

    /// Milliseconds shown on a clock face: the count modulo one second.
    pub fn millis_part(self) -> (r: u64)
        ensures
            r == self.millis % 1000,
    {
        self.millis % 1000
    }

    /// Rebuilds a timestamp from a minute, second and millisecond reading,
    /// clamped at the largest representable value.
    pub fn from_parts(minutes: u64, seconds: u64, millis: u64) -> (r: Timestamp)
        ensures
            minutes * 60000 + seconds * 1000 + millis <= u64::MAX
                ==> r.millis == minutes * 60000 + seconds * 1000 + millis,
            minutes * 60000 + seconds * 1000 + millis > u64::MAX ==> r.millis == u64::MAX,
    {
        if minutes <= u64::MAX / 60000 {
            let m: u64 = minutes * 60000;
            if seconds <= (u64::MAX - m) / 1000 {
                let s: u64 = seconds * 1000;
                if millis <= u64::MAX - m - s {
                    return Timestamp { millis: m + s + millis };
                }
            }
        }
        proof {
            lemma_parts_large(minutes, seconds, millis);
        }
        Timestamp { millis: u64::MAX }
    }
}

/// When any clamped branch of `from_parts` is taken, the exact sum indeed
/// exceeds the representable range.
proof fn lemma_parts_large(minutes: u64, seconds: u64, millis: u64)
    requires
        minutes > u64::MAX / 60000 || (minutes * 60000 <= u64::MAX && seconds > (u64::MAX
            - minutes * 60000) / 1000) || (minutes * 60000 + seconds * 1000 <= u64::MAX && millis
            > u64::MAX - minutes * 60000 - seconds * 1000),
    ensures
        minutes * 60000 + seconds * 1000 + millis > u64::MAX,
{
    if minutes > u64::MAX / 60000 {
        assert(minutes >= u64::MAX / 60000 + 1);
        assert((u64::MAX / 60000 + 1) * 60000 > u64::MAX) by (nonlinear_arith);
        assert(minutes * 60000 >= (u64::MAX / 60000 + 1) * 60000) by (nonlinear_arith)
            requires
                minutes >= u64::MAX / 60000 + 1,
        ;
    } else if minutes * 60000 <= u64::MAX && seconds > (u64::MAX - minutes * 60000) / 1000 {
        let m = (minutes * 60000) as u64;
        assert(seconds >= (u64::MAX - m) / 1000 + 1);
        assert(((u64::MAX - m) / 1000 + 1) * 1000 > u64::MAX - m) by (nonlinear_arith);
        assert(seconds * 1000 >= ((u64::MAX - m) / 1000 + 1) * 1000) by (nonlinear_arith)
            requires
                seconds >= (u64::MAX - m) / 1000 + 1,
        ;
    }
}

} // verus!
