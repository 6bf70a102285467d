//! Instants in time, and the clock.

use vstd::prelude::*;

verus! {

/// Nanoseconds in one millisecond.
pub const NANOS_PER_MILLI: i128 = 1_000_000;

/// The longest time, in nanoseconds, that an event may lie after the
/// reference time of the chunk that holds it: 65535 ms.
pub const WINDOW_NANOS: i128 = 65_535_000_000;

/// An instant: nanoseconds since the Unix epoch, in UTC.
#[derive(Debug, Clone, Copy, PartialEq, Eq, Structural)]
pub struct Timestamp {
    pub nanos: i128,
}

impl Timestamp {
    /// Nanoseconds from `earlier` to `self`; negative where `self` comes first.
    pub open spec fn nanos_since(self, earlier: Timestamp) -> int {
        self.nanos - earlier.nanos
    }

    /// Whether `self` lies more than a chunk's window after `earlier`.
    pub open spec fn spec_beyond_window(self, earlier: Timestamp) -> bool {
        self.nanos_since(earlier) > WINDOW_NANOS
    }

    /// The whole milliseconds from `earlier` to `self`, rounded towards zero.
    pub open spec fn whole_millis_since(self, earlier: Timestamp) -> int {
        let d = self.nanos_since(earlier);
        if d >= 0 {
            d / (NANOS_PER_MILLI as int)
        } else {
            -((-d) / (NANOS_PER_MILLI as int))
        }
    }

    /// The 16-bit offset at which an event at `self` is stored in a chunk
    /// whose reference time is `earlier`: the whole milliseconds between the
    /// two where they fit. An instant a millisecond or more before the
    /// reference time, or later than the window, is stored at 65535.
    pub open spec fn spec_offset_since(self, earlier: Timestamp) -> u16 {
        let ms = self.whole_millis_since(earlier);
        if 0 <= ms <= u16::MAX {
            ms as u16
        } else {
            u16::MAX
        }
    }

    /// The instant `ms` milliseconds after `self`, or the last instant that
    /// can be represented where that one cannot.
    pub open spec fn spec_plus_millis(self, ms: u16) -> Timestamp {
        let sum = self.nanos + ms * NANOS_PER_MILLI;
        Timestamp { nanos: if sum <= i128::MAX { sum as i128 } else { i128::MAX } }
    }

    /// Whether `self` lies more than 65535 ms after `earlier`.
    pub fn beyond_window(self, earlier: Timestamp) -> (r: bool)
        ensures
            r == self.spec_beyond_window(earlier),
    {
        if self.nanos <= earlier.nanos {
            false
        } else if earlier.nanos >= 0 {
            self.nanos - earlier.nanos > WINDOW_NANOS
        } else {
            self.nanos > i128::MAX + earlier.nanos || self.nanos - earlier.nanos > WINDOW_NANOS
        }
    }

    /// The offset at which an event at `self` is stored in a chunk whose
    /// reference time is `earlier`.
    pub fn offset_since(self, earlier: Timestamp) -> (r: u16)
        ensures
            r == self.spec_offset_since(earlier),
    {
        if self.nanos >= earlier.nanos {
            if self.beyond_window(earlier) {
                u16::MAX
            } else {
                let d: i128 = self.nanos - earlier.nanos;
                let ms: i128 = d / NANOS_PER_MILLI;
                ms as u16
            }
        } else if earlier.nanos < i128::MIN + NANOS_PER_MILLI {
            0
        } else if self.nanos > earlier.nanos - NANOS_PER_MILLI {
            0
        } else {
            u16::MAX
        }
    }

    /// The instant `ms` milliseconds after `self`.
    pub fn plus_millis(self, ms: u16) -> (r: Timestamp)
        ensures
            r == self.spec_plus_millis(ms),
    {
        let delta: i128 = (ms as i128) * NANOS_PER_MILLI;
        if self.nanos > i128::MAX - delta {
            Timestamp { nanos: i128::MAX }
        } else {
            Timestamp { nanos: self.nanos + delta }
        }
    }

    /// Reads the clock.
    ///
    /// Calls `time::OffsetDateTime::now_utc` and takes the reading's
    /// `unix_timestamp_nanos`. Nothing is claimed of the instant returned.
    #[verifier::external_body]
    pub(crate) fn now() -> (r: Timestamp) {
        Timestamp { nanos: time::OffsetDateTime::now_utc().unix_timestamp_nanos() }
    }
}

/// An instant and the offset computed from it give the instant back, up to
/// the sub-millisecond part, while the instant lies within the window.
pub proof fn lemma_offset_within_window(now: Timestamp, earlier: Timestamp)
    requires
        0 <= now.nanos_since(earlier) <= WINDOW_NANOS,
    ensures
        now.spec_offset_since(earlier) * NANOS_PER_MILLI <= now.nanos_since(earlier),
        now.nanos_since(earlier) < (now.spec_offset_since(earlier) + 1) * NANOS_PER_MILLI,
{
}

} // verus!
