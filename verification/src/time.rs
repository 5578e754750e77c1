//! Times of files.

use vstd::prelude::*;

verus! {

/// A time as its distance from the start of 1970, which may lie before it.
#[derive(Clone, Copy, Debug, PartialEq, Eq)]
pub enum FileTime {
    AfterEpoch { secs: u64, nanos: u32 },
    BeforeEpoch { secs: u64, nanos: u32 },
}

impl FileTime {
    /// Nanoseconds since the start of 1970.
    pub open spec fn nanoseconds(self) -> int {
        match self {
            FileTime::AfterEpoch { secs, nanos } => secs * 1_000_000_000 + nanos,
            FileTime::BeforeEpoch { secs, nanos } => -(secs * 1_000_000_000 + nanos),
        }
    }

    /// Whole seconds since the start of 1970, or 0 for a time before it.
    pub open spec fn epoch_secs(self) -> u64 {
        match self {
            FileTime::AfterEpoch { secs, .. } => secs,
            FileTime::BeforeEpoch { .. } => 0,
        }
    }

    /// Whether this time is later than another.
    pub fn is_later_than(self, other: FileTime) -> (later: bool)
        ensures
            later == (self.nanoseconds() > other.nanoseconds()),
    {
        match self {
            FileTime::AfterEpoch { secs: s, nanos: n } => match other {
                FileTime::AfterEpoch { secs: t, nanos: m } => {
                    s as u128 * 1_000_000_000 + n as u128 > t as u128 * 1_000_000_000 + m as u128
                },
                FileTime::BeforeEpoch { secs: t, nanos: m } => s > 0 || n > 0 || t > 0 || m > 0,
            },
            FileTime::BeforeEpoch { secs: s, nanos: n } => match other {
                FileTime::AfterEpoch { .. } => false,
                FileTime::BeforeEpoch { secs: t, nanos: m } => {
                    (s as u128 * 1_000_000_000 + n as u128) < t as u128 * 1_000_000_000 + m as u128
                },
            },
        }
    }

    /// Whole seconds since the start of 1970, or 0 for a time before it.
    pub fn to_epoch(self) -> (secs: u64)
        ensures
            secs == self.epoch_secs(),
    {
        match self {
            FileTime::AfterEpoch { secs, .. } => secs,
            FileTime::BeforeEpoch { .. } => 0,
        }
    }
}

/// Of two times after the start of 1970 the one with more seconds is later, and of
/// two with the same seconds the one with more nanoseconds; before 1970 it is the
/// other way round. A time before is not later than one after.
pub proof fn law_times_are_ordered(s: u64, n: u32, t: u64, m: u32)
    requires
        n < 1_000_000_000,
        m < 1_000_000_000,
    ensures
        (FileTime::AfterEpoch { secs: s, nanos: n }).nanoseconds() > (FileTime::AfterEpoch {
            secs: t,
            nanos: m,
        }).nanoseconds() <==> s > t || s == t && n > m,
        (FileTime::BeforeEpoch { secs: s, nanos: n }).nanoseconds() > (FileTime::BeforeEpoch {
            secs: t,
            nanos: m,
        }).nanoseconds() <==> s < t || s == t && n < m,
        (FileTime::AfterEpoch { secs: s, nanos: n }).nanoseconds() > (FileTime::BeforeEpoch {
            secs: t,
            nanos: m,
        }).nanoseconds() <==> s > 0 || n > 0 || t > 0 || m > 0,
        (FileTime::BeforeEpoch { secs: s, nanos: n }).nanoseconds() <= (FileTime::AfterEpoch {
            secs: t,
            nanos: m,
        }).nanoseconds(),
{
}

/// The seconds of a time are those since the start of 1970, rounded down, or none for
/// a time before.
pub proof fn law_seconds_are_rounded_down(time: FileTime)
    requires
        time matches FileTime::AfterEpoch { nanos, .. } ==> nanos < 1_000_000_000,
    ensures
        time.nanoseconds() >= 0 ==> time.epoch_secs() * 1_000_000_000 <= time.nanoseconds()
            < (time.epoch_secs() + 1) * 1_000_000_000,
        time.nanoseconds() < 0 ==> time.epoch_secs() == 0,
{
}

} // verus!
