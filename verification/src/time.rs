//! Clock readings and the whole seconds that records carry.

use vstd::prelude::*;

verus! {

/// A reading of a clock, given as its distance from the Unix epoch.
#[derive(Clone, Copy, Debug)]
pub enum ClockTime {
    /// At the epoch or after it, by this many whole seconds and nanoseconds.
    SinceEpoch { secs: u64, nanos: u32 },
    /// Before the epoch, by this many whole seconds and nanoseconds.
    BeforeEpoch { secs: u64, nanos: u32 },
}

impl ClockTime {
    /// Whether the reading says one thing only: its nanoseconds stay below
    /// a second, and a reading before the epoch lies before it by more
    /// than nothing. The epoch itself is `SinceEpoch` with no distance.
    pub open spec fn valid(self) -> bool {
        match self {
            ClockTime::SinceEpoch { secs, nanos } => nanos < 1_000_000_000,
            ClockTime::BeforeEpoch { secs, nanos } => nanos < 1_000_000_000 && (secs > 0 || nanos
                > 0),
        }
    }

    /// Tells whether the reading is valid.
    pub fn is_valid(&self) -> (valid: bool)
        ensures
            valid == self.valid(),
    {
        match self {
            ClockTime::SinceEpoch { secs, nanos } => *nanos < 1_000_000_000,
            ClockTime::BeforeEpoch { secs, nanos } => *nanos < 1_000_000_000 && (*secs > 0 || *nanos
                > 0),
        }
    }
}

/// A reading that may be missing is valid if it is missing or valid.
pub open spec fn valid_if_there(time: Option<ClockTime>) -> bool {
    match time {
        Some(time) => time.valid(),
        None => true,
    }
}

/// The whole seconds from the epoch to `time`, or nothing for a time before
/// the epoch, which a record cannot carry.
pub open spec fn secs_since_epoch(time: ClockTime) -> Option<u64> {
    match time {
        ClockTime::SinceEpoch { secs, nanos } => Some(secs),
        ClockTime::BeforeEpoch { secs, nanos } => None,
    }
}

/// The timestamp that a record carries for a clock reading that may be
/// missing: nothing where the reading is missing or lies before the epoch.
pub open spec fn stamp_of(time: Option<ClockTime>) -> Option<u64> {
    match time {
        Some(t) => secs_since_epoch(t),
        None => None,
    }
}

/// Turns a clock reading into whole seconds since the epoch. Fractions of
/// a second are dropped; a reading before the epoch gives `None`.
pub fn system_time_to_secs(time: ClockTime) -> (secs: Option<u64>)
    requires
        time.valid(),
    ensures
        secs == secs_since_epoch(time),
{
    match time {
        ClockTime::SinceEpoch { secs, nanos } => Some(secs),
        ClockTime::BeforeEpoch { secs, nanos } => None,
    }
}

/// Reads the system clock with `std::time::SystemTime::now` and gives the
/// reading as its distance from `UNIX_EPOCH`, on the side of the epoch on
/// which `duration_since` found it. Nothing is claimed of the time that is
/// read: two calls may return anything. The reading is valid, by what std
/// documents: `duration_since` fails only for a time that is earlier than
/// the epoch, and the nanoseconds of a `Duration` stay below a second.
#[verifier::external_body]
pub(crate) fn now() -> (time: ClockTime)
    ensures
        time.valid(),
{
    match std::time::SystemTime::now().duration_since(std::time::SystemTime::UNIX_EPOCH) {
        Ok(after) => ClockTime::SinceEpoch { secs: after.as_secs(), nanos: after.subsec_nanos() },
        Err(before) => ClockTime::BeforeEpoch {
            secs: before.duration().as_secs(),
            nanos: before.duration().subsec_nanos(),
        },
    }
}

/// A time as a filesystem keeps it for a file: whole seconds from the Unix
/// epoch, and the nanoseconds beyond them.
#[derive(Clone, Copy, Debug)]
pub struct FileMtime {
    pub seconds: i64,
    pub nanos: u32,
}

/// The highest number of seconds since the epoch that `filetime` keeps as
/// it is: it holds the seconds of a time in an `i64`.
pub const MAX_FILE_SECS: u64 = 0x7fff_ffff_ffff_ffff;

/// Adds `secs` whole seconds to `UNIX_EPOCH` with `SystemTime::checked_add`
/// and, where the system clock can hold that time, calls
/// `filetime::FileTime::from_system_time` on it and reads the result with
/// `FileTime::unix_seconds` and `FileTime::nanoseconds`.
///
/// The contract claims what the source of `filetime` shows for a time that
/// is not before the epoch: the result counts the same whole seconds from
/// the Unix epoch and no nanoseconds. Whether the clock can hold the time
/// depends on the system, so nothing says when there is a result.
#[verifier::external_body]
pub(crate) fn file_time_from_secs(secs: u64) -> (time: Option<FileMtime>)
    requires
        secs <= MAX_FILE_SECS,
    ensures
        time matches Some(found) ==> found.seconds == secs && found.nanos == 0,
{
    let at = std::time::SystemTime::UNIX_EPOCH.checked_add(std::time::Duration::from_secs(secs))?;
    let time = filetime::FileTime::from_system_time(at);
    Some(FileMtime { seconds: time.unix_seconds(), nanos: time.nanoseconds() })
}

} // verus!
