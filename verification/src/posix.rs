use crate::error::Error;
use vstd::prelude::*;

verus! {

/// The condition that a file system reports an error as.
#[derive(Clone, Copy, Debug, PartialEq, Eq, Structural)]
pub enum Errno {
    /// The file exists.
    Exists,
    /// No such file or directory.
    NoEntry,
    /// Input or output failed.
    Io,
}

impl Error {
    /// The condition that this error is reported as: an object that exists
    /// as a file that exists, an object that is not found as a file that is
    /// not there, and any other error as a failure of input or output.
    pub open spec fn spec_errno(&self) -> Errno {
        match self {
            Error::AlreadyExists => Errno::Exists,
            Error::NotFound => Errno::NoEntry,
            _ => Errno::Io,
        }
    }

    /// Get the condition that this error is reported as.
    #[verifier::when_used_as_spec(spec_errno)]
    pub fn to_errno(&self) -> (errno: Errno)
        ensures
            errno == self.spec_errno(),
    {
        match self {
            Error::AlreadyExists => Errno::Exists,
            Error::NotFound => Errno::NoEntry,
            _ => Errno::Io,
        }
    }
}

/// A point in time as seconds and nanoseconds, both counted from the epoch
/// and both negative before it.
#[derive(Clone, Copy, Debug, PartialEq, Eq, Structural)]
pub struct Timespec {
    /// The seconds.
    pub sec: i64,
    /// The nanoseconds.
    pub nsec: i32,
}

/// A point in time as a distance from the epoch, forward or back.
#[derive(Clone, Copy, Debug, PartialEq, Eq, Structural)]
pub struct EpochOffset {
    /// Whether the point lies after the epoch.
    pub forward: bool,
    /// The whole seconds of the distance.
    pub secs: u64,
    /// The nanoseconds of the distance beyond the whole seconds.
    pub nanos: u32,
}

/// The magnitude of a number.
pub open spec fn magnitude(value: int) -> int {
    if value < 0 {
        -value
    } else {
        value
    }
}

/// A magnitude as seconds of a `Timespec`: the magnitude itself, but no more
/// than the type holds.
pub open spec fn clamped_seconds(secs: u64) -> i64 {
    if secs > i64::MAX {
        i64::MAX
    } else {
        secs as i64
    }
}

/// A magnitude as nanoseconds of a `Timespec`: the magnitude itself, but no
/// more than the type holds.
pub open spec fn clamped_nanos(nanos: u32) -> i32 {
    if nanos > i32::MAX {
        i32::MAX
    } else {
        nanos as i32
    }
}

/// Convert the given `time` to a distance from the epoch: the magnitudes of
/// its seconds and nanoseconds, forward where the seconds are positive and
/// back where they are not.
pub fn to_system_time(time: Timespec) -> (offset: EpochOffset)
    ensures
        offset.forward == (time.sec > 0),
        offset.secs == magnitude(time.sec as int),
        offset.nanos == magnitude(time.nsec as int),
{
    let secs: u64 = if time.sec >= 0 {
        time.sec as u64
    } else if time.sec == i64::MIN {
        0x8000_0000_0000_0000
    } else {
        (-time.sec) as u64
    };
    let nanos: u32 = if time.nsec >= 0 {
        time.nsec as u32
    } else if time.nsec == i32::MIN {
        0x8000_0000
    } else {
        (-time.nsec) as u32
    };
    EpochOffset { forward: time.sec > 0, secs, nanos }
}

/// Convert the given distance from the epoch to a `Timespec`: its seconds
/// and nanoseconds, as far as the types hold them, negated where the point
/// lies before the epoch.
pub fn to_timespec(offset: EpochOffset) -> (time: Timespec)
    ensures
        time.sec == if offset.forward {
            clamped_seconds(offset.secs) as int
        } else {
            -clamped_seconds(offset.secs)
        },
        time.nsec == if offset.forward {
            clamped_nanos(offset.nanos) as int
        } else {
            -clamped_nanos(offset.nanos)
        },
{
    let secs: i64 = if offset.secs > i64::MAX as u64 {
        i64::MAX
    } else {
        offset.secs as i64
    };
    let nanos: i32 = if offset.nanos > i32::MAX as u32 {
        i32::MAX
    } else {
        offset.nanos as i32
    };
    if offset.forward {
        Timespec { sec: secs, nsec: nanos }
    } else {
        Timespec { sec: -secs, nsec: -nanos }
    }
}

} // verus!
