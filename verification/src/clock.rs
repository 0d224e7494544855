//! Points in time as an archive keeps them: seconds since 1970, signed.

use crate::bytes;
use vstd::prelude::*;

verus! {

/// Seconds since 1970 as a signed number with the same 64 bits.
fn signed(secs: u64) -> (res: i64)
    ensures
        res == bytes::i64_from_bits(secs as nat),
{
    if secs <= 0x7FFF_FFFF_FFFF_FFFF {
        secs as i64
    } else {
        -1 - ((u64::MAX - secs) as i64)
    }
}

/// The time that goes into the header of a new archive: the seconds since 1970,
/// or 0 where the clock stands before that.
pub fn now_unix_seconds(since_epoch: Option<u64>) -> (secs: i64)
    ensures
        secs == match since_epoch {
            Some(s) => bytes::i64_from_bits(s as nat),
            None => 0i64,
        },
{
    match since_epoch {
        Some(secs) => signed(secs),
        None => 0,
    }
}

/// The seconds and nanoseconds that an entry keeps of the time when a file was
/// last changed; both are 0 where that is unknown, or before 1970.
pub fn mtime_parts(since_epoch: Option<(u64, u32)>) -> (parts: (i64, u32))
    ensures
        parts == match since_epoch {
            Some((s, n)) => (bytes::i64_from_bits(s as nat), n),
            None => (0i64, 0u32),
        },
{
    match since_epoch {
        Some((secs, nanos)) => (signed(secs), nanos),
        None => (0, 0),
    }
}

/// A time since 1970 is kept as it is, with its nanoseconds, as long as its
/// seconds are below two to the 63rd; beyond, the same 64 bits are kept. Without
/// one, all is 0.
pub proof fn law_times_are_kept(
    secs: u64,
    nanos: u32,
    now: i64,
    parts: (i64, u32),
    no_time: i64,
    no_parts: (i64, u32),
)
    requires
        call_ensures(now_unix_seconds, (Some(secs),), now),
        call_ensures(mtime_parts, (Some((secs, nanos)),), parts),
        call_ensures(now_unix_seconds, (None,), no_time),
        call_ensures(mtime_parts, (None,), no_parts),
    ensures
        now == secs || (secs >= 0x8000_0000_0000_0000 && now == secs - 0x1_0000_0000_0000_0000),
        parts.0 == now,
        parts.1 == nanos,
        no_time == 0,
        no_parts == (0i64, 0u32),
{
}

} // verus!
