//! Where platforms differ.
use crate::error::EntryError;
use vstd::prelude::*;

verus! {

/// The timestamp that is set on a symbolic link, in seconds and nanoseconds of Unix time.
/// `since_epoch` is the time since its start, or `None` for a time before it.
pub open spec fn timestamp_of(since_epoch: Option<(u64, u32)>) -> Result<
    (i64, u32),
    EntryError<Seq<u8>>,
> {
    match since_epoch {
        None => Err(EntryError::MtimeBeforeEpoch),
        Some((seconds, nanoseconds)) => if seconds <= i64::MAX {
            Ok((seconds as i64, nanoseconds))
        } else {
            Err(EntryError::MtimeExceedsPlatform)
        },
    }
}

/// The timestamp that is set on a symbolic link.
pub fn symlink_timestamp(since_epoch: Option<(u64, u32)>) -> (stamp: Result<
    (i64, u32),
    EntryError,
>)
    ensures
        match stamp {
            Ok(pair) => timestamp_of(since_epoch) == Ok::<(i64, u32), EntryError<Seq<u8>>>(pair),
            Err(e) => timestamp_of(since_epoch) == Err::<(i64, u32), EntryError<Seq<u8>>>(e@),
        },
{
    match since_epoch {
        None => Err(EntryError::MtimeBeforeEpoch),
        Some((seconds, nanoseconds)) => if seconds <= i64::MAX as u64 {
            Ok((seconds as i64, nanoseconds))
        } else {
            Err(EntryError::MtimeExceedsPlatform)
        },
    }
}

/// The timestamp of a link is the time itself, seconds and nanoseconds both; it is refused exactly
/// if it lies before the start of Unix time or its seconds do not fit a signed number.
pub proof fn law_timestamp_is_the_time(seconds: u64, nanoseconds: u32)
    ensures
        timestamp_of(None) == Err::<(i64, u32), EntryError<Seq<u8>>>(EntryError::MtimeBeforeEpoch),
        match timestamp_of(Some((seconds, nanoseconds))) {
            Ok((s, n)) => s == seconds && n == nanoseconds,
            Err(e) => seconds > i64::MAX && e == EntryError::<Seq<u8>>::MtimeExceedsPlatform,
        },
{
}

/// The bit of a mode that lets the owner write.
pub const OWNER_WRITE: u32 = 128;

/// Whether a file with this mode is read-only, on platforms that know no other permission: its
/// owner may not write. There, setting permissions marks such a file and leaves any other as it
/// is.
pub fn is_read_only(mode: u32) -> (is: bool)
    ensures
        is == ((mode / OWNER_WRITE) % 2 == 0),
{
    assert((mode & 128 == 128) == ((mode / 128) % 2 == 1)) by (bit_vector);
    mode & OWNER_WRITE != OWNER_WRITE
}

} // verus!
