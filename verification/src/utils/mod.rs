//! Types and functions shared by the reader and the writer.
use crate::error::Error;
use vstd::prelude::*;

pub mod cp437;
pub mod crc32;
pub mod name_table;
pub mod names;
pub mod text;

verus! {

/// The type of an entry in an archive.
#[derive(Debug, Clone, Copy, PartialEq, Eq, Structural)]
pub enum FileType {
    /// A file.
    File,
    /// A directory.
    Directory,
    /// A symlink.
    Symlink,
}

impl FileType {
    /// Returns whether `self` is `FileType::File`.
    pub fn is_file(&self) -> (r: bool)
        ensures
            r == (self is File),
    {
        matches!(self, FileType::File)
    }

    /// Returns whether `self` is `FileType::Directory`.
    pub fn is_directory(&self) -> (r: bool)
        ensures
            r == (self is Directory),
    {
        matches!(self, FileType::Directory)
    }

    /// Returns whether `self` is `FileType::Symlink`.
    pub fn is_symlink(&self) -> (r: bool)
        ensures
            r == (self is Symlink),
    {
        matches!(self, FileType::Symlink)
    }
}

/// A timestamp for an entry in an archive.
///
/// It is stored as a 64-bits UNIX timestamp, and therefore has second precision.
#[derive(Debug, Clone, Copy, PartialEq, Eq, PartialOrd, Ord, Hash, Structural)]
pub struct Timestamp(pub u64);

/// Time in seconds between NT and Unix epochs.
pub const NT_EPOCH: u64 = 11_644_473_600;

impl Timestamp {
    /// The start of the UNIX time.
    pub const UNIX_EPOCH: u64 = 0;

    /// The timestamp of a NTFS time, which counts tenths of microseconds from the NT epoch. A time
    /// before the UNIX epoch gives the UNIX epoch.
    pub open spec fn of_ntfs(time: u64) -> Timestamp {
        if time <= NT_EPOCH * 10_000_000 {
            Timestamp(0)
        } else {
            Timestamp(((time - NT_EPOCH * 10_000_000) / 10_000_000) as u64)
        }
    }

    /// Returns a `Timestamp` from a NTFS timestamp.
    ///
    /// Sub-second precision is lost in the process.
    pub fn from_ntfs(time: u64) -> (r: Timestamp)
        ensures
            r == Timestamp::of_ntfs(time),
    {
        let time: u64 = time.saturating_sub(NT_EPOCH * 10_000_000);
        Timestamp(time / 10_000_000)
    }

    /// Returns a `Timestamp` from an UNIX timestamp.
    pub fn from_unix(time: u64) -> (r: Timestamp)
        ensures
            r == Timestamp(time),
    {
        Timestamp(time)
    }

    /// Converts this timestamp to an UNIX timestamp.
    pub fn to_unix(self) -> (r: u64)
        ensures
            r == self.0,
    {
        self.0
    }
}

impl Default for Timestamp {
    /// The start of the UNIX time.
    fn default() -> (r: Timestamp)
        ensures
            r == Timestamp(0),
    {
        Timestamp(Timestamp::UNIX_EPOCH)
    }
}

/// A position in a file that is read or written in order.
#[derive(Debug, Clone, Copy, PartialEq, Eq, Structural)]
pub struct Counter {
    /// The number of bytes before the position.
    pub amt: u64,
}

impl Counter {
    /// Starts to count at the given position.
    pub fn new(amt: u64) -> (r: Counter)
        ensures
            r.amt == amt,
    {
        Counter { amt }
    }

    /// Whether the position can move forward by `amt` bytes: such a move fits in a signed offset,
    /// and so does its end in an unsigned one.
    pub open spec fn can_advance(self, amt: u64) -> bool {
        amt <= i64::MAX && self.amt + amt <= u64::MAX
    }

    /// Moves forward by `amt` bytes without looking at them.
    pub fn advance(&mut self, amt: u64) -> (r: Result<(), Error>)
        ensures
            old(self).can_advance(amt) ==> r is Ok && final(self).amt == old(self).amt + amt,
            !old(self).can_advance(amt) ==> r == Err::<(), Error>(Error::SeekOutOfRange) && *final(self)
                == *old(self),
    {
        if amt > i64::MAX as u64 {
            return Err(Error::SeekOutOfRange);
        }
        match self.amt.checked_add(amt) {
            Some(sum) => {
                self.amt = sum;
                Ok(())
            },
            None => Err(Error::SeekOutOfRange),
        }
    }
}

/// Checks that a content that comes in chunks has the expected length.
#[derive(Debug, Clone, Copy, PartialEq, Eq, Structural)]
pub struct LengthChecker {
    /// The number of bytes that are still to come.
    pub expected: u64,
}

impl LengthChecker {
    /// Expects a content of this length.
    pub fn new(expected: u64) -> (r: LengthChecker)
        ensures
            r.expected == expected,
    {
        LengthChecker { expected }
    }

    /// Whether a chunk of `n` bytes is in order here. An empty chunk is the end of the content.
    pub open spec fn accepts(self, n: u64) -> bool {
        n <= self.expected && (n == 0 ==> self.expected == 0)
    }

    /// Takes note of a chunk of `n` bytes.
    pub fn read(&mut self, n: u64) -> (r: Result<(), Error>)
        ensures
            old(self).accepts(n) ==> r is Ok && final(self).expected == old(self).expected - n,
            !old(self).accepts(n) ==> r == Err::<(), Error>(Error::BadLength) && *final(self)
                == *old(self),
    {
        if n == 0 && self.expected != 0 {
            return Err(Error::BadLength);
        }
        match self.expected.checked_sub(n) {
            Some(left) => {
                self.expected = left;
                Ok(())
            },
            None => Err(Error::BadLength),
        }
    }
}

} // verus!
