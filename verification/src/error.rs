//! The reasons for which an operation on an archive fails.
use crate::compression::CompressionMethod;
use vstd::prelude::*;

verus! {

/// The broad category of an [`Error`].
#[derive(Debug, Clone, Copy, PartialEq, Eq, Structural)]
pub enum ErrorKind {
    /// The archive is not valid.
    InvalidData,
    /// An argument is not valid.
    InvalidInput,
    /// The archive uses something that is not supported.
    Unsupported,
    /// The archive ends too early.
    UnexpectedEof,
    /// There is not enough memory.
    OutOfMemory,
    /// Anything else.
    Other,
}

/// Why an operation on an archive failed.
#[derive(Debug, Clone, Copy, PartialEq, Eq, Structural)]
pub enum Error {
    /// No end of central directory was found.
    NotAZip,
    /// The end of the central directory is not valid, or does not match the entries.
    InvalidZip,
    /// The headers of an entry are not valid, or do not match.
    InvalidEntry,
    /// The archive is split over several disks.
    MultiDisk,
    /// Two entries have the same name.
    DuplicatedName,
    /// The archive ends too early.
    UnexpectedEof,
    /// The compressed size of an entry is too large to be skipped.
    SeekOutOfRange,
    /// The content of an entry is encrypted.
    EncryptedFile,
    /// The content of an entry is not stored as it is.
    CompressedFile,
    /// The compression method is not supported.
    UnsupportedMethod(CompressionMethod),
    /// The compressed content of an entry cannot be decompressed. The category is that of the error
    /// of the decoder.
    CorruptedContent(ErrorKind),
    /// The content of an entry does not have the expected length.
    BadLength,
    /// The content of an entry does not have the expected checksum.
    BadCrc32,
    /// The content of an entry does not fit in memory.
    OutOfMemory,
    /// A content cannot be compressed, for want of memory.
    CompressionFailed,
    /// A file name is longer than an archive can tell.
    FileNameTooLong,
    /// A file name is already used in the archive.
    DuplicatedFileName,
    /// A file name is not allowed.
    InvalidFileName,
    /// A comment is longer than an archive can tell.
    CommentTooLong,
    /// The previous entry was not finished.
    NotFinished,
    /// The target of a symlink leaves the directory of the archive.
    InvalidSymlink,
    /// The target of a symlink is not UTF-8.
    InvalidUtf8,
    /// Neither a local nor a central header was found where one is expected.
    UnknownSignature,
    /// The length of an entry is not known before its data.
    LengthUnavailable,
}

impl Error {
    /// The category of the error.
    pub open spec fn spec_kind(self) -> ErrorKind {
        match self {
            Error::NotAZip => ErrorKind::InvalidData,
            Error::InvalidZip => ErrorKind::InvalidData,
            Error::InvalidEntry => ErrorKind::InvalidData,
            Error::MultiDisk => ErrorKind::Unsupported,
            Error::DuplicatedName => ErrorKind::InvalidData,
            Error::UnexpectedEof => ErrorKind::UnexpectedEof,
            Error::SeekOutOfRange => ErrorKind::InvalidInput,
            Error::EncryptedFile => ErrorKind::Unsupported,
            Error::CompressedFile => ErrorKind::Unsupported,
            Error::UnsupportedMethod(_) => ErrorKind::Unsupported,
            Error::CorruptedContent(kind) => kind,
            Error::BadLength => ErrorKind::InvalidData,
            Error::BadCrc32 => ErrorKind::InvalidData,
            Error::OutOfMemory => ErrorKind::OutOfMemory,
            Error::CompressionFailed => ErrorKind::Other,
            Error::FileNameTooLong => ErrorKind::InvalidInput,
            Error::DuplicatedFileName => ErrorKind::InvalidInput,
            Error::InvalidFileName => ErrorKind::InvalidInput,
            Error::CommentTooLong => ErrorKind::InvalidInput,
            Error::NotFinished => ErrorKind::Other,
            Error::InvalidSymlink => ErrorKind::InvalidData,
            Error::InvalidUtf8 => ErrorKind::InvalidData,
            Error::UnknownSignature => ErrorKind::InvalidData,
            Error::LengthUnavailable => ErrorKind::InvalidData,
        }
    }

    /// The description of the error.
    pub open spec fn text(self) -> Seq<char> {
        match self {
            Error::NotAZip => "not a zip archive"@,
            Error::InvalidZip => "invalid zip archive"@,
            Error::InvalidEntry => "invalid entry"@,
            Error::MultiDisk => "multi-disk archives are not supported"@,
            Error::DuplicatedName => "duplicated name in archive"@,
            Error::UnexpectedEof => "failed to fill whole buffer"@,
            Error::SeekOutOfRange => "seek out of range"@,
            Error::EncryptedFile => "encrypted file"@,
            Error::CompressedFile => "compressed file"@,
            Error::UnsupportedMethod(method) => "Unsupported compression method: "@ + method.text(),
            Error::CorruptedContent(_) => "corrupted compressed content"@,
            Error::BadLength => "unexpected file length"@,
            Error::BadCrc32 => "invalid CRC32 check: data was corrupted"@,
            Error::OutOfMemory => "out of memory"@,
            Error::CompressionFailed => "compression failed"@,
            Error::FileNameTooLong => "file name too long"@,
            Error::DuplicatedFileName => "duplicated file name"@,
            Error::InvalidFileName => "invalid file name"@,
            Error::CommentTooLong => "comment too long"@,
            Error::NotFinished =>
                "A non-recoverable error occurred or a file was not `finish`ed"@,
            Error::InvalidSymlink => "invalid symlink target"@,
            Error::InvalidUtf8 => "stream did not contain valid UTF-8"@,
            Error::UnknownSignature => "unknown signature"@,
            Error::LengthUnavailable => "file length unavailable in local header"@,
        }
    }

    /// Returns the category of the error.
    pub fn kind(&self) -> (r: ErrorKind)
        ensures
            r == self.spec_kind(),
    {
        match self {
            Error::NotAZip => ErrorKind::InvalidData,
            Error::InvalidZip => ErrorKind::InvalidData,
            Error::InvalidEntry => ErrorKind::InvalidData,
            Error::MultiDisk => ErrorKind::Unsupported,
            Error::DuplicatedName => ErrorKind::InvalidData,
            Error::UnexpectedEof => ErrorKind::UnexpectedEof,
            Error::SeekOutOfRange => ErrorKind::InvalidInput,
            Error::EncryptedFile => ErrorKind::Unsupported,
            Error::CompressedFile => ErrorKind::Unsupported,
            Error::UnsupportedMethod(_) => ErrorKind::Unsupported,
            Error::CorruptedContent(kind) => *kind,
            Error::BadLength => ErrorKind::InvalidData,
            Error::BadCrc32 => ErrorKind::InvalidData,
            Error::OutOfMemory => ErrorKind::OutOfMemory,
            Error::CompressionFailed => ErrorKind::Other,
            Error::FileNameTooLong => ErrorKind::InvalidInput,
            Error::DuplicatedFileName => ErrorKind::InvalidInput,
            Error::InvalidFileName => ErrorKind::InvalidInput,
            Error::CommentTooLong => ErrorKind::InvalidInput,
            Error::NotFinished => ErrorKind::Other,
            Error::InvalidSymlink => ErrorKind::InvalidData,
            Error::InvalidUtf8 => ErrorKind::InvalidData,
            Error::UnknownSignature => ErrorKind::InvalidData,
            Error::LengthUnavailable => ErrorKind::InvalidData,
        }
    }

    /// Returns the description of the error.
    pub fn message(&self) -> (r: String)
        ensures
            r@ == self.text(),
    {
        match self {
            Error::NotAZip => String::from_str("not a zip archive"),
            Error::InvalidZip => String::from_str("invalid zip archive"),
            Error::InvalidEntry => String::from_str("invalid entry"),
            Error::MultiDisk => String::from_str("multi-disk archives are not supported"),
            Error::DuplicatedName => String::from_str("duplicated name in archive"),
            Error::UnexpectedEof => String::from_str("failed to fill whole buffer"),
            Error::SeekOutOfRange => String::from_str("seek out of range"),
            Error::EncryptedFile => String::from_str("encrypted file"),
            Error::CompressedFile => String::from_str("compressed file"),
            Error::UnsupportedMethod(method) => {
                let mut r = String::from_str("Unsupported compression method: ");
                r.append(method.describe().as_str());
                r
            },
            Error::CorruptedContent(_) => String::from_str("corrupted compressed content"),
            Error::BadLength => String::from_str("unexpected file length"),
            Error::BadCrc32 => String::from_str("invalid CRC32 check: data was corrupted"),
            Error::OutOfMemory => String::from_str("out of memory"),
            Error::CompressionFailed => String::from_str("compression failed"),
            Error::FileNameTooLong => String::from_str("file name too long"),
            Error::DuplicatedFileName => String::from_str("duplicated file name"),
            Error::InvalidFileName => String::from_str("invalid file name"),
            Error::CommentTooLong => String::from_str("comment too long"),
            Error::NotFinished => String::from_str(
                "A non-recoverable error occurred or a file was not `finish`ed",
            ),
            Error::InvalidSymlink => String::from_str("invalid symlink target"),
            Error::InvalidUtf8 => String::from_str("stream did not contain valid UTF-8"),
            Error::UnknownSignature => String::from_str("unknown signature"),
            Error::LengthUnavailable => String::from_str("file length unavailable in local header"),
        }
    }
}

} // verus!
