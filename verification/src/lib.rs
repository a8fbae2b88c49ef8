//! A simple yet flexible zip library.
//!
//! This crate provides tools to read and write ZIP archives.
//!
//! Given how loose the ZIP format is about what is a valid ZIP file and the
//! history of security issues around them, this crate also aims at being robust
//! and secure against malicious input. It might therefore reject some
//! "technically valid" ZIP files.
//!
//! See [`Archive`] for reading archives and [`ArchiveWriter`] for creating ones. Both work on bytes
//! in memory. To read an archive from elsewhere, feed a [`read::scanner::Scanner`]; to write one
//! elsewhere, take the pieces that [`write::raw::RawArchiveWriter`] makes.
//!
//! The contracts of the functions speak of what the values stand for: [`read::scanner::archive_of`]
//! is what a file holds, [`write::layout::archive`] is the file that holds some entries. What holds
//! of them together is in [`laws`].
pub mod compression;
pub mod error;
pub mod laws;
pub mod read;
pub mod types;
pub mod utils;
pub mod write;

pub use compression::CompressionMethod;
pub use error::{Error, ErrorKind};
pub use read::archive::Archive;
pub use read::archive::Archive as ArchiveReader;
pub use utils::{FileType, Timestamp};
pub use write::ArchiveWriter;
