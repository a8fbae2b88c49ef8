//! Utilities to read an archive.
pub mod archive;
pub mod extra_field;
pub mod metadata;
pub mod raw;
pub mod scanner;
pub mod stream;

pub use archive::{Archive, File, RawArchive};
pub use metadata::{EncryptionMethod, Metadata};
