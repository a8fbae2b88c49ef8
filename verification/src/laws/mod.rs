//! What holds of the library as a whole.
pub mod bytes;
pub mod contents;
pub mod fields;
pub mod files;
pub mod headers;
pub mod names;
pub mod paths;
pub mod plain;
pub mod reading;
pub mod records;
pub mod roundtrip;
pub mod streaming;
pub mod values;
pub mod writing;
pub mod written;
