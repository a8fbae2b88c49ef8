//! The layout of a whole archive.
use crate::compression::CompressionMethod;
use crate::utils::names;
use crate::write::raw;
use crate::write::raw::{Metadata, RawView};
use vstd::prelude::*;
use vstd::utf8::*;

verus! {

/// An entry as it is written.
#[verifier::ext_equal]
pub struct Stored {
    /// The name, in canonical form.
    pub name: Seq<u8>,
    pub meta: Metadata,
    /// The compressed content.
    pub data: Seq<u8>,
    pub comment: Seq<u8>,
    /// Whether the sizes and the checksum follow the data.
    pub streamed: bool,
}

impl Stored {
    /// What precedes the data.
    pub open spec fn head(self) -> Seq<u8> {
        if self.streamed {
            raw::local_record(
                self.name,
                Metadata { uncompressed_size: 0, crc32: 0, ..self.meta },
                0,
                true,
            )
        } else {
            raw::local_record(self.name, self.meta, self.data.len() as u64, false)
        }
    }

    /// What follows the data.
    pub open spec fn foot(self) -> Seq<u8> {
        if self.streamed {
            raw::descriptor(
                self.meta.uncompressed_size,
                self.data.len() as u64,
                self.meta.crc32,
            )
        } else {
            Seq::empty()
        }
    }

    /// The entry as it lies in the archive.
    pub open spec fn bytes(self) -> Seq<u8> {
        self.head() + self.data + self.foot()
    }

    /// What the central directory says of the entry.
    pub open spec fn central(self, offset: nat) -> Seq<u8> {
        raw::central_record(
            self.name,
            self.meta,
            self.data.len() as u64,
            self.streamed,
            offset as u64,
            self.comment,
        )
    }

    /// Whether the entry is one that the writer writes and the reader takes: its name is in
    /// canonical form and goes with its type, its texts are short enough, a directory is empty, and
    /// what is stored as it is has the size of its content. The data has to be one that can be
    /// skipped.
    pub open spec fn valid(self, windows: bool) -> bool {
        &&& names::valid_name(self.name, windows) == Some(self.name)
        &&& names::ends_with_slash(self.name) == (self.meta.typ is Directory)
        &&& valid_utf8(self.name)
        &&& valid_utf8(self.comment)
        &&& self.name.len() <= raw::MAX_TEXT
        &&& self.comment.len() <= raw::MAX_TEXT
        &&& self.data.len() <= i64::MAX
        &&& self.meta.compression_method.0 != CompressionMethod::AES
        &&& self.meta.compression_method.0 == CompressionMethod::STORE
            ==> self.meta.uncompressed_size == self.data.len()
        &&& self.meta.typ is Directory ==> self.meta.uncompressed_size == 0
    }
}

/// The entries as they lie in the archive, one after the other.
#[verifier::opaque]
pub open spec fn body(es: Seq<Stored>) -> Seq<u8>
    decreases es.len(),
{
    if es.len() == 0 {
        Seq::empty()
    } else {
        body(es.drop_last()) + es.last().bytes()
    }
}

/// The central directory.
#[verifier::opaque]
pub open spec fn central(es: Seq<Stored>) -> Seq<u8>
    decreases es.len(),
{
    if es.len() == 0 {
        Seq::empty()
    } else {
        central(es.drop_last()) + es.last().central(body(es.drop_last()).len())
    }
}

/// The whole archive.
#[verifier::opaque]
pub open spec fn archive(es: Seq<Stored>) -> Seq<u8> {
    body(es) + central(es) + raw::end_records(
        es.len() as u64,
        body(es).len() as u64,
        central(es).len() as u64,
    )
}

/// The names of the entries, without trailing slashes.
pub open spec fn stripped_names(es: Seq<Stored>) -> Seq<Seq<u8>> {
    es.map_values(|e: Stored| names::stripped(e.name))
}

/// Whether exactly these entries are written, and all of them are finished.
pub open spec fn holds(bytes: Seq<u8>, state: RawView, es: Seq<Stored>) -> bool {
    &&& bytes == body(es)
    &&& state.writing is None
    &&& state.names == stripped_names(es)
    &&& state.central == central(es)
    &&& state.position == body(es).len()
}

} // verus!
