//! Archives in the plain form that most tools write: without ZIP64 records.
use crate::compression::CompressionMethod;
use crate::error::Error;
use crate::laws::bytes;
use crate::laws::bytes::{le16, le_bytes};
use crate::laws::roundtrip::at;
use crate::laws::roundtrip;
use crate::read::archive as opened;
use crate::read::extra_field;
use crate::read::metadata;
use crate::read::metadata::{EncryptionMethod, MetadataView};
use crate::read::raw;
use crate::read::raw::{ArchiveView, CentralDirectory, EocdView};
use crate::read::scanner;
use crate::types::{
    CentralFileHeader, DataDescriptor32, EndOfCentralDirectory, LocalFileHeader, U16, U32,
};
use crate::utils::{names, FileType};
use vstd::prelude::*;
use vstd::utf8::*;

verus! {

/// Whether extra fields are whole and none of them is of a kind that says something of the entry.
pub open spec fn quiet(s: Seq<u8>) -> bool
    decreases s.len(),
{
    s.len() == 0 || {
        let id = le16(s, 0);
        let len = le16(s, 2);
        &&& s.len() >= 4
        &&& s.len() >= 4 + len
        &&& id != 0x0001 && id != 0x000a && id != 0x5455 && id != 0x6375 && id != 0x7075 && id
            != 0x7875 && id != 0x9901
        &&& quiet(s.skip(4 + len))
    }
}

/// Extra fields that say nothing of the entry are passed over.
pub proof fn lemma_quiet(
    m: MetadataView,
    s: Seq<u8>,
    name_crc: Option<u32>,
    comment_crc: Option<u32>,
    windows: bool,
)
    requires
        quiet(s),
        m.compression_method.0 != 99,
    ensures
        metadata::with_fields(m, extra_field::fields(s), name_crc, comment_crc, windows) == Some(m),
    decreases s.len(),
{
    if s.len() > 0 {
        bytes::lemma_read_16(s, 0);
        bytes::lemma_read_16(s, 2);
        let len = le16(s, 2);
        let rest = s.skip(4 + len);
        lemma_quiet(m, rest, name_crc, comment_crc, windows);
        let fs = extra_field::fields(s);
        assert(fs.drop_first() =~= extra_field::fields(rest));
        assert(metadata::with_field(m, fs[0], name_crc, comment_crc, windows) == Some(m));
    }
}

/// The type that the attributes of an entry and the end of its name tell. The attributes hold those
/// of MS-DOS in the lowest byte, of which 16 is that of a directory and 32 that of a file, and the
/// type of a UNIX file in the highest four bits: 4 for a directory, 8 for a file, 10 for a symlink.
pub open spec fn type_told(attributes: u32, slash: bool) -> Option<FileType> {
    let dos_directory = attributes & 0x10 == 0x10;
    let dos_file = attributes & 0x20 == 0x20;
    let unix = attributes >> 28;
    if slash {
        if dos_file || unix == 8 || unix == 10 {
            None
        } else {
            Some(FileType::Directory)
        }
    } else if dos_directory || unix == 4 {
        None
    } else if unix == 10 {
        if dos_file {
            None
        } else {
            Some(FileType::Symlink)
        }
    } else {
        Some(FileType::File)
    }
}

/// The type of an entry is told by its attributes and its name: only a directory has a trailing
/// slash, and nothing else contradicts the type.
pub proof fn lemma_type(attributes: u32, slash: bool)
    ensures
        FileType::of(attributes, slash) == type_told(attributes, slash),
{
    assert((attributes & 0x10 == 0x10) == ((attributes / 16) % 2 == 1)) by (bit_vector);
    assert((attributes & 0x20 == 0x20) == ((attributes / 32) % 2 == 1)) by (bit_vector);
    assert(attributes >> 28 == attributes / 0x1000_0000) by (bit_vector);
}

/// Whether a flag is set, counting bits from 0.
pub open spec fn bit_set(flags: u16, bit: u16) -> bool {
    (flags >> bit) & 1 == 1
}

/// The encryption that general purpose flags tell of: none where bit 0 is clear.
pub open spec fn encryption_told(flags: u16) -> Option<EncryptionMethod> {
    if bit_set(flags, 0) {
        if bit_set(flags, 6) {
            Some(EncryptionMethod::StrongEncryption)
        } else {
            Some(EncryptionMethod::ZipCrypto)
        }
    } else {
        None
    }
}

/// Of the general purpose flags, bit 0 tells of encryption, with bit 6 of which one, bit 3 of a
/// descriptor behind the data, and bit 11 of texts in UTF-8.
pub proof fn lemma_flags(flags: u16)
    ensures
        metadata::announced_encryption(flags) == encryption_told(flags),
        metadata::flag(flags, 8) == bit_set(flags, 3),
        metadata::flag(flags, 2048) == bit_set(flags, 11),
{
    assert((flags / 1) % 2 == (flags >> 0) & 1) by (bit_vector);
    assert((flags / 8) % 2 == (flags >> 3) & 1) by (bit_vector);
    assert((flags / 64) % 2 == (flags >> 6) & 1) by (bit_vector);
    assert((flags / 2048) % 2 == (flags >> 11) & 1) by (bit_vector);
}

/// An entry as a tool may write it.
pub struct Plain {
    pub name: Seq<u8>,
    pub comment: Seq<u8>,
    /// The compressed data.
    pub data: Seq<u8>,
    /// The length of the content.
    pub content_len: u32,
    pub crc32: u32,
    pub method: u16,
    pub flags: u16,
    pub attributes: u32,
    pub local_extra: Seq<u8>,
    pub central_extra: Seq<u8>,
    /// What the local header says of the checksum, the length of the data and that of the content
    /// where a descriptor behind the data says it.
    pub started: (u32, u32, u32),
    /// What is not looked at: the two versions, the time, the date and the internal attributes.
    pub other: (u16, u16, u16, u16, u16),
}

impl Plain {
    /// The checksum and the two lengths in the local header.
    pub open spec fn announced(self) -> (u32, u32, u32) {
        if bit_set(self.flags, 3) {
            self.started
        } else {
            (self.crc32, self.data.len() as u32, self.content_len)
        }
    }

    /// The local header.
    #[verifier::opaque]
    pub open spec fn head(self) -> Seq<u8> {
        seq![0x50u8, 0x4bu8, 0x03u8, 0x04u8] + le_bytes(self.other.1 as int, 2) + le_bytes(
            self.flags as int,
            2,
        ) + le_bytes(self.method as int, 2) + le_bytes(self.other.2 as int, 2) + le_bytes(
            self.other.3 as int,
            2,
        ) + le_bytes(self.announced().0 as int, 4) + le_bytes(self.announced().1 as int, 4)
            + le_bytes(self.announced().2 as int, 4) + le_bytes(self.name.len() as int, 2)
            + le_bytes(self.local_extra.len() as int, 2) + (self.name + self.local_extra)
    }

    /// The descriptor, where there is one: the checksum, the length of the data and that of the
    /// content.
    #[verifier::opaque]
    pub open spec fn foot(self) -> Seq<u8> {
        if bit_set(self.flags, 3) {
            seq![0x50u8, 0x4bu8, 0x07u8, 0x08u8] + le_bytes(self.crc32 as int, 4) + le_bytes(
                self.data.len() as int,
                4,
            ) + le_bytes(self.content_len as int, 4)
        } else {
            Seq::empty()
        }
    }

    /// The entry as it lies in the archive.
    #[verifier::opaque]
    pub open spec fn record(self) -> Seq<u8> {
        self.head() + self.data + self.foot()
    }

    /// The central header.
    #[verifier::opaque]
    pub open spec fn central(self, offset: int) -> Seq<u8> {
        seq![0x50u8, 0x4bu8, 0x01u8, 0x02u8] + le_bytes(self.other.0 as int, 2) + le_bytes(
            self.other.1 as int,
            2,
        ) + le_bytes(self.flags as int, 2) + le_bytes(self.method as int, 2) + le_bytes(
            self.other.2 as int,
            2,
        ) + le_bytes(self.other.3 as int, 2) + le_bytes(self.crc32 as int, 4) + le_bytes(
            self.data.len() as int,
            4,
        ) + le_bytes(self.content_len as int, 4) + le_bytes(self.name.len() as int, 2) + le_bytes(
            self.central_extra.len() as int,
            2,
        ) + le_bytes(self.comment.len() as int, 2) + le_bytes(0, 2) + le_bytes(
            self.other.4 as int,
            2,
        ) + le_bytes(self.attributes as int, 4) + le_bytes(offset, 4) + (self.name
            + self.central_extra + self.comment)
    }

    /// Whether the entry is in order: its texts are UTF-8 and fit, its name is allowed and goes with
    /// its attributes, a directory is empty, and what is stored as it is has the length of its
    /// content.
    pub open spec fn valid(self, windows: bool) -> bool {
        &&& valid_utf8(self.name)
        &&& valid_utf8(self.comment)
        &&& self.name.len() <= 0xffff
        &&& self.comment.len() <= 0xffff
        &&& self.local_extra.len() <= 0xffff
        &&& self.central_extra.len() <= 0xffff
        &&& quiet(self.local_extra)
        &&& quiet(self.central_extra)
        &&& self.data.len() <= 0xffff_ffff
        &&& names::valid_name(self.name, windows) is Some
        &&& type_told(self.attributes, self.ends_with_slash(windows)) matches Some(t)
        &&& t is Directory ==> self.content_len == 0
        &&& self.method != 99
        &&& self.method == 0 && !bit_set(self.flags, 0) ==> self.content_len == self.data.len()
    }

    /// Whether the canonical form of the name ends with a slash.
    pub open spec fn ends_with_slash(self, windows: bool) -> bool {
        let name = names::valid_name(self.name, windows)->0;
        name.len() > 0 && name.last() == 0x2f
    }

    /// What is known of the entry when the archive is open.
    pub open spec fn view(self, offset: int, windows: bool) -> MetadataView {
        MetadataView {
            header_offset: offset as u64,
            data_offset: (offset + self.head().len()) as u64,
            compressed_size: self.data.len() as u64,
            uncompressed_size: self.content_len as u64,
            compression_method: CompressionMethod(self.method),
            crc32: self.crc32,
            file_type: type_told(self.attributes, self.ends_with_slash(windows))->0,
            modification_time: None,
            access_time: None,
            creation_time: None,
            encryption: encryption_told(self.flags),
            name: names::valid_name(self.name, windows)->0,
            comment: self.comment,
            is_streaming: bit_set(self.flags, 3),
            is_zip64: false,
            flags: self.flags,
        }
    }

    /// The local header as a record.
    spec fn local_header(self) -> LocalFileHeader {
        LocalFileHeader {
            signature: U32::of(0x04034b50),
            required_version: U16::of(self.other.1),
            flags: U16::of(self.flags),
            compression_method: U16::of(self.method),
            last_modified_time: U16::of(self.other.2),
            last_modified_date: U16::of(self.other.3),
            crc32: U32::of(self.announced().0),
            compressed_size: U32::of(self.announced().1),
            uncompressed_size: U32::of(self.announced().2),
            file_name_length: U16::of(self.name.len() as u16),
            extra_fields_length: U16::of(self.local_extra.len() as u16),
        }
    }

    /// The central header as a record.
    spec fn central_header(self, offset: int) -> CentralFileHeader {
        CentralFileHeader {
            signature: U32::of(0x02014b50),
            made_by: U16::of(self.other.0),
            version_needed: U16::of(self.other.1),
            flags: U16::of(self.flags),
            compression_method: U16::of(self.method),
            last_modified_time: U16::of(self.other.2),
            last_modified_date: U16::of(self.other.3),
            crc32: U32::of(self.crc32),
            compressed_size: U32::of(self.data.len() as u32),
            uncompressed_size: U32::of(self.content_len),
            file_name_length: U16::of(self.name.len() as u16),
            extra_fields_length: U16::of(self.central_extra.len() as u16),
            file_comment_length: U16::of(self.comment.len() as u16),
            disk_number: U16::of(0),
            internal_attributes: U16::of(self.other.4),
            external_attributes: U32::of(self.attributes),
            local_header_offset: U32::of(offset as u32),
        }
    }

    /// What the local header says of the entry.
    spec fn local_view(self, windows: bool) -> MetadataView {
        MetadataView {
            header_offset: 0,
            data_offset: 0,
            compressed_size: self.announced().1 as u64,
            uncompressed_size: self.announced().2 as u64,
            crc32: self.announced().0,
            file_type: FileType::File,
            comment: Seq::empty(),
            ..self.view(0, windows)
        }
    }

    /// What the central header says of the entry.
    spec fn central_view(self, offset: int, windows: bool) -> MetadataView {
        MetadataView { data_offset: 0, ..self.view(offset, windows) }
    }
}

/// The letters `PK` and the number that start a record.
proof fn lemma_signatures()
    ensures
        le_bytes(0x04034b50, 4) == seq![0x50u8, 0x4bu8, 0x03u8, 0x04u8],
        le_bytes(0x02014b50, 4) == seq![0x50u8, 0x4bu8, 0x01u8, 0x02u8],
        le_bytes(0x08074b50, 4) == seq![0x50u8, 0x4bu8, 0x07u8, 0x08u8],
        le_bytes(0x06054b50, 4) == seq![0x50u8, 0x4bu8, 0x05u8, 0x06u8],
{
    reveal_with_fuel(le_bytes, 5);
    assert(le_bytes(0x04034b50, 4) =~= seq![0x50u8, 0x4bu8, 0x03u8, 0x04u8]);
    assert(le_bytes(0x02014b50, 4) =~= seq![0x50u8, 0x4bu8, 0x01u8, 0x02u8]);
    assert(le_bytes(0x08074b50, 4) =~= seq![0x50u8, 0x4bu8, 0x07u8, 0x08u8]);
    assert(le_bytes(0x06054b50, 4) =~= seq![0x50u8, 0x4bu8, 0x05u8, 0x06u8]);
}

/// The local header is a record, the name and the extra fields.
proof fn lemma_head(e: Plain)
    requires
        e.name.len() <= 0xffff,
        e.local_extra.len() <= 0xffff,
    ensures
        e.head() == e.local_header().bytes() + (e.name + e.local_extra),
        e.local_header().bytes().len() == 30,
{
    reveal(Plain::head);
    lemma_signatures();
    reveal(LocalFileHeader::bytes);
    bytes::lemma_written_32(0x04034b50);
    bytes::lemma_written_16(e.other.1);
    bytes::lemma_written_16(e.flags);
    bytes::lemma_written_16(e.method);
    bytes::lemma_written_16(e.other.2);
    bytes::lemma_written_16(e.other.3);
    bytes::lemma_written_32(e.announced().0);
    bytes::lemma_written_32(e.announced().1);
    bytes::lemma_written_32(e.announced().2);
    bytes::lemma_written_16(e.name.len() as u16);
    bytes::lemma_written_16(e.local_extra.len() as u16);
    e.local_header().lemma_parse_bytes(Seq::empty());
}

/// The central header is a record, the name, the extra fields and the comment.
proof fn lemma_central(e: Plain, offset: int)
    requires
        e.name.len() <= 0xffff,
        e.comment.len() <= 0xffff,
        e.central_extra.len() <= 0xffff,
        e.data.len() <= 0xffff_ffff,
        0 <= offset <= 0xffff_ffff,
    ensures
        e.central(offset) == e.central_header(offset).bytes() + (e.name + e.central_extra
            + e.comment),
        e.central_header(offset).bytes().len() == 46,
{
    reveal(Plain::central);
    lemma_signatures();
    reveal(CentralFileHeader::bytes);
    bytes::lemma_written_32(0x02014b50);
    bytes::lemma_written_16(e.other.0);
    bytes::lemma_written_16(e.other.1);
    bytes::lemma_written_16(e.flags);
    bytes::lemma_written_16(e.method);
    bytes::lemma_written_16(e.other.2);
    bytes::lemma_written_16(e.other.3);
    bytes::lemma_written_32(e.crc32);
    bytes::lemma_written_32(e.data.len() as u32);
    bytes::lemma_written_32(e.content_len);
    bytes::lemma_written_16(e.name.len() as u16);
    bytes::lemma_written_16(e.central_extra.len() as u16);
    bytes::lemma_written_16(e.comment.len() as u16);
    bytes::lemma_written_16(0);
    bytes::lemma_written_16(e.other.4);
    bytes::lemma_written_32(e.attributes);
    bytes::lemma_written_32(offset as u32);
    e.central_header(offset).lemma_parse_bytes(Seq::empty());
}

/// The variable fields of the local header read as what it says of the entry.
#[verifier::rlimit(40)]
proof fn lemma_local_entry(e: Plain, windows: bool)
    requires
        e.valid(windows),
    ensures
        raw::local_entry(e.local_header(), e.name + e.local_extra, windows) == Some(
            e.local_view(windows),
        ),
        raw::local_variable_len(e.local_header()) == e.name.len() + e.local_extra.len(),
{
    reveal(raw::local_entry);
    reveal(metadata::local_metadata);
    let h = e.local_header();
    let variable = e.name + e.local_extra;
    U32::lemma_value_of(0x04034b50);
    U16::lemma_value_of(e.flags);
    U16::lemma_value_of(e.method);
    U32::lemma_value_of(e.announced().0);
    U32::lemma_value_of(e.announced().1);
    U32::lemma_value_of(e.announced().2);
    U16::lemma_value_of(e.name.len() as u16);
    U16::lemma_value_of(e.local_extra.len() as u16);
    lemma_flags(e.flags);
    assert(variable.subrange(0, e.name.len() as int) =~= e.name);
    assert(variable.skip(e.name.len() as int) =~= e.local_extra);
    let base = metadata::local_base(h, names::valid_name(e.name, windows)->0);
    assert(base =~= e.local_view(windows));
    lemma_quiet(base, e.local_extra, None, None, windows);
}

/// The variable fields of the central header read as what it says of the entry.
#[verifier::rlimit(40)]
proof fn lemma_central_entry(e: Plain, offset: int, windows: bool)
    requires
        e.valid(windows),
        0 <= offset <= 0xffff_ffff,
    ensures
        raw::central_entry(
            e.central_header(offset),
            e.name + e.central_extra + e.comment,
            windows,
        ) == Some(e.central_view(offset, windows)),
        raw::central_variable_len(e.central_header(offset)) == e.name.len() + e.central_extra.len()
            + e.comment.len(),
{
    reveal(raw::central_entry);
    reveal(metadata::central_metadata);
    let h = e.central_header(offset);
    let variable = e.name + e.central_extra + e.comment;
    U32::lemma_value_of(0x02014b50);
    U16::lemma_value_of(e.flags);
    U16::lemma_value_of(e.method);
    U32::lemma_value_of(e.crc32);
    U32::lemma_value_of(e.data.len() as u32);
    U32::lemma_value_of(e.content_len);
    U16::lemma_value_of(e.name.len() as u16);
    U16::lemma_value_of(e.central_extra.len() as u16);
    U16::lemma_value_of(e.comment.len() as u16);
    U16::lemma_value_of(0);
    U32::lemma_value_of(e.attributes);
    U32::lemma_value_of(offset as u32);
    lemma_flags(e.flags);
    lemma_type(e.attributes, e.ends_with_slash(windows));
    let n = e.name.len() as int;
    let x = e.central_extra.len() as int;
    assert(variable.subrange(0, n) =~= e.name);
    assert(variable.subrange(n, n + x) =~= e.central_extra);
    assert(variable.skip(n + x) =~= e.comment);
    let name = names::valid_name(e.name, windows)->0;
    let base = metadata::central_base(
        h,
        name,
        e.comment,
        type_told(e.attributes, e.ends_with_slash(windows))->0,
    );
    assert(base =~= e.central_view(offset, windows));
    lemma_quiet(base, e.central_extra, None, None, windows);
}

/// A central header is read where it lies.
proof fn lemma_central_at(d: Seq<u8>, pos: int, e: Plain, offset: int, windows: bool)
    requires
        e.valid(windows),
        0 <= offset <= 0xffff_ffff,
        at(d, pos, e.central(offset)),
    ensures
        scanner::central_at(d, windows, pos) == Ok::<(MetadataView, int), Error>(
            (e.central_view(offset, windows), pos + e.central(offset).len()),
        ),
        e.central(offset).len() >= 47,
{
    lemma_central(e, offset);
    lemma_central_entry(e, offset, windows);
    let h = e.central_header(offset);
    let variable = e.name + e.central_extra + e.comment;
    roundtrip::lemma_at_concat(d, pos, h.bytes(), variable);
    h.lemma_parse_bytes(Seq::empty());
    assert(h.bytes() + Seq::<u8>::empty() =~= h.bytes());
    assert(e.name.len() > 0) by {
        if e.name.len() == 0 {
            names::lemma_joined_len(e.name);
        }
    }
}

/// A 32-bit descriptor gives the checksum in its second four bytes, the length of the data in the
/// third, and that of the content in the last.
pub proof fn lemma_descriptor(local: MetadataView, s: Seq<u8>)
    requires
        s.len() == 16,
        !local.is_zip64,
    ensures
        raw::described(local, s) == (if s.take(4) == seq![0x50u8, 0x4bu8, 0x07u8, 0x08u8] {
            Ok::<MetadataView, Error>(
                MetadataView {
                    crc32: bytes::le32(s, 4) as u32,
                    compressed_size: bytes::le32(s, 8) as u64,
                    uncompressed_size: bytes::le32(s, 12) as u64,
                    ..local
                },
            )
        } else {
            Err(Error::InvalidEntry)
        }),
{
    reveal(raw::described);
    bytes::lemma_read_32(s, 0);
    bytes::lemma_read_32(s, 4);
    bytes::lemma_read_32(s, 8);
    bytes::lemma_read_32(s, 12);
    lemma_signature_value(s, 0x07, 0x08);
}

/// A 64-bit descriptor gives the checksum in the four bytes behind its signature, then the length of
/// the data in eight bytes and that of the content in eight.
pub proof fn lemma_descriptor_64(local: MetadataView, s: Seq<u8>)
    requires
        s.len() == 24,
        local.is_zip64,
    ensures
        raw::described(local, s) == (if s.take(4) == seq![0x50u8, 0x4bu8, 0x07u8, 0x08u8] {
            Ok::<MetadataView, Error>(
                MetadataView {
                    crc32: bytes::le32(s, 4) as u32,
                    compressed_size: bytes::le64(s, 8) as u64,
                    uncompressed_size: bytes::le64(s, 16) as u64,
                    ..local
                },
            )
        } else {
            Err(Error::InvalidEntry)
        }),
{
    reveal(raw::described);
    bytes::lemma_read_32(s, 0);
    bytes::lemma_read_32(s, 4);
    bytes::lemma_read_64(s, 8);
    bytes::lemma_read_64(s, 16);
    lemma_signature_value(s, 0x07, 0x08);
}

/// A signature is `PK` and two more bytes.
pub proof fn lemma_signature_value(s: Seq<u8>, a: u8, b: u8)
    requires
        s.len() >= 4,
    ensures
        s.take(4) == seq![0x50u8, 0x4bu8, a, b] <==> bytes::le32(s, 0) == 0x4b50 + 0x1_0000 * a
            + 0x100_0000 * b,
{
    let t = seq![0x50u8, 0x4bu8, a, b];
    if s.take(4) == t {
        assert(s[0] == t[0] && s[1] == t[1] && s[2] == t[2] && s[3] == t[3]) by {
            assert(s.take(4)[0] == s[0] && s.take(4)[1] == s[1] && s.take(4)[2] == s[2]
                && s.take(4)[3] == s[3]);
        }
    } else if bytes::le32(s, 0) == 0x4b50 + 0x1_0000 * a + 0x100_0000 * b {
        assert(s.take(4) =~= t);
    }
}

/// The headers of an entry say the same of it.
proof fn lemma_merged(e: Plain, offset: int, windows: bool)
    requires
        e.valid(windows),
    ensures
        raw::merged(
            e.view(offset, windows),
            MetadataView {
                crc32: e.crc32,
                compressed_size: e.data.len() as u64,
                uncompressed_size: e.content_len as u64,
                ..e.local_view(windows)
            },
        ) == Ok::<MetadataView, Error>(e.view(offset, windows)),
{
    reveal(raw::merged);
    let entry = e.view(offset, windows);
    let local = MetadataView {
        crc32: e.crc32,
        compressed_size: e.data.len() as u64,
        uncompressed_size: e.content_len as u64,
        ..e.local_view(windows)
    };
    assert(raw::consistent(entry, local));
    assert(raw::merged(entry, local)->Ok_0 =~= entry);
}

/// A local record is read where it lies.
#[verifier::rlimit(40)]
proof fn lemma_local_at(d: Seq<u8>, pos: int, e: Plain, windows: bool)
    requires
        e.valid(windows),
        d.len() <= u64::MAX,
        at(d, pos, e.record()),
    ensures
        scanner::local_at(d, windows, pos, e.central_view(pos, windows)) == Ok::<
            (MetadataView, int),
            Error,
        >((e.view(pos, windows), pos + e.record().len())),
{
    reveal(Plain::record);
    reveal(Plain::foot);
    lemma_head(e);
    lemma_local_entry(e, windows);
    let h = e.local_header();
    let variable = e.name + e.local_extra;
    let entry = e.central_view(pos, windows);
    let local = e.local_view(windows);
    roundtrip::lemma_at_concat(d, pos, e.head() + e.data, e.foot());
    roundtrip::lemma_at_concat(d, pos, e.head(), e.data);
    roundtrip::lemma_at_concat(d, pos, h.bytes(), variable);
    h.lemma_parse_bytes(Seq::empty());
    assert(h.bytes() + Seq::<u8>::empty() =~= h.bytes());
    let data_pos = pos + e.head().len();
    let behind = data_pos + e.data.len();
    let placed = MetadataView { data_offset: data_pos as u64, ..entry };
    assert(placed =~= e.view(pos, windows));
    lemma_merged(e, pos, windows);
    assert(scanner::local_at(d, windows, pos, entry) == scanner::data_at(
        d,
        data_pos,
        local,
        entry,
    ));
    if bit_set(e.flags, 3) {
        let s = e.foot();
        bytes::lemma_le_len(e.crc32 as int, 4);
        bytes::lemma_le_len(e.data.len() as int, 4);
        bytes::lemma_le_len(e.content_len as int, 4);
        lemma_descriptor(local, s);
        assert(s.take(4) =~= seq![0x50u8, 0x4bu8, 0x07u8, 0x08u8]);
        let t = seq![0x50u8, 0x4bu8, 0x07u8, 0x08u8];
        lemma_le32_at(t, e.crc32, le_bytes(e.data.len() as int, 4) + le_bytes(e.content_len as int, 4));
        assert(s =~= t + le_bytes(e.crc32 as int, 4) + (le_bytes(e.data.len() as int, 4) + le_bytes(
            e.content_len as int,
            4,
        )));
        lemma_le32_at(
            t + le_bytes(e.crc32 as int, 4),
            e.data.len() as u32,
            le_bytes(e.content_len as int, 4),
        );
        lemma_le32_at(
            t + le_bytes(e.crc32 as int, 4) + le_bytes(e.data.len() as int, 4),
            e.content_len,
            Seq::empty(),
        );
        assert(s =~= t + le_bytes(e.crc32 as int, 4) + le_bytes(e.data.len() as int, 4) + le_bytes(
            e.content_len as int,
            4,
        ) + Seq::<u8>::empty());
        assert(d.subrange(behind, behind + 16) =~= s);
        assert(scanner::data_at(d, data_pos, local, entry) == scanner::descriptor_at(
            d,
            behind,
            local,
            placed,
        ));
    } else {
        assert(local =~= MetadataView {
            crc32: e.crc32,
            compressed_size: e.data.len() as u64,
            uncompressed_size: e.content_len as u64,
            ..local
        });
        assert(scanner::data_at(d, data_pos, local, entry) == scanner::completed(
            placed,
            local,
            behind,
        ));
    }
}

/// An integer that was written is read back.
pub proof fn lemma_le32_at(a: Seq<u8>, x: u32, b: Seq<u8>)
    ensures
        bytes::le32(a + le_bytes(x as int, 4) + b, a.len() as int) == x,
{
    let s = a + le_bytes(x as int, 4) + b;
    bytes::lemma_le_len(x as int, 4);
    bytes::lemma_written_32(x);
    bytes::lemma_read_32(s, a.len() as int);
    U32::lemma_value_of(x);
    assert(U32::at(s, a.len() as int) == U32::of(x)) by {
        let t = U32::of(x).bytes();
        let n = a.len() as int;
        assert(s[n] == t[0] && s[n + 1] == t[1] && s[n + 2] == t[2] && s[n + 3] == t[3]);
    }
}

/// The entries as they lie in the archive, one after the other.
pub open spec fn body(es: Seq<Plain>) -> Seq<u8>
    decreases es.len(),
{
    if es.len() == 0 {
        Seq::empty()
    } else {
        body(es.drop_last()) + es.last().record()
    }
}

/// The central directory of entries that start at this place.
pub open spec fn directory(es: Seq<Plain>, base: int) -> Seq<u8>
    decreases es.len(),
{
    if es.len() == 0 {
        Seq::empty()
    } else {
        directory(es.drop_last(), base) + es.last().central(base + body(es.drop_last()).len())
    }
}

/// The end of central directory, with the number of entries, the length and the place of the
/// directory, and a comment.
#[verifier::opaque]
pub open spec fn end(entries: int, size: int, offset: int, comment: Seq<u8>) -> Seq<u8> {
    seq![0x50u8, 0x4bu8, 0x05u8, 0x06u8] + le_bytes(0, 2) + le_bytes(0, 2) + le_bytes(entries, 2)
        + le_bytes(entries, 2) + le_bytes(size, 4) + le_bytes(offset, 4) + le_bytes(
        comment.len() as int,
        2,
    ) + comment
}

/// A whole archive, behind something else that may come before it.
#[verifier::opaque]
pub open spec fn archive(prefix: Seq<u8>, es: Seq<Plain>, comment: Seq<u8>) -> Seq<u8> {
    let base = prefix.len() as int;
    prefix + body(es) + directory(es, base) + end(
        es.len() as int,
        directory(es, base).len() as int,
        base + body(es).len(),
        comment,
    )
}

/// Where the record of an entry starts.
pub open spec fn offset_of(prefix: Seq<u8>, es: Seq<Plain>, i: int) -> int {
    prefix.len() as int + body(es.take(i)).len()
}

/// What is asked of an archive: its entries are in order and no two have the same name, it is not
/// too large for its records, and nothing in its end looks like the start of that end.
pub open spec fn archivable(
    prefix: Seq<u8>,
    es: Seq<Plain>,
    comment: Seq<u8>,
    windows: bool,
) -> bool {
    let base = prefix.len() as int;
    let last = end(
        es.len() as int,
        directory(es, base).len() as int,
        base + body(es).len(),
        comment,
    );
    &&& forall|i: int| 0 <= i < es.len() ==> (#[trigger] es[i]).valid(windows)
    &&& forall|i: int, j: int|
        0 <= i < j < es.len() ==> names::stripped(
            names::valid_name((#[trigger] es[i]).name, windows)->0,
        ) != names::stripped(names::valid_name((#[trigger] es[j]).name, windows)->0)
    &&& es.len() < 0xffff
    &&& comment.len() <= 0xffff
    &&& directory(es, base).len() <= 0xffff_ffff
    &&& base + body(es).len() < 0xffff_ffff
    &&& forall|i: int|
        0 < i && i + 4 <= last.len() ==> #[trigger] last.subrange(i, i + 4) != seq![
            0x50u8,
            0x4bu8,
            0x05u8,
            0x06u8,
        ]
}

/// What is known of the entries when the archive is open.
pub open spec fn views(prefix: Seq<u8>, es: Seq<Plain>, windows: bool) -> Seq<MetadataView> {
    Seq::new(es.len(), |k: int| es[k].view(offset_of(prefix, es, k), windows))
}

/// An entry follows those before it.
proof fn lemma_step(prefix: Seq<u8>, es: Seq<Plain>, i: int)
    requires
        0 <= i < es.len(),
    ensures
        body(es.take(i + 1)) == body(es.take(i)) + es[i].record(),
        directory(es.take(i + 1), prefix.len() as int) == directory(
            es.take(i),
            prefix.len() as int,
        ) + es[i].central(offset_of(prefix, es, i)),
{
    assert(es.take(i + 1).drop_last() =~= es.take(i));
}

/// The entries from an index on follow those before it.
proof fn lemma_split(prefix: Seq<u8>, es: Seq<Plain>, i: int) -> (rest: (Seq<u8>, Seq<u8>))
    requires
        0 <= i <= es.len(),
    ensures
        body(es) == body(es.take(i)) + rest.0,
        directory(es, prefix.len() as int) == directory(es.take(i), prefix.len() as int) + rest.1,
    decreases es.len() - i,
{
    let base = prefix.len() as int;
    if i == es.len() {
        assert(es.take(i) =~= es);
        assert(body(es) =~= body(es.take(i)) + Seq::<u8>::empty());
        assert(directory(es, base) =~= directory(es.take(i), base) + Seq::<u8>::empty());
        (Seq::<u8>::empty(), Seq::<u8>::empty())
    } else {
        lemma_step(prefix, es, i);
        let (b, c) = lemma_split(prefix, es, i + 1);
        let central = es[i].central(offset_of(prefix, es, i));
        let rest = (es[i].record() + b, central + c);
        assert(body(es.take(i)) + es[i].record() + b =~= body(es.take(i)) + rest.0);
        assert(directory(es.take(i), base) + central + c =~= directory(es.take(i), base) + rest.1);
        rest
    }
}

/// The parts of an archive are where they belong.
proof fn lemma_parts(prefix: Seq<u8>, es: Seq<Plain>, comment: Seq<u8>)
    ensures
        ({
            let d = archive(prefix, es, comment);
            let base = prefix.len() as int;
            let b = body(es);
            let c = directory(es, base);
            let e = end(es.len() as int, c.len() as int, base + b.len(), comment);
            &&& at(d, base, b)
            &&& at(d, base + b.len(), c)
            &&& at(d, base + b.len() + c.len(), e)
            &&& d.len() == base + b.len() + c.len() + e.len()
        }),
{
    reveal(archive);
    let d = archive(prefix, es, comment);
    let base = prefix.len() as int;
    let b = body(es);
    let c = directory(es, base);
    let e = end(es.len() as int, c.len() as int, base + b.len(), comment);
    assert(d.subrange(0, d.len() as int) =~= d);
    assert(at(d, 0, prefix + b + c + e));
    roundtrip::lemma_at_concat(d, 0, prefix + b + c, e);
    roundtrip::lemma_at_concat(d, 0, prefix + b, c);
    roundtrip::lemma_at_concat(d, 0, prefix, b);
}

/// An entry and its central header are where they belong.
proof fn lemma_entry_at(prefix: Seq<u8>, es: Seq<Plain>, comment: Seq<u8>, i: int)
    requires
        0 <= i < es.len(),
    ensures
        ({
            let d = archive(prefix, es, comment);
            let base = prefix.len() as int;
            let start = base + body(es).len();
            let o = offset_of(prefix, es, i);
            &&& at(d, o, es[i].record())
            &&& at(d, start + directory(es.take(i), base).len(), es[i].central(o))
            &&& offset_of(prefix, es, i + 1) == o + es[i].record().len()
            &&& directory(es.take(i + 1), base).len() == directory(es.take(i), base).len()
                + es[i].central(o).len()
            &&& offset_of(prefix, es, i + 1) <= start
        }),
{
    let d = archive(prefix, es, comment);
    let base = prefix.len() as int;
    let start = base + body(es).len();
    let o = offset_of(prefix, es, i);
    lemma_parts(prefix, es, comment);
    lemma_step(prefix, es, i);
    let (x, y) = lemma_split(prefix, es, i + 1);
    let p = body(es.take(i));
    let q = directory(es.take(i), base);
    let c = es[i].central(o);
    roundtrip::lemma_at_concat(d, base, p + es[i].record(), x);
    roundtrip::lemma_at_concat(d, base, p, es[i].record());
    roundtrip::lemma_at_concat(d, start, q + c, y);
    roundtrip::lemma_at_concat(d, start, q, c);
}

/// The metadata of the entries, of which the first ones are completed by their local headers.
spec fn partly_read(
    prefix: Seq<u8>,
    es: Seq<Plain>,
    completed: int,
    windows: bool,
) -> Seq<MetadataView> {
    Seq::new(
        es.len(),
        |k: int|
            if k < completed {
                es[k].view(offset_of(prefix, es, k), windows)
            } else {
                es[k].central_view(offset_of(prefix, es, k), windows)
            },
    )
}

/// Reading the entries from an index on completes all of them.
#[verifier::rlimit(40)]
proof fn lemma_from_local(
    prefix: Seq<u8>,
    es: Seq<Plain>,
    comment: Seq<u8>,
    i: int,
    windows: bool,
)
    requires
        archivable(prefix, es, comment, windows),
        0 <= i <= es.len(),
    ensures
        scanner::from_local(
            archive(prefix, es, comment),
            windows,
            offset_of(prefix, es, i),
            partly_read(prefix, es, i, windows),
            i as nat,
            (prefix.len() + body(es).len()) as u64,
            comment,
        ) == Ok::<ArchiveView, Error>(
            ArchiveView { entries: views(prefix, es, windows), comment },
        ),
    decreases es.len() - i,
{
    let d = archive(prefix, es, comment);
    lemma_parts(prefix, es, comment);
    lemma_end_len(prefix, es, comment);
    let all = views(prefix, es, windows);
    if i == es.len() {
        assert(es.take(i) =~= es);
        assert(partly_read(prefix, es, i, windows) =~= all);
        let ns = opened::stripped_names(all);
        assert forall|j: int, k: int|
            0 <= j < ns.len() && 0 <= k < ns.len() && j != k implies ns[j] != ns[k] by {
            assert(ns[j] == names::stripped(names::valid_name(es[j].name, windows)->0));
            assert(ns[k] == names::stripped(names::valid_name(es[k].name, windows)->0));
        }
    } else {
        lemma_entry_at(prefix, es, comment, i);
        let o = offset_of(prefix, es, i);
        lemma_local_at(d, o, es[i], windows);
        assert(partly_read(prefix, es, i, windows)[i] == es[i].central_view(o, windows));
        assert(partly_read(prefix, es, i, windows).update(i, es[i].view(o, windows))
            =~= partly_read(prefix, es, i + 1, windows));
        lemma_from_local(prefix, es, comment, i + 1, windows);
    }
}

/// Reading a central header goes on with the next one.
proof fn lemma_central_step(
    d: Seq<u8>,
    windows: bool,
    pos: int,
    left: nat,
    entries: Seq<MetadataView>,
    offset: u64,
    comment: Seq<u8>,
    m: MetadataView,
    next: int,
)
    requires
        left > 0,
        scanner::central_at(d, windows, pos) == Ok::<(MetadataView, int), Error>((m, next)),
    ensures
        scanner::from_central(d, windows, pos, left, entries, offset, comment)
            == scanner::from_central(
            d,
            windows,
            next,
            (left - 1) as nat,
            entries.push(m),
            offset,
            comment,
        ),
{
}

/// Reading the central headers from an index on, and then the entries, gives all of them.
#[verifier::rlimit(40)]
proof fn lemma_from_central(
    prefix: Seq<u8>,
    es: Seq<Plain>,
    comment: Seq<u8>,
    i: int,
    windows: bool,
)
    requires
        archivable(prefix, es, comment, windows),
        0 <= i <= es.len(),
        es.len() > 0,
    ensures
        scanner::from_central(
            archive(prefix, es, comment),
            windows,
            prefix.len() as int + body(es).len() + directory(es.take(i), prefix.len() as int).len(),
            (es.len() - i) as nat,
            partly_read(prefix, es, 0, windows).take(i),
            (prefix.len() + body(es).len()) as u64,
            comment,
        ) == Ok::<ArchiveView, Error>(
            ArchiveView { entries: views(prefix, es, windows), comment },
        ),
    decreases es.len() - i,
{
    let d = archive(prefix, es, comment);
    let base = prefix.len() as int;
    let start = base + body(es).len();
    if i == es.len() {
        lemma_from_local(prefix, es, comment, 0, windows);
        assert(partly_read(prefix, es, 0, windows).take(i) =~= partly_read(prefix, es, 0, windows));
        assert(es.take(0) =~= Seq::<Plain>::empty());
    } else {
        lemma_entry_at(prefix, es, comment, i);
        let o = offset_of(prefix, es, i);
        let pos = start + directory(es.take(i), base).len();
        let next = start + directory(es.take(i + 1), base).len();
        let m = es[i].central_view(o, windows);
        lemma_central_at(d, pos, es[i], o, windows);
        assert(partly_read(prefix, es, 0, windows).take(i).push(m) =~= partly_read(
            prefix,
            es,
            0,
            windows,
        ).take(i + 1));
        lemma_from_central(prefix, es, comment, i + 1, windows);
        lemma_central_step(
            d,
            windows,
            pos,
            (es.len() - i) as nat,
            partly_read(prefix, es, 0, windows).take(i),
            start as u64,
            comment,
            m,
            next,
        );
    }
}

/// A central directory is large enough for its entries.
proof fn lemma_directory_size(
    prefix: Seq<u8>,
    es: Seq<Plain>,
    comment: Seq<u8>,
    i: int,
    windows: bool,
)
    requires
        archivable(prefix, es, comment, windows),
        0 <= i <= es.len(),
    ensures
        directory(es.take(i), prefix.len() as int).len() >= 47 * i,
    decreases i,
{
    if i > 0 {
        lemma_directory_size(prefix, es, comment, i - 1, windows);
        lemma_entry_at(prefix, es, comment, i - 1);
        let o = offset_of(prefix, es, i - 1);
        lemma_central_at(
            archive(prefix, es, comment),
            prefix.len() as int + body(es).len() + directory(
                es.take(i - 1),
                prefix.len() as int,
            ).len(),
            es[i - 1],
            o,
            windows,
        );
    }
}

/// The end of central directory as a record.
spec fn end_record(entries: int, size: int, offset: int, comment_len: int) -> EndOfCentralDirectory {
    EndOfCentralDirectory {
        signature: U32::of(0x06054b50),
        disk_number: U16::of(0),
        disk_with_central_directory: U16::of(0),
        entries_on_this_disk: U16::of(entries as u16),
        total_entries: U16::of(entries as u16),
        central_directory_size: U32::of(size as u32),
        central_directory_offset: U32::of(offset as u32),
        comment_length: U16::of(comment_len as u16),
    }
}

/// The end of central directory is a record and the comment.
proof fn lemma_end(entries: int, size: int, offset: int, comment: Seq<u8>)
    requires
        0 <= entries <= 0xffff,
        0 <= size <= 0xffff_ffff,
        0 <= offset <= 0xffff_ffff,
        comment.len() <= 0xffff,
    ensures
        end(entries, size, offset, comment) == end_record(
            entries,
            size,
            offset,
            comment.len() as int,
        ).bytes() + comment,
        end_record(entries, size, offset, comment.len() as int).bytes().len() == 22,
{
    reveal(end);
    lemma_signatures();
    reveal(EndOfCentralDirectory::bytes);
    bytes::lemma_written_32(0x06054b50);
    bytes::lemma_written_16(0);
    bytes::lemma_written_16(entries as u16);
    bytes::lemma_written_32(size as u32);
    bytes::lemma_written_32(offset as u32);
    bytes::lemma_written_16(comment.len() as u16);
    end_record(entries, size, offset, comment.len() as int).lemma_parse_bytes(Seq::empty());
}

/// An archive is not longer than a file can be.
proof fn lemma_end_len(prefix: Seq<u8>, es: Seq<Plain>, comment: Seq<u8>)
    requires
        es.len() < 0xffff,
        comment.len() <= 0xffff,
        directory(es, prefix.len() as int).len() <= 0xffff_ffff,
        prefix.len() + body(es).len() < 0xffff_ffff,
    ensures
        archive(prefix, es, comment).len() <= u64::MAX,
{
    reveal(archive);
    let base = prefix.len() as int;
    lemma_end(
        es.len() as int,
        directory(es, base).len() as int,
        base + body(es).len(),
        comment,
    );
}

/// The last place where something is found is where it is found and nowhere behind.
pub proof fn lemma_last(s: Seq<u8>, n: Seq<u8>, from: int, found: int)
    requires
        0 <= found <= from,
        raw::occurs(s, n, found),
        forall|j: int| found < j <= from ==> !#[trigger] raw::occurs(s, n, j),
    ensures
        raw::last_occurrence(s, n, from) == Some(found),
    decreases from,
{
    if from > found {
        assert(!raw::occurs(s, n, from));
        lemma_last(s, n, from - 1, found);
    }
}

/// What is not found anywhere has no last place.
pub proof fn lemma_none(s: Seq<u8>, n: Seq<u8>, from: int)
    requires
        forall|j: int| 0 <= j <= from ==> !#[trigger] raw::occurs(s, n, j),
    ensures
        raw::last_occurrence(s, n, from) == None::<int>,
    decreases from + 1,
{
    if from >= 0 {
        assert(!raw::occurs(s, n, from));
        lemma_none(s, n, from - 1);
    }
}

/// A record at the end of a file, with its comment, is found where nothing behind its start looks
/// like it.
#[verifier::rlimit(40)]
pub proof fn lemma_finds(d: Seq<u8>, record: EndOfCentralDirectory, comment: Seq<u8>, windows: bool)
    requires
        d.len() <= u64::MAX,
        comment.len() <= 0xffff,
        record.signature == U32::of(0x06054b50),
        at(d, d.len() - (record.bytes() + comment).len(), record.bytes() + comment),
        forall|i: int|
            0 < i && i + 4 <= (record.bytes() + comment).len() ==> #[trigger] (record.bytes()
                + comment).subrange(i, i + 4) != seq![0x50u8, 0x4bu8, 0x05u8, 0x06u8],
    ensures
        scanner::archive_of(d, windows) == scanner::from_eocd(
            d,
            windows,
            EocdView { offset: (d.len() - 22 - comment.len()) as u64, record, comment },
        ),
{
    let last = record.bytes() + comment;
    let sig = raw::eocd_signature();
    record.lemma_parse_bytes(comment);
    lemma_signatures();
    bytes::lemma_written_32(0x06054b50);
    assert(sig == seq![0x50u8, 0x4bu8, 0x05u8, 0x06u8]);
    assert(last.subrange(0, 4) =~= sig) by {
        reveal(EndOfCentralDirectory::bytes);
    }
    let found = EocdView { offset: (d.len() - last.len()) as u64, record, comment };
    // Whatever part of the end of the file is searched, the start of the record is the last place.
    let k = scanner::tail_len(d.len() as int);
    let long = scanner::tail(d, k);
    let short = scanner::tail(d, 22);
    assert(k >= last.len());
    lemma_found(d, long, last, sig, k);
    lemma_found(d, short, last, sig, 22);
    assert(last.skip(22) =~= comment);
    if comment.len() == 0 {
        assert(last.skip(0) =~= last);
        assert(short.skip(0) =~= last);
        assert(short.skip(22) =~= comment);
        assert(raw::eocd_in(d.len() - 22, short) == Ok::<Option<EocdView>, Error>(Some(found)));
    } else {
        assert(raw::eocd_in(d.len() - 22, short) == Ok::<Option<EocdView>, Error>(None));
        assert(long.skip(k - last.len() + 22) =~= last.skip(22));
        assert(raw::eocd_in(d.len() - k, long) == Ok::<Option<EocdView>, Error>(Some(found)));
    }
    reveal(scanner::archive_of);
}

/// The end of an archive leads to its central directory.
#[verifier::rlimit(40)]
proof fn lemma_ends(prefix: Seq<u8>, es: Seq<Plain>, comment: Seq<u8>, windows: bool)
    requires
        archivable(prefix, es, comment, windows),
    ensures
        ({
            let d = archive(prefix, es, comment);
            let base = prefix.len() as int;
            let size = directory(es, base).len();
            let offset = base + body(es).len();
            scanner::archive_of(d, windows) == scanner::from_directory(
                d,
                windows,
                CentralDirectory {
                    offset: offset as u64,
                    size: size as u64,
                    eocd_offset: (offset + size) as u64,
                    entries: es.len() as u64,
                },
                comment,
            )
        }),
{
    let d = archive(prefix, es, comment);
    let base = prefix.len() as int;
    let size = directory(es, base).len() as int;
    let offset = base + body(es).len();
    let n = es.len() as int;
    lemma_parts(prefix, es, comment);
    lemma_end(n, size, offset, comment);
    lemma_end_len(prefix, es, comment);
    let record = end_record(n, size, offset, comment.len() as int);
    lemma_finds(d, record, comment, windows);
    lemma_leads(d, n, size, offset, comment, windows);
}

/// An end of central directory leads to the directory that it tells of.
proof fn lemma_leads(
    d: Seq<u8>,
    n: int,
    size: int,
    offset: int,
    comment: Seq<u8>,
    windows: bool,
)
    requires
        0 <= n < 0xffff,
        0 <= size <= 0xffff_ffff,
        0 <= offset < 0xffff_ffff,
        comment.len() <= 0xffff,
    ensures
        scanner::from_eocd(
            d,
            windows,
            EocdView {
                offset: (offset + size) as u64,
                record: end_record(n, size, offset, comment.len() as int),
                comment,
            },
        ) == scanner::from_directory(
            d,
            windows,
            CentralDirectory {
                offset: offset as u64,
                size: size as u64,
                eocd_offset: (offset + size) as u64,
                entries: n as u64,
            },
            comment,
        ),
{
    U16::lemma_value_of(0);
    U16::lemma_value_of(n as u16);
    U32::lemma_value_of(size as u32);
    U32::lemma_value_of(offset as u32);
    U16::lemma_value_of(comment.len() as u16);
}

/// Where the end of an archive is found in the last bytes of the file.
proof fn lemma_found(d: Seq<u8>, s: Seq<u8>, last: Seq<u8>, sig: Seq<u8>, n: int)
    requires
        22 <= n <= d.len(),
        s == scanner::tail(d, n),
        22 <= last.len() <= d.len(),
        at(d, d.len() - last.len(), last),
        sig == seq![0x50u8, 0x4bu8, 0x05u8, 0x06u8],
        last.subrange(0, 4) == sig,
        forall|i: int|
            0 < i && i + 4 <= last.len() ==> #[trigger] last.subrange(i, i + 4) != seq![
                0x50u8,
                0x4bu8,
                0x05u8,
                0x06u8,
            ],
    ensures
        last.len() <= n ==> raw::last_occurrence(s, sig, s.len() - 4) == Some(n - last.len())
            && s.skip(n - last.len()) == last,
        last.len() > n ==> raw::last_occurrence(s, sig, s.len() - 4) == None::<int>,
{
    let shift = n - last.len();
    assert(d.subrange(d.len() - last.len(), d.len() as int) == last);
    assert forall|j: int| shift < j <= s.len() - 4 && 0 <= j implies !#[trigger] raw::occurs(
        s,
        sig,
        j,
    ) by {
        let i = j - shift;
        assert(last.subrange(i, i + 4) =~= s.subrange(j, j + 4));
    }
    if last.len() <= n {
        assert(s.skip(shift) =~= last);
        assert(s.subrange(shift, shift + 4) =~= last.subrange(0, 4));
        assert(raw::occurs(s, sig, shift));
        lemma_last(s, sig, s.len() - 4, shift);
    } else {
        lemma_none(s, sig, s.len() - 4);
    }
}

/// An archive in plain form opens, and its entries are those that were put there: with their names
/// in canonical form, their types, methods, flags, lengths, checksums and comments, and with their
/// data where it lies. It may have something before it, entries whose lengths come in a descriptor
/// behind the data, and a comment.
#[verifier::rlimit(40)]
pub proof fn lemma_opens(prefix: Seq<u8>, es: Seq<Plain>, comment: Seq<u8>, windows: bool)
    requires
        archivable(prefix, es, comment, windows),
    ensures
        scanner::archive_of(archive(prefix, es, comment), windows) == Ok::<ArchiveView, Error>(
            ArchiveView { entries: views(prefix, es, windows), comment },
        ),
        forall|i: int|
            0 <= i < es.len() ==> metadata::raw_data(
                #[trigger] views(prefix, es, windows)[i],
                archive(prefix, es, comment),
            ) == es[i].data,
{
    reveal(Plain::record);
    let d = archive(prefix, es, comment);
    lemma_parts(prefix, es, comment);
    lemma_end_len(prefix, es, comment);
    lemma_ends(prefix, es, comment, windows);
    lemma_directory_size(prefix, es, comment, es.len() as int, windows);
    assert(es.take(es.len() as int) =~= es);
    if es.len() == 0 {
        assert(views(prefix, es, windows) =~= Seq::<MetadataView>::empty());
    } else {
        lemma_from_central(prefix, es, comment, 0, windows);
        assert(es.take(0) =~= Seq::<Plain>::empty());
        assert(partly_read(prefix, es, 0, windows).take(0) =~= Seq::<MetadataView>::empty());
    }
    assert forall|i: int| 0 <= i < es.len() implies metadata::raw_data(
        #[trigger] views(prefix, es, windows)[i],
        d,
    ) == es[i].data by {
        let e = es[i];
        let o = offset_of(prefix, es, i);
        lemma_entry_at(prefix, es, comment, i);
        roundtrip::lemma_at_concat(d, o, e.head() + e.data, e.foot());
        roundtrip::lemma_at_concat(d, o, e.head(), e.data);
        assert(metadata::raw_data(e.view(o, windows), d) =~= e.data);
    }
}

} // verus!
