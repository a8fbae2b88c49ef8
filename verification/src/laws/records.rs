//! What the records of a file say, byte by byte.
use crate::compression::CompressionMethod;
use crate::error::Error;
use crate::laws::bytes;
use crate::laws::bytes::{le16, le32, le64};
use crate::laws::plain;
use crate::read::extra_field;
use crate::read::metadata;
use crate::read::metadata::MetadataView;
use crate::read::raw;
use crate::read::raw::CentralDirectory;
use crate::types::{
    CentralFileHeader, EndOfCentralDirectory, EndOfCentralDirectory64,
    EndOfCentralDirectory64Locator, LocalFileHeader,
};
use crate::utils::crc32;
use crate::utils::{cp437, names, FileType, Timestamp};
use vstd::prelude::*;
use vstd::utf8::*;

verus! {

/// A text in a header is taken as it is where it is UTF-8. Where it is not, though the flags tell so,
/// it is refused, and otherwise each of its bytes is a character of the code page 437, and its
/// checksum tells which extra field may replace it.
pub proof fn lemma_text(raw: Seq<u8>, unicode: bool)
    ensures
        valid_utf8(raw) ==> metadata::text_of(raw, unicode) == Some((raw, None::<u32>)),
        !valid_utf8(raw) && unicode ==> metadata::text_of(raw, unicode) is None,
        !valid_utf8(raw) && !unicode ==> {
            &&& metadata::text_of(raw, unicode) matches Some((text, crc))
            &&& crc == Some(crc32::crc32_of(raw))
            &&& valid_utf8(text)
            &&& decode_utf8(text).len() == raw.len()
            &&& forall|i: int|
                0 <= i < raw.len() ==> #[trigger] decode_utf8(text)[i] == cp437::decoded(raw[i])
        },
{
    if !valid_utf8(raw) && !unicode {
        let chars = raw.map_values(|b: u8| cp437::decoded(b));
        encode_utf8_valid_utf8(chars);
        encode_utf8_decode_utf8(chars);
    }
}

/// What a header says of an entry before its extra fields, apart from what only a central header
/// says. The header has the flags at `at`, the method two bytes behind them, the checksum eight
/// bytes behind them, and then the length of the data and that of the content.
pub open spec fn told(d: Seq<u8>, at: int, name: Seq<u8>) -> MetadataView {
    MetadataView {
        header_offset: 0,
        data_offset: 0,
        compressed_size: le32(d, at + 12) as u64,
        uncompressed_size: le32(d, at + 16) as u64,
        compression_method: CompressionMethod(le16(d, at + 2) as u16),
        crc32: le32(d, at + 8) as u32,
        file_type: FileType::File,
        modification_time: None,
        access_time: None,
        creation_time: None,
        encryption: plain::encryption_told(le16(d, at) as u16),
        name,
        comment: Seq::empty(),
        is_streaming: plain::bit_set(le16(d, at) as u16, 3),
        is_zip64: false,
        flags: le16(d, at) as u16,
    }
}

/// What a local header says: 30 bytes that start with `PK` and 3 and 4, then the name and the extra
/// fields. The lengths of these are in the last four of the 30 bytes.
pub proof fn lemma_local_header(s: Seq<u8>, windows: bool)
    requires
        s.len() == 30 + le16(s, 26) + le16(s, 28),
    ensures
        ({
            let n = le16(s, 26);
            let flags = le16(s, 6) as u16;
            let r = raw::local_entry(LocalFileHeader::parse(s.take(30)), s.skip(30), windows);
            &&& raw::local_variable_len(LocalFileHeader::parse(s.take(30))) == s.len() - 30
            &&& if s.take(4) != seq![0x50u8, 0x4bu8, 0x03u8, 0x04u8] {
                r is None
            } else {
                match metadata::text_of(s.subrange(30, 30 + n), plain::bit_set(flags, 11)) {
                    None => r is None,
                    Some((text, crc)) => match names::valid_name(text, windows) {
                        None => r is None,
                        Some(name) => r == metadata::with_fields(
                            told(s, 6, name),
                            extra_field::fields(s.skip(30 + n)),
                            crc,
                            None,
                            windows,
                        ),
                    },
                }
            }
        }),
{
    let t = s.take(30);
    let n = le16(s, 26);
    let flags = le16(s, 6) as u16;
    reveal(raw::local_entry);
    reveal(metadata::local_metadata);
    bytes::lemma_read_32(t, 0);
    bytes::lemma_read_16(t, 6);
    bytes::lemma_read_16(t, 8);
    bytes::lemma_read_32(t, 14);
    bytes::lemma_read_32(t, 18);
    bytes::lemma_read_32(t, 22);
    bytes::lemma_read_16(t, 26);
    bytes::lemma_read_16(t, 28);
    plain::lemma_signature_value(s, 0x03, 0x04);
    plain::lemma_flags(flags);
    assert(s.skip(30).subrange(0, n) =~= s.subrange(30, 30 + n));
    assert(s.skip(30).skip(n) =~= s.skip(30 + n));
    let h = LocalFileHeader::parse(t);
    match metadata::text_of(s.subrange(30, 30 + n), plain::bit_set(flags, 11)) {
        Some((text, crc)) => match names::valid_name(text, windows) {
            Some(name) => {
                assert(metadata::local_base(h, name) =~= told(s, 6, name));
            },
            None => {},
        },
        None => {},
    }
}

/// What a central header says: 46 bytes that start with `PK` and 1 and 2, then the name, the extra
/// fields and the comment. The lengths of these are from the 28th byte on, behind them the number of
/// the disk, which is 0, and from the 38th byte on the attributes and the place of the local header.
pub proof fn lemma_central_header(s: Seq<u8>, windows: bool)
    requires
        s.len() == 46 + le16(s, 28) + le16(s, 30) + le16(s, 32),
    ensures
        ({
            let n = le16(s, 28);
            let e = le16(s, 30);
            let flags = le16(s, 8) as u16;
            let unicode = plain::bit_set(flags, 11);
            let r = raw::central_entry(CentralFileHeader::parse(s.take(46)), s.skip(46), windows);
            &&& raw::central_variable_len(CentralFileHeader::parse(s.take(46))) == s.len() - 46
            &&& if s.take(4) != seq![0x50u8, 0x4bu8, 0x01u8, 0x02u8] || le16(s, 34) != 0 {
                r is None
            } else {
                match (
                    metadata::text_of(s.subrange(46, 46 + n), unicode),
                    metadata::text_of(s.skip(46 + n + e), unicode),
                ) {
                    (Some((text, name_crc)), Some((comment, comment_crc))) => match names::valid_name(
                        text,
                        windows,
                    ) {
                        None => r is None,
                        Some(name) => match plain::type_told(
                            le32(s, 38) as u32,
                            name.len() > 0 && name.last() == 0x2f,
                        ) {
                            None => r is None,
                            Some(file_type) => r == metadata::with_fields(
                                MetadataView {
                                    header_offset: le32(s, 42) as u64,
                                    file_type,
                                    comment,
                                    ..told(s, 8, name)
                                },
                                extra_field::fields(s.subrange(46 + n, 46 + n + e)),
                                name_crc,
                                comment_crc,
                                windows,
                            ),
                        },
                    },
                    _ => r is None,
                }
            }
        }),
{
    let t = s.take(46);
    let n = le16(s, 28);
    let e = le16(s, 30);
    let flags = le16(s, 8) as u16;
    let unicode = plain::bit_set(flags, 11);
    reveal(raw::central_entry);
    reveal(metadata::central_metadata);
    bytes::lemma_read_32(t, 0);
    bytes::lemma_read_16(t, 8);
    bytes::lemma_read_16(t, 10);
    bytes::lemma_read_32(t, 16);
    bytes::lemma_read_32(t, 20);
    bytes::lemma_read_32(t, 24);
    bytes::lemma_read_16(t, 28);
    bytes::lemma_read_16(t, 30);
    bytes::lemma_read_16(t, 32);
    bytes::lemma_read_16(t, 34);
    bytes::lemma_read_32(t, 38);
    bytes::lemma_read_32(t, 42);
    plain::lemma_signature_value(s, 0x01, 0x02);
    plain::lemma_flags(flags);
    let v = s.skip(46);
    assert(v.subrange(0, n) =~= s.subrange(46, 46 + n));
    assert(v.subrange(n, n + e) =~= s.subrange(46 + n, 46 + n + e));
    assert(v.skip(n + e) =~= s.skip(46 + n + e));
    let h = CentralFileHeader::parse(t);
    match (
        metadata::text_of(s.subrange(46, 46 + n), unicode),
        metadata::text_of(s.skip(46 + n + e), unicode),
    ) {
        (Some((text, name_crc)), Some((comment, comment_crc))) => match names::valid_name(
            text,
            windows,
        ) {
            Some(name) => {
                plain::lemma_type(le32(s, 38) as u32, names::ends_with_slash(name));
                match plain::type_told(le32(s, 38) as u32, names::ends_with_slash(name)) {
                    Some(file_type) => {
                        assert(metadata::central_base(h, name, comment, file_type)
                            =~= (MetadataView {
                            header_offset: le32(s, 42) as u64,
                            file_type,
                            comment,
                            ..told(s, 8, name)
                        }));
                    },
                    None => {},
                }
            },
            None => {},
        },
        _ => {},
    }
}

/// Whether two times are the same where both are there.
pub open spec fn same_time(a: Option<Timestamp>, b: Option<Timestamp>) -> bool {
    match (a, b) {
        (Some(a), Some(b)) => a.0 == b.0,
        _ => true,
    }
}

/// The central and the local header of an entry, completed by its descriptor, go together exactly
/// where they tell the same method, name, lengths, checksum, flags and, as far as both tell them,
/// times, and where an entry that is stored as it is, and is not encrypted, has the same lengths for
/// its content and its data. What only the local header tells of the times of access and of creation
/// is kept, and everything else is what the central header tells.
pub proof fn lemma_together(central: MetadataView, local: MetadataView)
    ensures
        raw::merged(central, local) == (if central.compression_method == local.compression_method
            && central.name == local.name && central.compressed_size == local.compressed_size
            && central.uncompressed_size == local.uncompressed_size && central.crc32
            == local.crc32 && central.flags == local.flags && same_time(
            central.modification_time,
            local.modification_time,
        ) && same_time(central.access_time, local.access_time) && same_time(
            central.creation_time,
            local.creation_time,
        ) && (central.compression_method.0 == 0 && central.encryption is None
            ==> central.compressed_size == central.uncompressed_size) {
            Ok::<MetadataView, Error>(
                MetadataView {
                    access_time: match central.access_time {
                        Some(t) => Some(t),
                        None => local.access_time,
                    },
                    creation_time: match central.creation_time {
                        Some(t) => Some(t),
                        None => local.creation_time,
                    },
                    ..central
                },
            )
        } else {
            Err(Error::InvalidEntry)
        }),
{
    reveal(raw::merged);
}

/// An end of central directory holds, behind its signature, the number of this disk and of that with
/// the directory, which are 0, the number of entries here and in all, which are the same, and then
/// the length and the place of the directory. A number of entries or a place that does not fit is in
/// a ZIP64 record.
pub proof fn lemma_end_record(offset: u64, s: Seq<u8>)
    requires
        s.len() == 22,
    ensures
        raw::directory_of(offset, EndOfCentralDirectory::parse(s)) == (if le16(s, 4) != 0 || le16(
            s,
            6,
        ) != 0 {
            Err::<Option<CentralDirectory>, Error>(Error::MultiDisk)
        } else if le16(s, 8) != le16(s, 10) {
            Err(Error::InvalidZip)
        } else if le16(s, 10) == 0xffff || le32(s, 16) == 0xffff_ffff {
            Ok(None)
        } else {
            Ok(
                Some(
                    CentralDirectory {
                        offset: le32(s, 16) as u64,
                        size: le32(s, 12) as u64,
                        eocd_offset: offset,
                        entries: le16(s, 10) as u64,
                    },
                ),
            )
        }),
        EndOfCentralDirectory::parse(s).comment_length.value() == le16(s, 20),
{
    bytes::lemma_read_16(s, 4);
    bytes::lemma_read_16(s, 6);
    bytes::lemma_read_16(s, 8);
    bytes::lemma_read_16(s, 10);
    bytes::lemma_read_32(s, 12);
    bytes::lemma_read_32(s, 16);
    bytes::lemma_read_16(s, 20);
}

/// A locator holds `PK` with 6 and 7, the number of the disk with the ZIP64 record, which is 0, the
/// place of the record in eight bytes, which is not behind the locator, and the number of disks,
/// which is at most 1.
pub proof fn lemma_locator(offset: u64, s: Seq<u8>)
    requires
        s.len() == 20,
    ensures
        raw::record_offset(offset, EndOfCentralDirectory64Locator::parse(s)) == (if s.take(4) != seq![
            0x50u8,
            0x4bu8,
            0x06u8,
            0x07u8,
        ] || le64(s, 8) > offset {
            Err::<u64, Error>(Error::InvalidZip)
        } else if le32(s, 4) != 0 || le32(s, 16) > 1 {
            Err(Error::MultiDisk)
        } else {
            Ok(le64(s, 8) as u64)
        }),
{
    bytes::lemma_read_32(s, 0);
    bytes::lemma_read_32(s, 4);
    bytes::lemma_read_64(s, 8);
    bytes::lemma_read_32(s, 16);
    plain::lemma_signature_value(s, 0x06, 0x07);
}

/// A ZIP64 record holds its length, without its first twelve bytes, which leads to its locator, the
/// numbers of two disks, which are 0, the number of entries here and in all, which are the same, and
/// then the length and the place of the directory.
pub proof fn lemma_record_64(locator_offset: u64, offset: u64, s: Seq<u8>)
    requires
        s.len() == 56,
    ensures
        raw::directory64_of(locator_offset, offset, EndOfCentralDirectory64::parse(s)) == (if le32(
            s,
            16,
        ) != 0 || le32(s, 20) != 0 {
            Err::<CentralDirectory, Error>(Error::MultiDisk)
        } else if le64(s, 24) != le64(s, 32) || offset + 12 + le64(s, 4) != locator_offset {
            Err(Error::InvalidZip)
        } else {
            Ok(
                CentralDirectory {
                    offset: le64(s, 48) as u64,
                    size: le64(s, 40) as u64,
                    eocd_offset: offset,
                    entries: le64(s, 32) as u64,
                },
            )
        }),
{
    bytes::lemma_read_64(s, 4);
    bytes::lemma_read_32(s, 16);
    bytes::lemma_read_32(s, 20);
    bytes::lemma_read_64(s, 24);
    bytes::lemma_read_64(s, 32);
    bytes::lemma_read_64(s, 40);
    bytes::lemma_read_64(s, 48);
    let r = EndOfCentralDirectory64::parse(s);
    r.total_entries.lemma_of_value();
    r.entries_on_this_disk.lemma_of_value();
}

/// A central directory has to end where its end record is, and needs 47 bytes for each of its
/// entries: a header and a name.
pub proof fn lemma_directory_size(c: CentralDirectory)
    ensures
        c.valid_size() <==> c.offset + c.size == c.eocd_offset && c.size >= 47 * c.entries,
{
}

} // verus!
