//! The bytes of the records that are written.
use crate::laws::bytes;
use crate::laws::bytes::le_bytes;
use crate::types::{
    CentralFileHeader, DataDescriptor64, EndOfCentralDirectory, EndOfCentralDirectory64,
    EndOfCentralDirectory64Locator, LocalFileHeader,
};
use crate::utils::{FileType, Timestamp};
use crate::write::raw;
use crate::write::raw::Metadata;
use vstd::prelude::*;

verus! {

/// The number of seconds from the start of the year 1601 to that of the year 1970.
pub const SECONDS_FROM_1601: u64 = 134774 * 86400;

/// The extra field for a modification time, in seconds from the start of the year 1970. There is
/// none for the start itself, nor for a time that does not fit in 64 bits when it is counted in
/// tenths of microseconds from the start of the year 1601.
pub open spec fn time_bytes(t: int) -> Seq<u8> {
    let ticks = (t + SECONDS_FROM_1601) * 10_000_000;
    if t == 0 || ticks > 0xffff_ffff_ffff_ffff {
        Seq::empty()
    } else if t <= 0xffff_ffff {
        seq![0x55u8, 0x54u8] + le_bytes(5, 2) + seq![1u8] + le_bytes(t, 4)
    } else {
        seq![0x0au8, 0x00u8] + le_bytes(32, 2) + le_bytes(0, 4) + le_bytes(1, 2) + le_bytes(24, 2)
            + le_bytes(ticks, 8) + le_bytes(0, 8) + le_bytes(0, 8)
    }
}

/// The extra field for a modification time is the one for times in seconds where it fits there, and
/// the one for NTFS times where it does not.
pub proof fn lemma_time_bytes(time: Timestamp)
    ensures
        raw::time_field(time) == time_bytes(time.0 as int),
        raw::time_field_len(time) == time_bytes(time.0 as int).len(),
{
    reveal(raw::time_field);
    let t = time.0 as int;
    bytes::lemma_written_16(0x5455);
    bytes::lemma_written_16(0x000a);
    bytes::lemma_written_16(5);
    bytes::lemma_written_16(32);
    bytes::lemma_written_16(1);
    bytes::lemma_written_16(24);
    bytes::lemma_written_32(0);
    bytes::lemma_written_64(0);
    reveal_with_fuel(le_bytes, 3);
    assert(le_bytes(0x5455, 2) =~= seq![0x55u8, 0x54u8]);
    assert(le_bytes(0x000a, 2) =~= seq![0x0au8, 0x00u8]);
    bytes::lemma_le_len(5, 2);
    bytes::lemma_le_len(32, 2);
    bytes::lemma_le_len(1, 2);
    bytes::lemma_le_len(24, 2);
    bytes::lemma_le_len(0, 4);
    bytes::lemma_le_len(0, 8);
    let ticks = (t + SECONDS_FROM_1601) * 10_000_000;
    bytes::lemma_le_len(t, 4);
    bytes::lemma_le_len(ticks, 8);
    if raw::is_late(time) {
        bytes::lemma_written_64(ticks as u64);
    } else if raw::has_time(time) {
        bytes::lemma_written_32(time.0 as u32);
    }
    assert(raw::time_field(time) =~= time_bytes(t));
}

/// The general purpose flags: the texts are UTF-8, and a descriptor follows the data or not.
pub open spec fn flag_bytes(streamed: bool) -> Seq<u8> {
    if streamed {
        seq![0x08u8, 0x08u8]
    } else {
        seq![0x00u8, 0x08u8]
    }
}

/// The flags are written bit 11 in the second byte and bit 3 in the first.
proof fn lemma_flag_bytes(streamed: bool)
    ensures
        le_bytes(raw::flags_of(streamed) as int, 2) == flag_bytes(streamed),
{
    reveal_with_fuel(le_bytes, 3);
    assert(le_bytes(raw::flags_of(streamed) as int, 2) =~= flag_bytes(streamed));
}

/// What is written before the data of an entry: a local header, the name, an extra field with the
/// length of the content and then that of the data, and one with the modification time.
pub proof fn lemma_local_bytes(name: Seq<u8>, meta: Metadata, size: u64, streamed: bool)
    requires
        name.len() <= 0xffff,
    ensures
        raw::local_record(name, meta, size, streamed) == le_bytes(0x04034b50, 4) + le_bytes(45, 2)
            + flag_bytes(streamed) + le_bytes(meta.compression_method.0 as int, 2) + le_bytes(0, 2)
            + le_bytes(0, 2) + le_bytes(meta.crc32 as int, 4) + le_bytes(0xffff_ffff, 4) + le_bytes(
            0xffff_ffff,
            4,
        ) + le_bytes(name.len() as int, 2) + le_bytes(
            20 + time_bytes(meta.modified_at.0 as int).len() as int,
            2,
        ) + name + (le_bytes(1, 2) + le_bytes(16, 2) + le_bytes(meta.uncompressed_size as int, 8)
            + le_bytes(size as int, 8)) + time_bytes(meta.modified_at.0 as int),
{
    reveal(raw::local_record);
    reveal(LocalFileHeader::bytes);
    lemma_time_bytes(meta.modified_at);
    lemma_flag_bytes(streamed);
    bytes::lemma_written_32(0x04034b50);
    bytes::lemma_written_16(45);
    bytes::lemma_written_16(raw::flags_of(streamed));
    bytes::lemma_written_16(meta.compression_method.0);
    bytes::lemma_written_16(0);
    bytes::lemma_written_32(meta.crc32);
    bytes::lemma_written_32(0xffff_ffff);
    bytes::lemma_written_16(name.len() as u16);
    bytes::lemma_written_16((20 + raw::time_field_len(meta.modified_at)) as u16);
    bytes::lemma_written_16(1);
    bytes::lemma_written_16(16);
    bytes::lemma_written_64(meta.uncompressed_size);
    bytes::lemma_written_64(size);
}

/// The attributes of an entry of this type: those of MS-DOS in the first byte, the type of a UNIX
/// file in the last.
pub open spec fn attribute_bytes(typ: FileType) -> Seq<u8> {
    match typ {
        FileType::File => seq![0x20u8, 0u8, 0u8, 0x80u8],
        FileType::Directory => seq![0x10u8, 0u8, 0u8, 0x40u8],
        FileType::Symlink => seq![0u8, 0u8, 0xffu8, 0xa1u8],
    }
}

/// The attributes are written as those of an entry of this type.
proof fn lemma_attribute_bytes(typ: FileType)
    ensures
        le_bytes(raw::attributes_of(typ) as int, 4) == attribute_bytes(typ),
{
    reveal_with_fuel(le_bytes, 5);
    assert(le_bytes(raw::attributes_of(typ) as int, 4) =~= attribute_bytes(typ));
}

/// What is written for an entry in the central directory: a central header, the name, an extra
/// field with the length of the content, that of the data and the place of the local header, one
/// with the modification time, and the comment.
pub proof fn lemma_central_bytes(
    name: Seq<u8>,
    meta: Metadata,
    size: u64,
    streamed: bool,
    offset: u64,
    comment: Seq<u8>,
)
    requires
        name.len() <= 0xffff,
        comment.len() <= 0xffff,
    ensures
        raw::central_record(name, meta, size, streamed, offset, comment) == le_bytes(0x02014b50, 4)
            + seq![0u8, 3u8] + le_bytes(45, 2) + flag_bytes(streamed) + le_bytes(
            meta.compression_method.0 as int,
            2,
        ) + le_bytes(0, 2) + le_bytes(0, 2) + le_bytes(meta.crc32 as int, 4) + le_bytes(
            0xffff_ffff,
            4,
        ) + le_bytes(0xffff_ffff, 4) + le_bytes(name.len() as int, 2) + le_bytes(
            28 + time_bytes(meta.modified_at.0 as int).len() as int,
            2,
        ) + le_bytes(comment.len() as int, 2) + le_bytes(0, 2) + le_bytes(1, 2) + attribute_bytes(
            meta.typ,
        ) + le_bytes(0xffff_ffff, 4) + name + (le_bytes(1, 2) + le_bytes(24, 2) + le_bytes(
            meta.uncompressed_size as int,
            8,
        ) + le_bytes(size as int, 8) + le_bytes(offset as int, 8)) + time_bytes(
            meta.modified_at.0 as int,
        ) + comment,
{
    reveal(raw::central_record);
    reveal(CentralFileHeader::bytes);
    lemma_time_bytes(meta.modified_at);
    lemma_flag_bytes(streamed);
    lemma_attribute_bytes(meta.typ);
    reveal_with_fuel(le_bytes, 3);
    assert(le_bytes(0x0300, 2) =~= seq![0u8, 3u8]);
    bytes::lemma_written_32(0x02014b50);
    bytes::lemma_written_16(0x0300);
    bytes::lemma_written_16(45);
    bytes::lemma_written_16(raw::flags_of(streamed));
    bytes::lemma_written_16(meta.compression_method.0);
    bytes::lemma_written_16(0);
    bytes::lemma_written_32(meta.crc32);
    bytes::lemma_written_32(0xffff_ffff);
    bytes::lemma_written_16(name.len() as u16);
    bytes::lemma_written_16((28 + raw::time_field_len(meta.modified_at)) as u16);
    bytes::lemma_written_16(comment.len() as u16);
    bytes::lemma_written_16(1);
    bytes::lemma_written_32(raw::attributes_of(meta.typ));
    bytes::lemma_written_16(24);
    bytes::lemma_written_64(meta.uncompressed_size);
    bytes::lemma_written_64(size);
    bytes::lemma_written_64(offset);
}

/// What is written behind the data of a streamed entry: the letters `PK` with 7 and 8, the
/// checksum, the length of the data and then the length of the content.
pub proof fn lemma_descriptor_bytes(content: u64, data: u64, crc: u32)
    ensures
        raw::descriptor(content, data, crc) == seq![0x50u8, 0x4bu8, 0x07u8, 0x08u8] + le_bytes(
            crc as int,
            4,
        ) + le_bytes(data as int, 8) + le_bytes(content as int, 8),
{
    reveal(DataDescriptor64::bytes);
    reveal_with_fuel(le_bytes, 5);
    assert(le_bytes(0x08074b50, 4) =~= seq![0x50u8, 0x4bu8, 0x07u8, 0x08u8]);
    bytes::lemma_written_32(0x08074b50);
    bytes::lemma_written_32(crc);
    bytes::lemma_written_64(data);
    bytes::lemma_written_64(content);
}

/// What is written behind the central directory: a ZIP64 record with the number of entries, the
/// length and the place of the directory, a locator with the place of this record, and an end of
/// central directory that leaves everything to the record.
pub proof fn lemma_end_bytes(entries: u64, offset: u64, size: u64)
    requires
        offset + size <= u64::MAX,
    ensures
        raw::end_records(entries, offset, size) == (le_bytes(0x06064b50, 4) + le_bytes(44, 8)
            + seq![0u8, 3u8] + le_bytes(45, 2) + le_bytes(0, 4) + le_bytes(0, 4) + le_bytes(
            entries as int,
            8,
        ) + le_bytes(entries as int, 8) + le_bytes(size as int, 8) + le_bytes(offset as int, 8)) + (
        le_bytes(0x07064b50, 4) + le_bytes(0, 4) + le_bytes(offset + size, 8) + le_bytes(1, 4)) + (
        le_bytes(0x06054b50, 4) + le_bytes(0, 2) + le_bytes(0, 2) + le_bytes(0xffff, 2) + le_bytes(
            0xffff,
            2,
        ) + le_bytes(0xffff_ffff, 4) + le_bytes(0xffff_ffff, 4) + le_bytes(0, 2)),
{
    reveal(raw::end_records);
    reveal(EndOfCentralDirectory64::bytes);
    reveal(EndOfCentralDirectory64Locator::bytes);
    reveal(EndOfCentralDirectory::bytes);
    reveal_with_fuel(le_bytes, 3);
    assert(le_bytes(0x0300, 2) =~= seq![0u8, 3u8]);
    bytes::lemma_written_32(0x06064b50);
    bytes::lemma_written_64(44);
    bytes::lemma_written_16(0x0300);
    bytes::lemma_written_16(45);
    bytes::lemma_written_32(0);
    bytes::lemma_written_64(entries);
    bytes::lemma_written_64(size);
    bytes::lemma_written_64(offset);
    bytes::lemma_written_32(0x07064b50);
    bytes::lemma_written_64((offset + size) as u64);
    bytes::lemma_written_32(1);
    bytes::lemma_written_32(0x06054b50);
    bytes::lemma_written_16(0);
    bytes::lemma_written_16(0xffff);
    bytes::lemma_written_32(0xffff_ffff);
}

} // verus!
