//! What the headers of a written entry say when they are read.
use crate::compression::CompressionMethod;
use crate::error::Error;
use crate::read::extra_field;
use crate::read::extra_field::{ExtendedTimestamp, FieldView, NtfsTimes};
use crate::read::metadata;
use crate::read::metadata::MetadataView;
use crate::read::raw as reading;
use crate::types::{DataDescriptor64, LocalFileHeader, U16, U32, U64};
use crate::utils::{names, FileType, Timestamp};
use crate::write::layout::Stored;
use crate::write::raw as writing;
use crate::write::raw::Metadata;
use vstd::prelude::*;
use vstd::utf8::*;

verus! {

/// A field that is followed by others reads as itself and the others.
pub proof fn lemma_fields(id: u16, len: u16, payload: Seq<u8>, rest: Seq<u8>)
    requires
        payload.len() == len,
    ensures
        extra_field::fields(U16::of(id).bytes() + U16::of(len).bytes() + payload + rest) == seq![
            extra_field::field(id, payload),
        ] + extra_field::fields(rest),
{
    let s = U16::of(id).bytes() + U16::of(len).bytes() + payload + rest;
    U16::lemma_value_of(id);
    U16::lemma_value_of(len);
    assert(U16::at(s, 0) == U16::of(id));
    assert(U16::at(s, 2) == U16::of(len));
    assert(s.subrange(4, 4 + len) =~= payload);
    assert(s.skip(4 + len) =~= rest);
}

/// The modification time that a written entry has when it is read.
pub open spec fn time_read(time: Timestamp) -> Option<Timestamp> {
    if writing::has_time(time) {
        Some(time)
    } else {
        None
    }
}

/// The access and the creation time that a written entry has when it is read: a NTFS field cannot
/// leave them out.
pub open spec fn other_time_read(time: Timestamp) -> Option<Timestamp> {
    if writing::is_late(time) {
        Some(Timestamp(0))
    } else {
        None
    }
}

/// A NTFS field with a single attribute that gives times reads as these times.
proof fn lemma_ntfs_field(time: Timestamp)
    requires
        writing::is_late(time),
    ensures
        ({
            let payload = U32::of(0).bytes() + U16::of(1).bytes() + U16::of(24).bytes()
                + writing::ntfs_attribute(time);
            extra_field::field(0x000a, payload) == FieldView::Ntfs(
                Some(NtfsTimes { mtime: time, atime: Timestamp(0), ctime: Timestamp(0) }),
            )
        }),
{
    let attribute = writing::ntfs_attribute(time);
    let payload = U32::of(0).bytes() + U16::of(1).bytes() + U16::of(24).bytes() + attribute;
    let ticks = ((time.0 + crate::utils::NT_EPOCH) * 10_000_000) as u64;
    let s = payload.skip(4);
    U16::lemma_value_of(1);
    U16::lemma_value_of(24);
    U64::lemma_value_of(ticks);
    U64::lemma_value_of(0);
    assert(U16::at(s, 0) == U16::of(1));
    assert(U16::at(s, 2) == U16::of(24));
    assert(s.subrange(4, 28) =~= attribute);
    assert(s.skip(28) =~= Seq::<u8>::empty());
    assert(U64::at(attribute, 0) == U64::of(ticks));
    assert(U64::at(attribute, 8) == U64::of(0));
    assert(U64::at(attribute, 16) == U64::of(0));
    let times = NtfsTimes { mtime: time, atime: Timestamp(0), ctime: Timestamp(0) };
    assert(extra_field::ntfs_times(attribute) == times);
    assert(extra_field::ntfs_attributes(s.skip(28), Some(times)) == Some(Some(times)));
    assert(extra_field::ntfs_attributes(s, None) == Some(Some(times)));
}

/// The field that gives a modification time reads as this time.
pub proof fn lemma_time_field(time: Timestamp)
    ensures
        writing::time_field(time).len() == writing::time_field_len(time),
        extra_field::fields(writing::time_field(time)) == (if writing::is_late(time) {
            seq![
                FieldView::Ntfs(
                    Some(NtfsTimes { mtime: time, atime: Timestamp(0), ctime: Timestamp(0) }),
                ),
            ]
        } else if writing::has_time(time) {
            seq![
                FieldView::ExtendedTimestamp(
                    ExtendedTimestamp {
                        modification_time: Some(time),
                        access_time: None,
                        creation_time: None,
                    },
                ),
            ]
        } else {
            Seq::<FieldView>::empty()
        }),
{
    reveal(writing::time_field);
    assert(extra_field::fields(Seq::<u8>::empty()) =~= Seq::<FieldView>::empty());
    if writing::is_late(time) {
        let payload = U32::of(0).bytes() + U16::of(1).bytes() + U16::of(24).bytes()
            + writing::ntfs_attribute(time);
        lemma_ntfs_field(time);
        lemma_fields(0x000a, 32, payload, Seq::empty());
        assert(writing::time_field(time) =~= U16::of(0x000a).bytes() + U16::of(32).bytes() + payload
            + Seq::<u8>::empty());
        assert(extra_field::fields(writing::time_field(time)) =~= seq![
            extra_field::field(0x000a, payload),
        ]);
    } else if writing::has_time(time) {
        let payload = seq![1u8] + U32::of(time.0 as u32).bytes();
        lemma_fields(0x5455, 5, payload, Seq::empty());
        assert(writing::time_field(time) =~= U16::of(0x5455).bytes() + U16::of(5).bytes() + payload
            + Seq::<u8>::empty());
        U32::lemma_value_of(time.0 as u32);
        assert(U32::at(payload, 1) == U32::of(time.0 as u32));
        assert(payload[0] == 1);
        assert(extra_field::count_bits(1) == 1);
        assert(extra_field::fields(writing::time_field(time)) =~= seq![
            extra_field::field(0x5455, payload),
        ]);
    }
}

/// What a ZIP64 field and a modification time do to the metadata of a header.
proof fn lemma_with_fields(
    m: MetadataView,
    zip64: Seq<u8>,
    time: Timestamp,
    name_crc: Option<u32>,
    comment_crc: Option<u32>,
    windows: bool,
)
    requires
        metadata::with_zip64(m, zip64) is Some,
        m.compression_method.0 != CompressionMethod::AES,
        m.modification_time is None,
        m.access_time is None,
        m.creation_time is None,
    ensures
        ({
            let fields = seq![FieldView::Zip64ExtendedInformation(zip64)] + extra_field::fields(
                writing::time_field(time),
            );
            metadata::with_fields(m, fields, name_crc, comment_crc, windows) == Some(
                MetadataView {
                    modification_time: time_read(time),
                    access_time: other_time_read(time),
                    creation_time: other_time_read(time),
                    ..metadata::with_zip64(m, zip64)->0
                },
            )
        }),
{
    lemma_time_field(time);
    let times = extra_field::fields(writing::time_field(time));
    let fields = seq![FieldView::Zip64ExtendedInformation(zip64)] + times;
    assert(fields.drop_first() =~= times);
    let m1 = metadata::with_zip64(m, zip64)->0;
    assert(metadata::with_field(m, fields[0], name_crc, comment_crc, windows) == Some(m1));
    if writing::has_time(time) {
        assert(times.drop_first() =~= Seq::<FieldView>::empty());
        let m2 = metadata::with_field(m1, times[0], name_crc, comment_crc, windows)->0;
        assert(m2 =~= MetadataView {
            modification_time: Some(time),
            access_time: other_time_read(time),
            creation_time: other_time_read(time),
            ..m1
        });
        assert(metadata::with_fields(
            m2,
            times.drop_first(),
            name_crc,
            comment_crc,
            windows,
        ) == Some(m2));
        assert(metadata::with_fields(m1, times, name_crc, comment_crc, windows) == Some(m2));
    } else {
        assert(metadata::with_fields(m1, times, name_crc, comment_crc, windows) == Some(m1));
        assert(m1 =~= MetadataView {
            modification_time: None,
            access_time: None,
            creation_time: None,
            ..m1
        });
    }
}

/// The metadata that a written entry has in the central directory.
pub open spec fn central_view(e: Stored, offset: nat) -> MetadataView {
    MetadataView {
        header_offset: offset as u64,
        data_offset: 0,
        compressed_size: e.data.len() as u64,
        uncompressed_size: e.meta.uncompressed_size,
        compression_method: e.meta.compression_method,
        crc32: e.meta.crc32,
        file_type: e.meta.typ,
        modification_time: time_read(e.meta.modified_at),
        access_time: other_time_read(e.meta.modified_at),
        creation_time: other_time_read(e.meta.modified_at),
        encryption: None,
        name: e.name,
        comment: e.comment,
        is_streaming: e.streamed,
        is_zip64: true,
        flags: writing::flags_of(e.streamed),
    }
}

/// The metadata that a local header with these sizes and this checksum gives.
pub open spec fn local_view(e: Stored, meta: Metadata, compressed_size: u64) -> MetadataView {
    MetadataView {
        header_offset: 0,
        data_offset: 0,
        compressed_size,
        uncompressed_size: meta.uncompressed_size,
        crc32: meta.crc32,
        file_type: FileType::File,
        comment: Seq::empty(),
        ..central_view(e, 0)
    }
}

/// A written central header reads as the metadata of the entry.
proof fn lemma_central_metadata(e: Stored, offset: nat, extra: Seq<u8>, windows: bool)
    requires
        e.valid(windows),
        offset <= u64::MAX,
        extra_field::fields(extra) == seq![
            FieldView::Zip64ExtendedInformation(
                U64::of(e.meta.uncompressed_size).bytes() + U64::of(e.data.len() as u64).bytes()
                    + U64::of(offset as u64).bytes(),
            ),
        ] + extra_field::fields(writing::time_field(e.meta.modified_at)),
    ensures
        metadata::central_metadata(
            writing::central_header(e.name.len(), e.comment.len(), e.meta, e.streamed),
            e.name,
            extra,
            e.comment,
            windows,
        ) == Some(central_view(e, offset)),
{
    let header = writing::central_header(e.name.len(), e.comment.len(), e.meta, e.streamed);
    let size = e.data.len() as u64;
    let payload = U64::of(e.meta.uncompressed_size).bytes() + U64::of(size).bytes() + U64::of(
        offset as u64,
    ).bytes();
    U32::lemma_value_of(crate::types::CentralFileHeader::SIGNATURE);
    U16::lemma_value_of(0);
    U16::lemma_value_of(writing::flags_of(e.streamed));
    U16::lemma_value_of(e.meta.compression_method.0);
    U32::lemma_value_of(e.meta.crc32);
    U32::lemma_value_of(0xffff_ffff);
    U32::lemma_value_of(writing::attributes_of(e.meta.typ));
    U64::lemma_value_of(e.meta.uncompressed_size);
    U64::lemma_value_of(size);
    U64::lemma_value_of(offset as u64);
    assert(U64::at(payload, 0) == U64::of(e.meta.uncompressed_size));
    assert(U64::at(payload, 8) == U64::of(size));
    assert(U64::at(payload, 16) == U64::of(offset as u64));
    let base = metadata::central_base(header, e.name, e.comment, e.meta.typ);
    reveal(metadata::central_metadata);
    lemma_with_fields(base, payload, e.meta.modified_at, None, None, windows);
    assert(FileType::of(writing::attributes_of(e.meta.typ), names::ends_with_slash(e.name)) == Some(
        e.meta.typ,
    ));
    assert(MetadataView {
        modification_time: time_read(e.meta.modified_at),
        access_time: other_time_read(e.meta.modified_at),
        creation_time: other_time_read(e.meta.modified_at),
        ..metadata::with_zip64(base, payload)->0
    } =~= central_view(e, offset));
}

/// The variable fields of a written central header read as the metadata of the entry.
pub proof fn lemma_central_entry(e: Stored, offset: nat, windows: bool)
    requires
        e.valid(windows),
        offset <= u64::MAX,
    ensures
        ({
            let header = writing::central_header(
                e.name.len(),
                e.comment.len(),
                e.meta,
                e.streamed,
            );
            let variable = e.name + writing::central_zip64(
                e.meta.uncompressed_size,
                e.data.len() as u64,
                offset as u64,
            ) + writing::time_field(e.meta.modified_at) + e.comment;
            &&& e.central(offset) == header.bytes() + variable
            &&& variable.len() == reading::central_variable_len(header)
            &&& reading::central_entry(header, variable, windows) == Some(central_view(e, offset))
        }),
{
    let header = writing::central_header(e.name.len(), e.comment.len(), e.meta, e.streamed);
    let size = e.data.len() as u64;
    let payload = U64::of(e.meta.uncompressed_size).bytes() + U64::of(size).bytes() + U64::of(
        offset as u64,
    ).bytes();
    let times = writing::time_field(e.meta.modified_at);
    let zip64 = writing::central_zip64(e.meta.uncompressed_size, size, offset as u64);
    let extra = zip64 + times;
    let variable = e.name + zip64 + times + e.comment;
    assert(e.central(offset) =~= header.bytes() + variable) by {
        reveal(writing::central_record);
    }
    lemma_time_field(e.meta.modified_at);
    assert(payload.len() == 24);
    assert(zip64 =~= U16::of(1).bytes() + U16::of(24).bytes() + payload);
    lemma_fields(1, 24, payload, times);
    assert(extra =~= U16::of(1).bytes() + U16::of(24).bytes() + payload + times);
    let n = e.name.len() as int;
    let x = extra.len() as int;
    U16::lemma_value_of(n as u16);
    U16::lemma_value_of((28 + writing::time_field_len(e.meta.modified_at)) as u16);
    U16::lemma_value_of(e.comment.len() as u16);
    assert(variable.subrange(0, n) =~= e.name);
    assert(variable.subrange(n, n + x) =~= extra);
    assert(variable.skip(n + x) =~= e.comment);
    lemma_central_metadata(e, offset, extra, windows);
    reveal(reading::central_entry);
}

/// A written local header reads as the metadata of the entry.
proof fn lemma_local_metadata(
    e: Stored,
    meta: Metadata,
    size: u64,
    extra: Seq<u8>,
    windows: bool,
)
    requires
        e.valid(windows),
        meta.compression_method == e.meta.compression_method,
        meta.modified_at == e.meta.modified_at,
        extra_field::fields(extra) == seq![
            FieldView::Zip64ExtendedInformation(
                U64::of(meta.uncompressed_size).bytes() + U64::of(size).bytes(),
            ),
        ] + extra_field::fields(writing::time_field(meta.modified_at)),
    ensures
        metadata::local_metadata(
            writing::local_header(e.name.len(), meta, e.streamed),
            e.name,
            extra,
            windows,
        ) == Some(local_view(e, meta, size)),
{
    let header = writing::local_header(e.name.len(), meta, e.streamed);
    let payload = U64::of(meta.uncompressed_size).bytes() + U64::of(size).bytes();
    U32::lemma_value_of(LocalFileHeader::SIGNATURE);
    U16::lemma_value_of(writing::flags_of(e.streamed));
    U16::lemma_value_of(meta.compression_method.0);
    U32::lemma_value_of(meta.crc32);
    U32::lemma_value_of(0xffff_ffff);
    U64::lemma_value_of(meta.uncompressed_size);
    U64::lemma_value_of(size);
    assert(U64::at(payload, 0) == U64::of(meta.uncompressed_size));
    assert(U64::at(payload, 8) == U64::of(size));
    let base = metadata::local_base(header, e.name);
    reveal(metadata::local_metadata);
    lemma_with_fields(base, payload, meta.modified_at, None, None, windows);
    assert(MetadataView {
        modification_time: time_read(meta.modified_at),
        access_time: other_time_read(meta.modified_at),
        creation_time: other_time_read(meta.modified_at),
        ..metadata::with_zip64(base, payload)->0
    } =~= local_view(e, meta, size));
}

/// The variable fields of a written local header read as the metadata of the entry.
pub proof fn lemma_local_entry(e: Stored, meta: Metadata, size: u64, windows: bool)
    requires
        e.valid(windows),
        meta.compression_method == e.meta.compression_method,
        meta.modified_at == e.meta.modified_at,
    ensures
        ({
            let header = writing::local_header(e.name.len(), meta, e.streamed);
            let variable = e.name + writing::local_zip64(meta.uncompressed_size, size)
                + writing::time_field(meta.modified_at);
            &&& writing::local_record(e.name, meta, size, e.streamed) == header.bytes() + variable
            &&& variable.len() == reading::local_variable_len(header)
            &&& reading::local_entry(header, variable, windows) == Some(local_view(e, meta, size))
        }),
{
    let header = writing::local_header(e.name.len(), meta, e.streamed);
    let payload = U64::of(meta.uncompressed_size).bytes() + U64::of(size).bytes();
    let times = writing::time_field(meta.modified_at);
    let zip64 = writing::local_zip64(meta.uncompressed_size, size);
    let extra = zip64 + times;
    let variable = e.name + zip64 + times;
    assert(writing::local_record(e.name, meta, size, e.streamed) =~= header.bytes() + variable) by {
        reveal(writing::local_record);
    }
    lemma_time_field(meta.modified_at);
    assert(payload.len() == 16);
    assert(zip64 =~= U16::of(1).bytes() + U16::of(16).bytes() + payload);
    lemma_fields(1, 16, payload, times);
    assert(extra =~= U16::of(1).bytes() + U16::of(16).bytes() + payload + times);
    let n = e.name.len() as int;
    U16::lemma_value_of(n as u16);
    U16::lemma_value_of((20 + writing::time_field_len(meta.modified_at)) as u16);
    assert(variable.subrange(0, n) =~= e.name);
    assert(variable.skip(n) =~= extra);
    lemma_local_metadata(e, meta, size, extra, windows);
    reveal(reading::local_entry);
}

/// The descriptor behind the data of a streamed entry gives the sizes and the checksum back.
pub proof fn lemma_described(e: Stored)
    requires
        e.streamed,
    ensures
        ({
            let started = local_view(e, Metadata { uncompressed_size: 0, crc32: 0, ..e.meta }, 0);
            &&& e.foot().len() == reading::descriptor_len(started)
            &&& reading::described(started, e.foot()) == Ok::<MetadataView, Error>(
                local_view(e, e.meta, e.data.len() as u64),
            )
        }),
{
    let started = local_view(e, Metadata { uncompressed_size: 0, crc32: 0, ..e.meta }, 0);
    let size = e.data.len() as u64;
    let record = DataDescriptor64 {
        signature: U32::of(DataDescriptor64::SIGNATURE),
        crc32: U32::of(e.meta.crc32),
        compressed_size: U64::of(size),
        uncompressed_size: U64::of(e.meta.uncompressed_size),
    };
    record.lemma_parse_bytes(Seq::empty());
    assert(record.bytes() + Seq::<u8>::empty() =~= e.foot());
    U32::lemma_value_of(DataDescriptor64::SIGNATURE);
    U32::lemma_value_of(e.meta.crc32);
    U64::lemma_value_of(size);
    U64::lemma_value_of(e.meta.uncompressed_size);
    reveal(reading::described);
    assert(reading::described(started, e.foot())->Ok_0 =~= local_view(e, e.meta, size));
}

/// The two headers of a written entry are consistent.
pub proof fn lemma_merged(e: Stored, offset: nat, data_offset: u64, windows: bool)
    requires
        e.valid(windows),
    ensures
        ({
            let entry = MetadataView { data_offset, ..central_view(e, offset) };
            reading::merged(entry, local_view(e, e.meta, e.data.len() as u64)) == Ok::<
                MetadataView,
                Error,
            >(entry)
        }),
{
    reveal(reading::merged);
    let entry = MetadataView { data_offset, ..central_view(e, offset) };
    let local = local_view(e, e.meta, e.data.len() as u64);
    assert(reading::consistent(entry, local));
    assert(reading::merged(entry, local)->Ok_0 =~= entry);
}

} // verus!
