//! What can be relied on once an archive is opened.
use crate::compression::CompressionMethod;
use crate::error::Error;
use crate::laws::bytes;
use crate::laws::bytes::{le16, le32, le64};
use crate::laws::names as name_laws;
use crate::laws::plain;
use crate::laws::records;
use crate::read::archive as opened;
use crate::read::extra_field;
use crate::read::metadata;
use crate::read::metadata::MetadataView;
use crate::read::raw;
use crate::read::raw::{ArchiveView, CentralDirectory, EocdView};
use crate::read::scanner;
use crate::types::{
    CentralFileHeader, EndOfCentralDirectory, EndOfCentralDirectory64,
    EndOfCentralDirectory64Locator, LocalFileHeader,
};
use crate::utils::crc32;
use crate::utils::names;
use vstd::prelude::*;

verus! {

/// Whether a name is allowed and in canonical form.
pub open spec fn canonical(name: Seq<u8>, windows: bool) -> bool {
    names::valid_name(name, windows) == Some(name)
}

/// Whether an entry keeps the rules for its content: a directory is empty, and what is stored as it
/// is has the size of its data.
pub open spec fn sized(m: MetadataView) -> bool {
    &&& m.file_type is Directory ==> m.uncompressed_size == 0
    &&& m.compression_method.0 == CompressionMethod::STORE && m.encryption is None
        ==> m.compressed_size == m.uncompressed_size
}

/// Whether the local record of an entry lies between two positions: a local header, the data of the
/// entry and, where there is one, a descriptor. What the header and the descriptor say is the same
/// as the entry's metadata.
pub open spec fn record_at(
    d: Seq<u8>,
    windows: bool,
    m: MetadataView,
    pos: int,
    next: int,
) -> bool {
    let end = pos + LocalFileHeader::SIZE;
    let header = LocalFileHeader::parse(d.subrange(pos, end));
    let behind = m.data_offset + m.compressed_size;
    &&& 0 <= pos
    &&& end <= m.data_offset <= d.len()
    &&& m.data_offset == end + raw::local_variable_len(header)
    &&& raw::local_entry(header, d.subrange(end, m.data_offset as int), windows) matches Some(local)
    &&& local.name == m.name
    &&& local.flags == m.flags
    &&& local.compression_method == m.compression_method
    &&& if local.is_streaming {
        &&& next == behind + raw::descriptor_len(local)
        &&& raw::described(local, d.subrange(behind, next)) matches Ok(described)
        &&& described.compressed_size == m.compressed_size
        &&& described.uncompressed_size == m.uncompressed_size
        &&& described.crc32 == m.crc32
    } else {
        &&& next == behind
        &&& local.compressed_size == m.compressed_size
        &&& local.uncompressed_size == m.uncompressed_size
        &&& local.crc32 == m.crc32
    }
}

/// Whether an entry is told to be encrypted by bit 0 of its flags, and to have a descriptor by bit 3,
/// whatever the other bits are.
pub open spec fn flagged(m: MetadataView) -> bool {
    &&& m.encryption is Some <==> plain::bit_set(m.flags, 0)
    &&& m.is_streaming <==> plain::bit_set(m.flags, 3)
}

/// The name of a header stays canonical whatever its extra fields are, and so does what its flags
/// tell.
proof fn lemma_with_fields_name(
    m: MetadataView,
    fields: Seq<extra_field::FieldView>,
    name_crc: Option<u32>,
    comment_crc: Option<u32>,
    windows: bool,
)
    requires
        canonical(m.name, windows),
        flagged(m),
        metadata::with_fields(m, fields, name_crc, comment_crc, windows) is Some,
    ensures
        canonical(
            metadata::with_fields(m, fields, name_crc, comment_crc, windows)->0.name,
            windows,
        ),
        flagged(metadata::with_fields(m, fields, name_crc, comment_crc, windows)->0),
    decreases fields.len(),
{
    if fields.len() > 0 {
        let m2 = metadata::with_field(m, fields[0], name_crc, comment_crc, windows)->0;
        match fields[0] {
            extra_field::FieldView::UnicodeName { header_name_crc32, name } => {
                name_laws::lemma_valid_name_idempotent(name, windows);
            },
            _ => {},
        }
        lemma_with_fields_name(m2, fields.drop_first(), name_crc, comment_crc, windows);
    }
}

/// A central header that is read gives a canonical name, and what its flags tell.
proof fn lemma_central_at_name(d: Seq<u8>, windows: bool, pos: int)
    requires
        scanner::central_at(d, windows, pos) is Ok,
    ensures
        canonical(scanner::central_at(d, windows, pos)->Ok_0.0.name, windows),
        flagged(scanner::central_at(d, windows, pos)->Ok_0.0),
{
    let end = pos + CentralFileHeader::SIZE;
    let header = CentralFileHeader::parse(d.subrange(pos, end));
    let variable = d.subrange(end, end + raw::central_variable_len(header));
    let n = header.file_name_length.value() as int;
    let e = header.extra_fields_length.value() as int;
    reveal(raw::central_entry);
    reveal(metadata::central_metadata);
    let unicode = metadata::flag(header.flags.value(), 2048);
    let (comment, comment_crc) = metadata::text_of(variable.skip(n + e), unicode)->0;
    let (text, name_crc) = metadata::text_of(variable.subrange(0, n), unicode)->0;
    name_laws::lemma_valid_name_idempotent(text, windows);
    plain::lemma_flags(header.flags.value());
    let name = names::valid_name(text, windows)->0;
    let file_type = crate::utils::FileType::of(
        header.external_attributes.value(),
        names::ends_with_slash(name),
    )->0;
    lemma_with_fields_name(
        metadata::central_base(header, name, comment, file_type),
        extra_field::fields(variable.subrange(n, n + e)),
        name_crc,
        comment_crc,
        windows,
    );
}

/// What completing an entry by its local header says of it.
proof fn lemma_local_at(d: Seq<u8>, windows: bool, pos: int, entry: MetadataView)
    requires
        d.len() <= u64::MAX,
        0 <= pos,
        scanner::local_at(d, windows, pos, entry) is Ok,
    ensures
        ({
            let (m, next) = scanner::local_at(d, windows, pos, entry)->Ok_0;
            &&& m.name == entry.name
            &&& sized(m)
            &&& m.header_offset == entry.header_offset
            &&& flagged(entry) ==> flagged(m)
            &&& pos < m.data_offset
            &&& m.data_offset + m.compressed_size <= next
            &&& record_at(d, windows, m, pos, next)
        }),
{
    let end = pos + LocalFileHeader::SIZE;
    let header = LocalFileHeader::parse(d.subrange(pos, end));
    let data_pos = end + raw::local_variable_len(header);
    let local = raw::local_entry(header, d.subrange(end, data_pos), windows)->0;
    let placed = MetadataView { data_offset: data_pos as u64, ..entry };
    assert(scanner::local_at(d, windows, pos, entry) == scanner::data_at(
        d,
        data_pos,
        local,
        entry,
    ));
    reveal(raw::merged);
    reveal(raw::described);
    if local.is_streaming {
        let at = data_pos + entry.compressed_size;
        let described = raw::described(
            local,
            d.subrange(at, at + raw::descriptor_len(local)),
        )->Ok_0;
        assert(scanner::data_at(d, data_pos, local, entry) == scanner::completed(
            placed,
            described,
            at + raw::descriptor_len(local),
        ));
    }
}

/// Whether the data of the entries from an index on lies between two positions, each strictly
/// before the next.
pub open spec fn in_order(es: Seq<MetadataView>, index: int, from: int, to: int) -> bool {
    &&& from <= to
    &&& forall|k: int|
        index <= k < es.len() ==> {
            &&& from < (#[trigger] es[k]).data_offset
            &&& es[k].data_offset + es[k].compressed_size <= to
        }
    &&& forall|j: int, k: int|
        index <= j < k < es.len() ==> (#[trigger] es[j]).data_offset + es[j].compressed_size < (
        #[trigger] es[k]).data_offset
}

/// Whether the local records of the entries from an index on start at these positions and lie one
/// after the other without gaps. The last position is the end of the last record.
pub open spec fn contiguous(
    d: Seq<u8>,
    windows: bool,
    es: Seq<MetadataView>,
    index: int,
    starts: Seq<int>,
) -> bool {
    &&& starts.len() == es.len() - index + 1
    &&& forall|k: int|
        index <= k < es.len() ==> record_at(
            d,
            windows,
            #[trigger] es[k],
            starts[k - index],
            starts[k - index + 1],
        )
}

/// What holds of the entries once their local headers are read.
proof fn lemma_from_local(
    d: Seq<u8>,
    windows: bool,
    pos: int,
    entries: Seq<MetadataView>,
    index: nat,
    offset: u64,
    comment: Seq<u8>,
) -> (starts: Seq<int>)
    requires
        d.len() <= u64::MAX,
        0 <= pos,
        index <= entries.len(),
        scanner::from_local(d, windows, pos, entries, index, offset, comment) is Ok,
    ensures
        ({
            let a = scanner::from_local(
                d,
                windows,
                pos,
                entries,
                index,
                offset,
                comment,
            )->Ok_0;
            let es = a.entries;
            &&& a.comment == comment
            &&& es.len() == entries.len()
            &&& forall|k: int| 0 <= k < index ==> #[trigger] es[k] == entries[k]
            &&& forall|k: int| 0 <= k < es.len() ==> (#[trigger] es[k]).name == entries[k].name
            &&& forall|k: int| index <= k < es.len() ==> sized(#[trigger] es[k])
            &&& forall|k: int|
                0 <= k < es.len() && flagged(entries[k]) ==> flagged(#[trigger] es[k])
            &&& forall|k: int|
                0 <= k < es.len() ==> (#[trigger] es[k]).header_offset == entries[k].header_offset
            &&& in_order(es, index as int, pos, offset as int)
            &&& contiguous(d, windows, es, index as int, starts)
            &&& starts[0] == pos
            &&& starts.last() == offset
            &&& opened::stripped_names(es).no_duplicates()
        }),
    decreases entries.len() - index,
{
    if index < entries.len() {
        lemma_local_at(d, windows, pos, entries[index as int]);
        let (m, next) = scanner::local_at(d, windows, pos, entries[index as int])->Ok_0;
        let updated = entries.update(index as int, m);
        let rest = lemma_from_local(d, windows, next, updated, index + 1, offset, comment);
        let starts = seq![pos] + rest;
        let es = scanner::from_local(
            d,
            windows,
            next,
            updated,
            index + 1,
            offset,
            comment,
        )->Ok_0.entries;
        assert(es[index as int] == m);
        assert forall|k: int| 0 <= k < es.len() implies (#[trigger] es[k]).name == entries[k].name
            && es[k].header_offset == entries[k].header_offset by {
            assert(es[k].name == updated[k].name);
            assert(es[k].header_offset == updated[k].header_offset);
        }
        assert forall|k: int| 0 <= k < index implies #[trigger] es[k] == entries[k] by {
            assert(es[k] == updated[k]);
        }
        assert forall|k: int| 0 <= k < es.len() && flagged(entries[k]) implies flagged(
            #[trigger] es[k],
        ) by {
            assert(flagged(updated[k]));
        }
        assert forall|k: int| index <= k < es.len() implies record_at(
            d,
            windows,
            #[trigger] es[k],
            starts[k - index],
            starts[k - index + 1],
        ) by {
            assert(rest[0] == next);
            if k > index {
                assert(starts[k - index] == rest[k - (index + 1)]);
                assert(starts[k - index + 1] == rest[k - (index + 1) + 1]);
            }
        }
        starts
    } else {
        seq![pos]
    }
}

/// What holds of the entries once all their headers are read.
proof fn lemma_from_central(
    d: Seq<u8>,
    windows: bool,
    pos: int,
    left: nat,
    entries: Seq<MetadataView>,
    offset: u64,
    comment: Seq<u8>,
)
    requires
        d.len() <= u64::MAX,
        left + entries.len() > 0,
        forall|k: int| 0 <= k < entries.len() ==> canonical((#[trigger] entries[k]).name, windows),
        forall|k: int| 0 <= k < entries.len() ==> flagged(#[trigger] entries[k]),
        scanner::from_central(d, windows, pos, left, entries, offset, comment) is Ok,
    ensures
        ({
            let a = scanner::from_central(
                d,
                windows,
                pos,
                left,
                entries,
                offset,
                comment,
            )->Ok_0;
            &&& a.entries.len() == left + entries.len()
            &&& a.comment == comment
            &&& well_formed(d, a.entries, windows, offset as int)
        }),
    decreases left,
{
    if left == 0 {
        let starts = lemma_from_local(
            d,
            windows,
            entries[0].header_offset as int,
            entries,
            0,
            offset,
            comment,
        );
    } else {
        lemma_central_at_name(d, windows, pos);
        let (m, next) = scanner::central_at(d, windows, pos)->Ok_0;
        lemma_from_central(
            d,
            windows,
            next,
            (left - 1) as nat,
            entries.push(m),
            offset,
            comment,
        );
    }
}

/// What holds of the entries of an archive whose central directory starts at this position. Their
/// local records fill the bytes from the header of the first one up to there.
pub open spec fn well_formed(
    d: Seq<u8>,
    es: Seq<MetadataView>,
    windows: bool,
    directory: int,
) -> bool {
    &&& forall|k: int| 0 <= k < es.len() ==> canonical((#[trigger] es[k]).name, windows)
    &&& forall|k: int| 0 <= k < es.len() ==> sized(#[trigger] es[k])
    &&& forall|k: int| 0 <= k < es.len() ==> flagged(#[trigger] es[k])
    &&& in_order(es, 0, 0, directory)
    &&& es.len() > 0 ==> exists|starts: Seq<int>| #[trigger]
        contiguous(d, windows, es, 0, starts) && starts[0] == es[0].header_offset && starts.last()
            == directory
    &&& opened::stripped_names(es).no_duplicates()
}

/// Whether the central directory of an archive starts at this position: where there are entries, the
/// archive is what is read from there.
pub open spec fn directory_at(d: Seq<u8>, windows: bool, a: ArchiveView, directory: int) -> bool {
    &&& 0 <= directory <= d.len()
    &&& a.entries.len() > 0 ==> scanner::from_central(
        d,
        windows,
        directory,
        a.entries.len(),
        Seq::empty(),
        directory as u64,
        a.comment,
    ) == Ok::<ArchiveView, Error>(a)
}

/// What holds of the entries of a central directory.
proof fn lemma_from_directory(
    d: Seq<u8>,
    windows: bool,
    directory: CentralDirectory,
    comment: Seq<u8>,
)
    requires
        d.len() <= u64::MAX,
        directory.eocd_offset <= d.len(),
        scanner::from_directory(d, windows, directory, comment) is Ok,
    ensures
        ({
            let a = scanner::from_directory(d, windows, directory, comment)->Ok_0;
            &&& a.entries.len() == directory.entries
            &&& a.comment == comment
            &&& directory.offset + directory.size == directory.eocd_offset
            &&& directory_at(d, windows, a, directory.offset as int)
            &&& well_formed(d, a.entries, windows, directory.offset as int)
        }),
{
    let es = scanner::from_directory(d, windows, directory, comment)->Ok_0.entries;
    if directory.entries == 0 {
        assert(opened::stripped_names(es) =~= Seq::<Seq<u8>>::empty());
    } else {
        lemma_from_central(
            d,
            windows,
            directory.offset as int,
            directory.entries as nat,
            Seq::empty(),
            directory.offset,
            comment,
        );
    }
}

/// Whether the end of central directory at this position, with the ZIP64 record where there is one,
/// tells of an archive and of the place where its central directory starts. The comment of the archive
/// is what follows it.
#[verifier::opaque]
pub open spec fn ends_at(d: Seq<u8>, a: ArchiveView, directory: int, pos: int) -> bool {
    &&& 0 <= pos && pos + 22 + a.comment.len() == d.len()
    &&& d.subrange(pos, pos + 4) == seq![0x50u8, 0x4bu8, 0x05u8, 0x06u8]
    &&& a.comment == d.skip(pos + 22)
    &&& le16(d, pos + 20) == a.comment.len()
    &&& le16(d, pos + 4) == 0 && le16(d, pos + 6) == 0
    &&& le16(d, pos + 8) == le16(d, pos + 10)
    &&& if le16(d, pos + 10) == 0xffff || le32(d, pos + 16) == 0xffff_ffff {
        let record = le64(d, pos - 12);
        &&& pos >= 20
        &&& d.subrange(pos - 20, pos - 16) == seq![0x50u8, 0x4bu8, 0x06u8, 0x07u8]
        &&& le32(d, pos - 16) == 0 && le32(d, pos - 4) <= 1
        &&& record + 12 + le64(d, record + 4) == pos - 20
        &&& record + 56 <= d.len()
        &&& le32(d, record + 16) == 0 && le32(d, record + 20) == 0
        &&& a.entries.len() == le64(d, record + 24) == le64(d, record + 32)
        &&& directory == le64(d, record + 48)
        &&& directory + le64(d, record + 40) == record
    } else {
        &&& a.entries.len() == le16(d, pos + 10)
        &&& directory == le32(d, pos + 16)
        &&& directory + le32(d, pos + 12) == pos
    }
}

/// What an end of central directory at a position of a file tells.
proof fn lemma_end_here(d: Seq<u8>, pos: int)
    requires
        0 <= pos && pos + 22 <= d.len() <= u64::MAX,
    ensures
        ({
            let record = EndOfCentralDirectory::parse(d.subrange(pos, pos + 22));
            &&& record.comment_length.value() == le16(d, pos + 20)
            &&& raw::directory_of(pos as u64, record) == (if le16(d, pos + 4) != 0 || le16(d, pos + 6)
                != 0 {
                Err::<Option<CentralDirectory>, Error>(Error::MultiDisk)
            } else if le16(d, pos + 8) != le16(d, pos + 10) {
                Err(Error::InvalidZip)
            } else if le16(d, pos + 10) == 0xffff || le32(d, pos + 16) == 0xffff_ffff {
                Ok(None)
            } else {
                Ok(
                    Some(
                        CentralDirectory {
                            offset: le32(d, pos + 16) as u64,
                            size: le32(d, pos + 12) as u64,
                            eocd_offset: pos as u64,
                            entries: le16(d, pos + 10) as u64,
                        },
                    ),
                )
            })
        }),
{
    let s = d.subrange(pos, pos + 22);
    records::lemma_end_record(pos as u64, s);
    assert(le16(s, 4) == le16(d, pos + 4) && le16(s, 6) == le16(d, pos + 6));
    assert(le16(s, 8) == le16(d, pos + 8) && le16(s, 10) == le16(d, pos + 10));
    assert(le32(s, 12) == le32(d, pos + 12) && le32(s, 16) == le32(d, pos + 16));
    assert(le16(s, 20) == le16(d, pos + 20));
}

/// What a locator at a position of a file tells.
proof fn lemma_locator_here(d: Seq<u8>, at: int)
    requires
        0 <= at && at + 20 <= d.len() <= u64::MAX,
    ensures
        raw::record_offset(
            at as u64,
            EndOfCentralDirectory64Locator::parse(d.subrange(at, at + 20)),
        ) == (if d.subrange(at, at + 4) != seq![0x50u8, 0x4bu8, 0x06u8, 0x07u8] || le64(d, at + 8)
            > at {
            Err::<u64, Error>(Error::InvalidZip)
        } else if le32(d, at + 4) != 0 || le32(d, at + 16) > 1 {
            Err(Error::MultiDisk)
        } else {
            Ok(le64(d, at + 8) as u64)
        }),
{
    let t = d.subrange(at, at + 20);
    records::lemma_locator(at as u64, t);
    assert(t.take(4) =~= d.subrange(at, at + 4));
    assert(le32(t, 4) == le32(d, at + 4) && le64(t, 8) == le64(d, at + 8));
    assert(le32(t, 16) == le32(d, at + 16));
}

/// What a ZIP64 record at a position of a file tells.
proof fn lemma_record_here(d: Seq<u8>, at: u64, record: u64)
    requires
        record + 56 <= d.len() <= u64::MAX,
    ensures
        raw::directory64_of(
            at,
            record,
            EndOfCentralDirectory64::parse(
                d.subrange(record as int, record + 56),
            ),
        ) == (if le32(d, record + 16) != 0 || le32(d, record + 20) != 0 {
            Err::<CentralDirectory, Error>(Error::MultiDisk)
        } else if le64(d, record + 24) != le64(d, record + 32) || record + 12 + le64(d, record + 4)
            != at {
            Err(Error::InvalidZip)
        } else {
            Ok(
                CentralDirectory {
                    offset: le64(d, record + 48) as u64,
                    size: le64(d, record + 40) as u64,
                    eocd_offset: record,
                    entries: le64(d, record + 32) as u64,
                },
            )
        }),
{
    let u = d.subrange(record as int, record + 56);
    records::lemma_record_64(at, record, u);
    assert(le64(u, 4) == le64(d, record + 4));
    assert(le32(u, 16) == le32(d, record + 16) && le32(u, 20) == le32(d, record + 20));
    assert(le64(u, 24) == le64(d, record + 24) && le64(u, 32) == le64(d, record + 32));
    assert(le64(u, 40) == le64(d, record + 40) && le64(u, 48) == le64(d, record + 48));
}

/// Eight bytes give a number that fits in 64 bits.
proof fn lemma_fits_64(d: Seq<u8>, at: int)
    ensures
        0 <= le64(d, at) <= u64::MAX,
{
}

/// Whether the end of central directory at this position tells of a central directory.
#[verifier::opaque]
spec fn tells(d: Seq<u8>, c: CentralDirectory, pos: int) -> bool {
    forall|a: ArchiveView|
        a.entries.len() == c.entries && a.comment == d.skip(pos + 22) && c.offset + c.size
            == c.eocd_offset ==> #[trigger] ends_at(d, a, c.offset as int, pos)
}

/// An end of central directory that does without a ZIP64 record tells of a central directory.
proof fn lemma_tells(d: Seq<u8>, c: CentralDirectory, pos: int)
    requires
        0 <= pos && pos + 22 <= d.len() <= u64::MAX,
        d.subrange(pos, pos + 4) == raw::eocd_signature(),
        le16(d, pos + 20) == d.len() - pos - 22,
        raw::directory_of(
            pos as u64,
            EndOfCentralDirectory::parse(d.subrange(pos, pos + 22)),
        ) == Ok::<Option<CentralDirectory>, Error>(Some(c)),
    ensures
        tells(d, c, pos),
        c.eocd_offset == pos,
{
    reveal(tells);
    reveal(ends_at);
    lemma_end_here(d, pos);
    lemma_end_signature();
}

/// An end of central directory with a ZIP64 record tells of a central directory.
proof fn lemma_tells_64(d: Seq<u8>, c: CentralDirectory, pos: int, record: u64)
    requires
        20 <= pos && pos + 22 <= d.len() <= u64::MAX,
        d.subrange(pos, pos + 4) == raw::eocd_signature(),
        le16(d, pos + 20) == d.len() - pos - 22,
        raw::directory_of(
            pos as u64,
            EndOfCentralDirectory::parse(d.subrange(pos, pos + 22)),
        ) == Ok::<Option<CentralDirectory>, Error>(None),
        raw::record_offset(
            (pos - 20) as u64,
            EndOfCentralDirectory64Locator::parse(d.subrange(pos - 20, pos)),
        ) == Ok::<u64, Error>(record),
        record + 56 <= d.len(),
        raw::directory64_of(
            (pos - 20) as u64,
            record,
            EndOfCentralDirectory64::parse(d.subrange(record as int, record + 56)),
        ) == Ok::<CentralDirectory, Error>(c),
    ensures
        tells(d, c, pos),
        c.eocd_offset == record,
{
    reveal(tells);
    reveal(ends_at);
    lemma_end_here(d, pos);
    lemma_end_signature();
    lemma_locator_here(d, pos - 20);
    lemma_fits_64(d, pos - 12);
    lemma_record_here(d, (pos - 20) as u64, record);
}

/// An end of central directory leads to the central directory that it tells of.
proof fn lemma_leads(d: Seq<u8>, windows: bool, eocd: EocdView) -> (c: CentralDirectory)
    requires
        d.len() <= u64::MAX,
        eocd.offset + 22 <= d.len(),
        d.subrange(eocd.offset as int, eocd.offset + 4) == raw::eocd_signature(),
        eocd.record == EndOfCentralDirectory::parse(
            d.subrange(eocd.offset as int, eocd.offset + 22),
        ),
        eocd.comment == d.skip(eocd.offset + 22),
        scanner::from_eocd(d, windows, eocd) is Ok,
    ensures
        scanner::from_eocd(d, windows, eocd) == scanner::from_directory(
            d,
            windows,
            c,
            eocd.comment,
        ),
        c.eocd_offset <= d.len(),
        tells(d, c, eocd.offset as int),
{
    let pos = eocd.offset as int;
    lemma_end_here(d, pos);
    match raw::directory_of(eocd.offset, eocd.record)->Ok_0 {
        Some(c) => {
            lemma_tells(d, c, pos);
            c
        },
        None => {
            let at = pos - 20;
            let record = raw::record_offset(
                at as u64,
                EndOfCentralDirectory64Locator::parse(d.subrange(at, pos)),
            )->Ok_0;
            let c = raw::directory64_of(
                at as u64,
                record,
                EndOfCentralDirectory64::parse(d.subrange(record as int, record + 56)),
            )->Ok_0;
            lemma_tells_64(d, c, pos, record);
            c
        },
    }
}

/// What holds of the entries that an end of central directory leads to.
proof fn lemma_from_eocd(d: Seq<u8>, windows: bool, eocd: EocdView) -> (directory: int)
    requires
        d.len() <= u64::MAX,
        eocd.offset + 22 <= d.len(),
        d.subrange(eocd.offset as int, eocd.offset + 4) == raw::eocd_signature(),
        eocd.record == EndOfCentralDirectory::parse(
            d.subrange(eocd.offset as int, eocd.offset + 22),
        ),
        eocd.comment == d.skip(eocd.offset + 22),
        scanner::from_eocd(d, windows, eocd) is Ok,
    ensures
        directory_at(d, windows, scanner::from_eocd(d, windows, eocd)->Ok_0, directory),
        well_formed(d, scanner::from_eocd(d, windows, eocd)->Ok_0.entries, windows, directory),
        ends_at(
            d,
            scanner::from_eocd(d, windows, eocd)->Ok_0,
            directory,
            eocd.offset as int,
        ),
{
    let c = lemma_leads(d, windows, eocd);
    let r = scanner::from_eocd(d, windows, eocd);
    lemma_from_directory(d, windows, c, eocd.comment);
    reveal(tells);
    assert(ends_at(d, r->Ok_0, c.offset as int, eocd.offset as int));
    c.offset as int
}

/// An end of central directory starts with `PK` and 5 and 6.
proof fn lemma_end_signature()
    ensures
        raw::eocd_signature() == seq![0x50u8, 0x4bu8, 0x05u8, 0x06u8],
{
    bytes::lemma_written_32(0x06054b50);
    reveal_with_fuel(bytes::le_bytes, 5);
    assert(bytes::le_bytes(0x06054b50, 4) =~= seq![0x50u8, 0x4bu8, 0x05u8, 0x06u8]);
}

/// An end of central directory that is found in the last bytes of a file lies where it is told to.
proof fn lemma_located(d: Seq<u8>, n: int)
    requires
        d.len() <= u64::MAX,
        22 <= n <= d.len(),
        raw::eocd_in(d.len() - n, scanner::tail(d, n)) is Ok,
        raw::eocd_in(d.len() - n, scanner::tail(d, n))->Ok_0 is Some,
    ensures
        ({
            let eocd = raw::eocd_in(d.len() - n, scanner::tail(d, n))->Ok_0->0;
            let pos = eocd.offset as int;
            &&& pos + 22 <= d.len()
            &&& d.subrange(pos, pos + 4) == raw::eocd_signature()
            &&& eocd.record == EndOfCentralDirectory::parse(d.subrange(pos, pos + 22))
            &&& eocd.comment == d.skip(pos + 22)
        }),
{
    let s = scanner::tail(d, n);
    let i = raw::last_occurrence(s, raw::eocd_signature(), s.len() - 4)->0;
    lemma_last_occurrence(s, raw::eocd_signature(), s.len() - 4);
    lemma_end_signature();
    let pos = d.len() - n + i;
    assert(d.subrange(pos, pos + 4) =~= s.subrange(i, i + 4));
    assert(s.skip(i + 22) =~= d.skip(pos + 22));
    let t = d.subrange(pos, pos + 22);
    assert forall|j: int| 0 <= j < 22 implies s.skip(i)[j] == t[j] by {}
    assert(EndOfCentralDirectory::parse(s.skip(i)) == EndOfCentralDirectory::parse(t));
}

/// What is found lies within the bytes that are searched.
proof fn lemma_last_occurrence(s: Seq<u8>, n: Seq<u8>, from: int)
    requires
        raw::last_occurrence(s, n, from) is Some,
    ensures
        0 <= raw::last_occurrence(s, n, from)->0 <= s.len(),
        raw::occurs(s, n, raw::last_occurrence(s, n, from)->0),
    decreases from + 1,
{
    if from >= 0 && !raw::occurs(s, n, from) {
        lemma_last_occurrence(s, n, from - 1);
    }
}

/// An archive that opens has no dangerous and no duplicated paths: every name is relative and in
/// canonical form, and no two entries have the same name, with or without trailing slashes.
///
/// There is a place where its central directory starts, and the local records of its entries, with
/// their descriptors, fill the bytes from the header of the first entry up to there, in order and
/// without gaps or overlap. They say the same of the entries as the central directory. Directories
/// are empty, what is stored as it is has the size of its data, and what is encrypted is what has
/// bit 0 of its flags set.
pub proof fn lemma_opened(d: Seq<u8>, windows: bool) -> (directory: int)
    requires
        d.len() <= u64::MAX,
        scanner::archive_of(d, windows) is Ok,
    ensures
        directory_at(d, windows, scanner::archive_of(d, windows)->Ok_0, directory),
        well_formed(d, scanner::archive_of(d, windows)->Ok_0.entries, windows, directory),
        exists|pos: int| ends_at(d, scanner::archive_of(d, windows)->Ok_0, directory, pos),
{
    reveal(scanner::archive_of);
    let n = crate::types::EndOfCentralDirectory::SIZE as int;
    let m = scanner::tail_len(d.len() as int);
    let short = scanner::tail(d, n);
    let long = scanner::tail(d, m);
    match raw::eocd_in(d.len() - n, short)->Ok_0 {
        Some(eocd) => {
            lemma_located(d, n);
            let directory = lemma_from_eocd(d, windows, eocd);
            assert(ends_at(
                d,
                scanner::archive_of(d, windows)->Ok_0,
                directory,
                eocd.offset as int,
            ));
            directory
        },
        None => {
            let eocd = raw::eocd_in(d.len() - m, long)->Ok_0->0;
            lemma_located(d, m);
            let directory = lemma_from_eocd(d, windows, eocd);
            assert(ends_at(
                d,
                scanner::archive_of(d, windows)->Ok_0,
                directory,
                eocd.offset as int,
            ));
            directory
        },
    }
}

/// A content that is read has the size and the checksum that the metadata tells.
pub proof fn lemma_content_checked(m: MetadataView, archive: Seq<u8>)
    requires
        metadata::content(m, archive) is Ok,
    ensures
        metadata::content(m, archive)->Ok_0.len() == m.uncompressed_size,
        crc32::crc32_of(metadata::content(m, archive)->Ok_0) == m.crc32,
{
}

/// In an archive that opens, a stored content that is read without a copy is the content.
pub proof fn lemma_stored_content(d: Seq<u8>, windows: bool, i: int)
    requires
        d.len() <= usize::MAX,
        scanner::archive_of(d, windows) is Ok,
        0 <= i < scanner::archive_of(d, windows)->Ok_0.entries.len(),
        metadata::stored_content(scanner::archive_of(d, windows)->Ok_0.entries[i], d) is Ok,
    ensures
        ({
            let m = scanner::archive_of(d, windows)->Ok_0.entries[i];
            metadata::content(m, d) == metadata::stored_content(m, d)
        }),
{
    lemma_opened(d, windows);
    lemma_raw_data(d, windows, i);
}

/// The raw data of an entry of an archive that opens is there in full.
pub proof fn lemma_raw_data(d: Seq<u8>, windows: bool, i: int)
    requires
        d.len() <= u64::MAX,
        scanner::archive_of(d, windows) is Ok,
        0 <= i < scanner::archive_of(d, windows)->Ok_0.entries.len(),
    ensures
        ({
            let m = scanner::archive_of(d, windows)->Ok_0.entries[i];
            metadata::raw_data(m, d) == d.subrange(
                m.data_offset as int,
                m.data_offset + m.compressed_size,
            )
        }),
{
    lemma_opened(d, windows);
}

/// A symlink that is extracted from an archive that opens has a name that stays below the root, and
/// following its target does not go above the root either, not even on the way.
pub proof fn lemma_extracted_symlink(d: Seq<u8>, windows: bool, i: int, target: Seq<u8>, n: int)
    requires
        d.len() <= u64::MAX,
        scanner::archive_of(d, windows) is Ok,
        0 <= i < scanner::archive_of(d, windows)->Ok_0.entries.len(),
        metadata::extraction(scanner::archive_of(d, windows)->Ok_0.entries[i], d, windows) == Ok::<
            metadata::ExtractionView,
            Error,
        >(metadata::ExtractionView::Symlink { target }),
        0 <= n <= names::components(target).len(),
    ensures
        ({
            let m = scanner::archive_of(d, windows)->Ok_0.entries[i];
            &&& canonical(m.name, windows)
            &&& name_laws::level_after(
                names::components(target).take(n),
                names::slashes(m.name) as int,
            ) >= 0
        }),
{
    lemma_opened(d, windows);
    let m = scanner::archive_of(d, windows)->Ok_0.entries[i];
    name_laws::lemma_symlink_stays_inside(m.name, target, windows, n);
}

} // verus!
