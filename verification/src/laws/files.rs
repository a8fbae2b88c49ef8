//! How a file is walked through, and why it is refused.
use crate::error::Error;
use crate::laws::bytes;
use crate::laws::bytes::le16;
use crate::laws::plain;
use crate::read::metadata::MetadataView;
use crate::read::raw;
use crate::read::raw::{ArchiveView, CentralDirectory, EocdView};
use crate::read::scanner;
use crate::read::stream;
use crate::read::stream::StreamView;
use crate::types::{
    CentralFileHeader, EndOfCentralDirectory, EndOfCentralDirectory64,
    EndOfCentralDirectory64Locator, LocalFileHeader,
};
use crate::utils::names;
use vstd::prelude::*;

verus! {

/// Where nothing starts like an end of central directory.
proof fn lemma_nowhere(d: Seq<u8>, n: int)
    requires
        22 <= n <= d.len(),
        forall|i: int|
            d.len() - n <= i && i + 4 <= d.len() ==> #[trigger] d.subrange(i, i + 4) != seq![
                0x50u8,
                0x4bu8,
                0x05u8,
                0x06u8,
            ],
    ensures
        raw::eocd_in(d.len() - n, scanner::tail(d, n)) == Ok::<Option<EocdView>, Error>(None),
{
    let s = scanner::tail(d, n);
    let sig = raw::eocd_signature();
    bytes::lemma_written_32(0x06054b50);
    reveal_with_fuel(bytes::le_bytes, 5);
    assert(bytes::le_bytes(0x06054b50, 4) =~= seq![0x50u8, 0x4bu8, 0x05u8, 0x06u8]);
    assert forall|j: int| 0 <= j <= s.len() - 4 implies !#[trigger] raw::occurs(s, sig, j) by {
        assert(s.subrange(j, j + 4) =~= d.subrange(d.len() - n + j, d.len() - n + j + 4));
    }
    plain::lemma_none(s, sig, s.len() - 4);
}

/// A file that is too short, or has no end of central directory in the last bytes that can hold one
/// with its comment, is not an archive.
pub proof fn lemma_not_an_archive(d: Seq<u8>, windows: bool)
    requires
        forall|i: int|
            0 <= i && d.len() - 22 - 0xffff <= i && i + 4 <= d.len() ==> #[trigger] d.subrange(
                i,
                i + 4,
            ) != seq![0x50u8, 0x4bu8, 0x05u8, 0x06u8],
    ensures
        scanner::archive_of(d, windows) == Err::<ArchiveView, Error>(Error::NotAZip),
{
    reveal(scanner::archive_of);
    if d.len() >= 22 {
        lemma_nowhere(d, 22);
        lemma_nowhere(d, scanner::tail_len(d.len() as int));
    }
}

/// A central header is read from 46 bytes and from as many more as it tells, where the file holds
/// them.
pub proof fn lemma_central_at(d: Seq<u8>, windows: bool, pos: int)
    requires
        0 <= pos,
    ensures
        ({
            let end = pos + 46 + le16(d, pos + 28) + le16(d, pos + 30) + le16(d, pos + 32);
            scanner::central_at(d, windows, pos) == (if pos + 46 > d.len() || end > d.len() {
                Err::<(MetadataView, int), Error>(Error::UnexpectedEof)
            } else {
                match raw::central_entry(
                    CentralFileHeader::parse(d.subrange(pos, pos + 46)),
                    d.subrange(pos + 46, end),
                    windows,
                ) {
                    Some(m) => Ok((m, end)),
                    None => Err(Error::InvalidEntry),
                }
            })
        }),
{
    if pos + 46 <= d.len() {
        let s = d.subrange(pos, pos + 46);
        bytes::lemma_read_16(s, 28);
        bytes::lemma_read_16(s, 30);
        bytes::lemma_read_16(s, 32);
    }
}

/// A local record is read from 30 bytes and from as many more as they tell. Behind these lies the
/// data, whose length the central header tells, and then a descriptor of 24 bytes, or of 16 without
/// 64-bit sizes, where the local header tells of one. The lengths in it replace those of the local
/// header. A directory has to be empty, and the data has to be one that can be skipped.
pub proof fn lemma_local_at(d: Seq<u8>, windows: bool, pos: int, entry: MetadataView)
    requires
        0 <= pos,
        d.len() <= u64::MAX,
    ensures
        ({
            let start = pos + 30 + le16(d, pos + 26) + le16(d, pos + 28);
            let behind = start + entry.compressed_size;
            let placed = MetadataView { data_offset: start as u64, ..entry };
            let local = raw::local_entry(
                LocalFileHeader::parse(d.subrange(pos, pos + 30)),
                d.subrange(pos + 30, start),
                windows,
            );
            let r = scanner::local_at(d, windows, pos, entry);
            if pos + 30 > d.len() || start > d.len() {
                r == Err::<(MetadataView, int), Error>(Error::UnexpectedEof)
            } else {
                match local {
                    None => r == Err::<(MetadataView, int), Error>(Error::InvalidEntry),
                    Some(local) => if entry.file_type is Directory && entry.uncompressed_size > 0 {
                        r == Err::<(MetadataView, int), Error>(Error::InvalidEntry)
                    } else if entry.compressed_size > 0x7fff_ffff_ffff_ffff || behind
                        > 0xffff_ffff_ffff_ffff {
                        r == Err::<(MetadataView, int), Error>(Error::SeekOutOfRange)
                    } else if local.is_streaming {
                        let end = behind + if local.is_zip64 {
                            24int
                        } else {
                            16
                        };
                        if end > d.len() {
                            r == Err::<(MetadataView, int), Error>(Error::UnexpectedEof)
                        } else {
                            match raw::described(local, d.subrange(behind, end)) {
                                Err(e) => r == Err::<(MetadataView, int), Error>(e),
                                Ok(local) => match raw::merged(placed, local) {
                                    Err(e) => r == Err::<(MetadataView, int), Error>(e),
                                    Ok(m) => r == Ok::<(MetadataView, int), Error>((m, end)),
                                },
                            }
                        }
                    } else {
                        match raw::merged(placed, local) {
                            Err(e) => r == Err::<(MetadataView, int), Error>(e),
                            Ok(m) => r == Ok::<(MetadataView, int), Error>((m, behind)),
                        }
                    },
                }
            }
        }),
{
    if pos + 30 <= d.len() {
        let s = d.subrange(pos, pos + 30);
        bytes::lemma_read_16(s, 26);
        bytes::lemma_read_16(s, 28);
    }
}

/// The records are read one after the other, and have to end where the central directory starts. Two
/// entries may then not have the same name, with or without a trailing slash.
pub proof fn lemma_walk(
    d: Seq<u8>,
    windows: bool,
    pos: int,
    entries: Seq<MetadataView>,
    index: nat,
    offset: u64,
    comment: Seq<u8>,
)
    requires
        index <= entries.len(),
    ensures
        ({
            let r = scanner::from_local(d, windows, pos, entries, index, offset, comment);
            if index < entries.len() {
                match scanner::local_at(d, windows, pos, entries[index as int]) {
                    Err(e) => r == Err::<ArchiveView, Error>(e),
                    Ok((m, next)) => r == scanner::from_local(
                        d,
                        windows,
                        next,
                        entries.update(index as int, m),
                        index + 1,
                        offset,
                        comment,
                    ),
                }
            } else if pos != offset {
                r == Err::<ArchiveView, Error>(Error::InvalidZip)
            } else if exists|i: int, j: int|
                0 <= i < j < entries.len() && names::stripped((#[trigger] entries[i]).name)
                    == names::stripped((#[trigger] entries[j]).name) {
                r == Err::<ArchiveView, Error>(Error::DuplicatedName)
            } else {
                r == Ok::<ArchiveView, Error>(ArchiveView { entries, comment })
            }
        }),
{
    if index >= entries.len() && pos == offset {
        let ns = crate::read::archive::stripped_names(entries);
        if exists|i: int, j: int|
            0 <= i < j < entries.len() && names::stripped((#[trigger] entries[i]).name)
                == names::stripped((#[trigger] entries[j]).name) {
            let (i, j) = choose|i: int, j: int|
                0 <= i < j < entries.len() && names::stripped((#[trigger] entries[i]).name)
                    == names::stripped((#[trigger] entries[j]).name);
            assert(ns[i] == ns[j]);
        } else {
            assert forall|i: int, j: int|
                0 <= i < ns.len() && 0 <= j < ns.len() && i != j implies ns[i] != ns[j] by {
                assert(ns[i] == names::stripped(entries[i].name));
                assert(ns[j] == names::stripped(entries[j].name));
            }
        }
    }
}

/// A directory with the wrong length is refused, an empty one gives an archive without entries, and
/// any other one is read from its start, with as many headers as are told.
pub proof fn lemma_directory(
    d: Seq<u8>,
    windows: bool,
    c: CentralDirectory,
    comment: Seq<u8>,
)
    ensures
        ({
            let r = scanner::from_directory(d, windows, c, comment);
            if c.offset + c.size != c.eocd_offset || c.size < 47 * c.entries || c.entries
                > usize::MAX {
                r == Err::<ArchiveView, Error>(Error::InvalidZip)
            } else if c.entries == 0 {
                r == Ok::<ArchiveView, Error>(ArchiveView { entries: Seq::empty(), comment })
            } else {
                r == scanner::from_central(
                    d,
                    windows,
                    c.offset as int,
                    c.entries as nat,
                    Seq::empty(),
                    c.offset,
                    comment,
                )
            }
        }),
{
}

/// The central headers are read one after the other, and the local records from the place that the
/// first of them tells.
pub proof fn lemma_headers(
    d: Seq<u8>,
    windows: bool,
    pos: int,
    left: nat,
    entries: Seq<MetadataView>,
    offset: u64,
    comment: Seq<u8>,
)
    ensures
        ({
            let r = scanner::from_central(d, windows, pos, left, entries, offset, comment);
            if left == 0 {
                r == scanner::from_local(
                    d,
                    windows,
                    entries[0].header_offset as int,
                    entries,
                    0,
                    offset,
                    comment,
                )
            } else {
                match scanner::central_at(d, windows, pos) {
                    Err(e) => r == Err::<ArchiveView, Error>(e),
                    Ok((m, next)) => r == scanner::from_central(
                        d,
                        windows,
                        next,
                        (left - 1) as nat,
                        entries.push(m),
                        offset,
                        comment,
                    ),
                }
            }
        }),
{
}

/// Reading entry by entry skips the data of the entry before, and then reads a local header. A central
/// header ends the entries, and anything else is refused, as is an entry whose length comes behind
/// its data.
pub proof fn lemma_next(rest: Seq<u8>, left: u64, windows: bool)
    ensures
        ({
            let (r, after) = stream::next_entry(StreamView { rest, data_left: left }, windows);
            let s = rest.skip(left as int);
            let n = le16(s, 26) + le16(s, 28);
            let local = raw::local_entry(
                LocalFileHeader::parse(s.take(30)),
                s.subrange(30, 30 + n),
                windows,
            );
            if left > rest.len() {
                &&& r == Err::<Option<MetadataView>, Error>(Error::UnexpectedEof)
                &&& after == (StreamView { rest, data_left: left })
            } else if s.len() < 30 {
                &&& r == Err::<Option<MetadataView>, Error>(Error::UnexpectedEof)
                &&& after.rest.len() == 0 && after.data_left == 0
            } else if s.take(4) == seq![0x50u8, 0x4bu8, 0x01u8, 0x02u8] {
                &&& r == Ok::<Option<MetadataView>, Error>(None)
                &&& after == (StreamView { rest: s.skip(30), data_left: 0 })
            } else if s.take(4) != seq![0x50u8, 0x4bu8, 0x03u8, 0x04u8] {
                &&& r == Err::<Option<MetadataView>, Error>(Error::UnknownSignature)
                &&& after == (StreamView { rest: s.skip(30), data_left: 0 })
            } else if s.len() < 30 + n {
                &&& r == Err::<Option<MetadataView>, Error>(Error::UnexpectedEof)
                &&& after.rest.len() == 0 && after.data_left == 0
            } else {
                match local {
                    None => {
                        &&& r == Err::<Option<MetadataView>, Error>(Error::InvalidEntry)
                        &&& after == (StreamView { rest: s.skip(30 + n), data_left: 0 })
                    },
                    Some(m) => if plain::bit_set(m.flags, 3) {
                        &&& r == Err::<Option<MetadataView>, Error>(Error::LengthUnavailable)
                        &&& after == (StreamView { rest: s.skip(30 + n), data_left: 0 })
                    } else {
                        &&& r == Ok::<Option<MetadataView>, Error>(Some(m))
                        &&& after.rest == s.skip(30 + n)
                        &&& after.data_left == m.compressed_size
                    },
                }
            }
        }),
{
    let s = rest.skip(left as int);
    if left <= rest.len() && s.len() >= 30 {
        bytes::lemma_read_32(s, 0);
        bytes::lemma_read_16(s, 26);
        bytes::lemma_read_16(s, 28);
        plain::lemma_signature_value(s, 0x01, 0x02);
        plain::lemma_signature_value(s, 0x03, 0x04);
        let n = le16(s, 26) + le16(s, 28);
        assert(LocalFileHeader::parse(s.take(30)) == LocalFileHeader::parse(s)) by {
            assert forall|j: int| 0 <= j < 30 implies s.take(30)[j] == s[j] by {}
        }
        if s.len() >= 30 + n {
            assert(s.skip(30).take(n) =~= s.subrange(30, 30 + n));
            assert(s.skip(30).skip(n) =~= s.skip(30 + n));
            match raw::local_entry(LocalFileHeader::parse(s), s.subrange(30, 30 + n), windows) {
                Some(m) => {
                    plain::lemma_flags(m.flags);
                },
                None => {},
            }
        }
    }
}

/// The last end of central directory in a buffer is the last place with its signature. It has to be
/// whole, and what follows its 22 bytes is the comment.
pub proof fn lemma_last_end(start: int, s: Seq<u8>, i: int)
    requires
        0 <= i && i + 4 <= s.len(),
        s.subrange(i, i + 4) == seq![0x50u8, 0x4bu8, 0x05u8, 0x06u8],
        forall|j: int|
            i < j && j + 4 <= s.len() ==> #[trigger] s.subrange(j, j + 4) != seq![
                0x50u8,
                0x4bu8,
                0x05u8,
                0x06u8,
            ],
    ensures
        raw::eocd_in(start, s) == (if s.len() < i + 22 {
            Err::<Option<EocdView>, Error>(Error::UnexpectedEof)
        } else {
            Ok(
                Some(
                    EocdView {
                        offset: (start + i) as u64,
                        record: EndOfCentralDirectory::parse(s.skip(i)),
                        comment: s.skip(i + 22),
                    },
                ),
            )
        }),
{
    let sig = raw::eocd_signature();
    bytes::lemma_written_32(0x06054b50);
    reveal_with_fuel(bytes::le_bytes, 5);
    assert(bytes::le_bytes(0x06054b50, 4) =~= seq![0x50u8, 0x4bu8, 0x05u8, 0x06u8]);
    assert(raw::occurs(s, sig, i));
    assert forall|j: int| i < j <= s.len() - 4 implies !#[trigger] raw::occurs(s, sig, j) by {
        assert(s.subrange(j, j + 4) != sig);
    }
    plain::lemma_last(s, sig, s.len() - 4, i);
}

/// The end of central directory is searched in the last 22 bytes, and then in as many as a comment
/// can add.
pub proof fn lemma_search(d: Seq<u8>, windows: bool)
    ensures
        ({
            let n: int = if d.len() < 65557 {
                d.len() as int
            } else {
                65557
            };
            let r = scanner::archive_of(d, windows);
            if d.len() < 22 {
                r == Err::<ArchiveView, Error>(Error::NotAZip)
            } else {
                match raw::eocd_in(d.len() - 22, d.skip(d.len() - 22)) {
                    Err(e) => r == Err::<ArchiveView, Error>(e),
                    Ok(Some(eocd)) => r == scanner::from_eocd(d, windows, eocd),
                    Ok(None) => match raw::eocd_in(d.len() - n, d.skip(d.len() - n)) {
                        Err(e) => r == Err::<ArchiveView, Error>(e),
                        Ok(Some(eocd)) => r == scanner::from_eocd(d, windows, eocd),
                        Ok(None) => r == Err::<ArchiveView, Error>(Error::NotAZip),
                    },
                }
            }
        }),
{
    reveal(scanner::archive_of);
    if d.len() >= 22 {
        let n = scanner::tail_len(d.len() as int);
        assert(scanner::tail(d, 22) =~= d.skip(d.len() - 22));
        assert(scanner::tail(d, n) =~= d.skip(d.len() - n));
    }
}

/// An end of central directory leads to a directory where its comment has the length that it tells.
/// Where it leaves the directory to a ZIP64 record, a locator of 20 bytes lies just before it, and
/// the locator tells where the record of 56 bytes is.
pub proof fn lemma_end_leads(d: Seq<u8>, windows: bool, eocd: EocdView)
    requires
        eocd.offset <= d.len(),
    ensures
        ({
            let r = scanner::from_eocd(d, windows, eocd);
            let at = eocd.offset - 20;
            if eocd.record.comment_length.value() != eocd.comment.len() {
                r == Err::<ArchiveView, Error>(Error::InvalidZip)
            } else {
                match raw::directory_of(eocd.offset, eocd.record) {
                    Err(e) => r == Err::<ArchiveView, Error>(e),
                    Ok(Some(c)) => r == scanner::from_directory(d, windows, c, eocd.comment),
                    Ok(None) => if at < 0 {
                        r == Err::<ArchiveView, Error>(Error::InvalidZip)
                    } else {
                        match raw::record_offset(
                            at as u64,
                            EndOfCentralDirectory64Locator::parse(d.subrange(at, at + 20)),
                        ) {
                            Err(e) => r == Err::<ArchiveView, Error>(e),
                            Ok(record) => if record + 56 > d.len() {
                                r == Err::<ArchiveView, Error>(Error::UnexpectedEof)
                            } else {
                                match raw::directory64_of(
                                    at as u64,
                                    record,
                                    EndOfCentralDirectory64::parse(
                                        d.subrange(record as int, record + 56),
                                    ),
                                ) {
                                    Err(e) => r == Err::<ArchiveView, Error>(e),
                                    Ok(c) => r == scanner::from_directory(
                                        d,
                                        windows,
                                        c,
                                        eocd.comment,
                                    ),
                                }
                            },
                        }
                    },
                }
            }
        }),
{
}

} // verus!
