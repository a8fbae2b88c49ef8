//! An archive that was written reads as the entries that were written.
use crate::error::Error;
use crate::laws::headers;
use crate::read::archive as opened;
use crate::read::metadata::MetadataView;
use crate::read::raw as reading;
use crate::read::raw::{ArchiveView, CentralDirectory, EocdView};
use crate::read::scanner;
use crate::types::{
    CentralFileHeader, EndOfCentralDirectory, EndOfCentralDirectory64Locator, U16, U32, U64,
};
use crate::write::layout;
use crate::write::layout::Stored;
use crate::write::raw as writing;
use crate::write::raw::Metadata;
use vstd::prelude::*;

verus! {

/// Whether the file holds these bytes at this position.
pub open spec fn at(d: Seq<u8>, pos: int, s: Seq<u8>) -> bool {
    0 <= pos && pos + s.len() <= d.len() && d.subrange(pos, pos + s.len()) == s
}

/// Bytes one after the other are there each at its own position.
pub proof fn lemma_at_concat(d: Seq<u8>, pos: int, a: Seq<u8>, b: Seq<u8>)
    requires
        at(d, pos, a + b),
    ensures
        at(d, pos, a),
        at(d, pos + a.len(), b),
{
    let s = d.subrange(pos, pos + (a + b).len());
    assert(d.subrange(pos, pos + a.len()) =~= s.subrange(0, a.len() as int));
    assert((a + b).subrange(0, a.len() as int) =~= a);
    assert(d.subrange(pos + a.len(), pos + a.len() + b.len()) =~= s.subrange(
        a.len() as int,
        (a + b).len() as int,
    ));
    assert((a + b).subrange(a.len() as int, (a + b).len() as int) =~= b);
}

/// Where the entry with this index starts.
pub open spec fn offset_of(es: Seq<Stored>, i: int) -> nat {
    layout::body(es.take(i)).len()
}

/// The length of the central directory before the entry with this index.
pub open spec fn central_before(es: Seq<Stored>, i: int) -> nat {
    layout::central(es.take(i)).len()
}

/// An entry follows those before it.
proof fn lemma_step(es: Seq<Stored>, i: int)
    requires
        0 <= i < es.len(),
    ensures
        layout::body(es.take(i + 1)) == layout::body(es.take(i)) + es[i].bytes(),
        layout::central(es.take(i + 1)) == layout::central(es.take(i)) + es[i].central(
            offset_of(es, i),
        ),
{
    reveal(layout::body);
    reveal(layout::central);
    assert(es.take(i + 1).drop_last() =~= es.take(i));
}

/// The entries from an index on follow those before it.
proof fn lemma_split(es: Seq<Stored>, i: int) -> (rest: (Seq<u8>, Seq<u8>))
    requires
        0 <= i <= es.len(),
    ensures
        layout::body(es) == layout::body(es.take(i)) + rest.0,
        layout::central(es) == layout::central(es.take(i)) + rest.1,
    decreases es.len() - i,
{
    if i == es.len() {
        assert(es.take(i) =~= es);
        assert(layout::body(es) =~= layout::body(es.take(i)) + Seq::<u8>::empty());
        assert(layout::central(es) =~= layout::central(es.take(i)) + Seq::<u8>::empty());
        (Seq::<u8>::empty(), Seq::<u8>::empty())
    } else {
        lemma_step(es, i);
        let (b, c) = lemma_split(es, i + 1);
        let rest = (es[i].bytes() + b, es[i].central(offset_of(es, i)) + c);
        assert(layout::body(es.take(i)) + es[i].bytes() + b =~= layout::body(es.take(i)) + rest.0);
        assert(layout::central(es.take(i)) + es[i].central(offset_of(es, i)) + c
            =~= layout::central(es.take(i)) + rest.1);
        rest
    }
}

/// Nothing comes before the first entry.
pub proof fn lemma_start(es: Seq<Stored>)
    ensures
        offset_of(es, 0) == 0,
        central_before(es, 0) == 0,
{
    reveal(layout::body);
    reveal(layout::central);
}

/// The parts of a written archive are where they belong.
proof fn lemma_parts(es: Seq<Stored>)
    ensures
        ({
            let d = layout::archive(es);
            let b = layout::body(es).len() as int;
            let c = layout::central(es).len() as int;
            &&& at(d, 0, layout::body(es))
            &&& at(d, b, layout::central(es))
            &&& at(d, b + c, writing::end_records(es.len() as u64, b as u64, c as u64))
            &&& d.len() == b + c + writing::end_records(
                es.len() as u64,
                b as u64,
                c as u64,
            ).len()
        }),
{
    reveal(layout::archive);
    let d = layout::archive(es);
    let b = layout::body(es);
    let c = layout::central(es);
    let e = writing::end_records(es.len() as u64, b.len() as u64, c.len() as u64);
    assert(d.subrange(0, d.len() as int) =~= d);
    assert(at(d, 0, (b + c) + e));
    lemma_at_concat(d, 0, b + c, e);
    lemma_at_concat(d, 0, b, c);
}

/// An entry and its central header are where they belong.
pub proof fn lemma_entry_at(es: Seq<Stored>, i: int)
    requires
        0 <= i < es.len(),
    ensures
        ({
            let d = layout::archive(es);
            let b = layout::body(es).len() as int;
            &&& at(d, offset_of(es, i) as int, es[i].bytes())
            &&& at(d, b + central_before(es, i), es[i].central(offset_of(es, i)))
            &&& offset_of(es, i + 1) == offset_of(es, i) + es[i].bytes().len()
            &&& central_before(es, i + 1) == central_before(es, i) + es[i].central(
                offset_of(es, i),
            ).len()
            &&& offset_of(es, i + 1) <= b
        }),
{
    let d = layout::archive(es);
    let b = layout::body(es).len() as int;
    lemma_parts(es);
    lemma_step(es, i);
    let (x, y) = lemma_split(es, i + 1);
    let p = layout::body(es.take(i));
    let q = layout::central(es.take(i));
    let c = es[i].central(offset_of(es, i));
    lemma_at_concat(d, 0, p + es[i].bytes(), x);
    lemma_at_concat(d, 0, p, es[i].bytes());
    lemma_at_concat(d, b, q + c, y);
    lemma_at_concat(d, b, q, c);
}

/// The data of an entry is where its metadata says.
pub proof fn lemma_data_at(es: Seq<Stored>, i: int)
    requires
        0 <= i < es.len(),
        layout::archive(es).len() <= u64::MAX,
    ensures
        at(layout::archive(es), read_back(es, i).data_offset as int, es[i].data),
        read_back(es, i).compressed_size == es[i].data.len(),
{
    let d = layout::archive(es);
    let pos = offset_of(es, i) as int;
    let e = es[i];
    lemma_entry_at(es, i);
    lemma_at_concat(d, pos, e.head() + e.data, e.foot());
    lemma_at_concat(d, pos, e.head(), e.data);
}

/// A central header that was written is read as such.
proof fn lemma_central_at(d: Seq<u8>, pos: int, e: Stored, offset: nat, windows: bool)
    requires
        e.valid(windows),
        offset <= u64::MAX,
        at(d, pos, e.central(offset)),
    ensures
        scanner::central_at(d, windows, pos) == Ok::<(MetadataView, int), Error>(
            (headers::central_view(e, offset), pos + e.central(offset).len()),
        ),
        e.central(offset).len() >= CentralFileHeader::SIZE + 1,
{
    headers::lemma_central_entry(e, offset, windows);
    let header = writing::central_header(e.name.len(), e.comment.len(), e.meta, e.streamed);
    let variable = e.name + writing::central_zip64(
        e.meta.uncompressed_size,
        e.data.len() as u64,
        offset as u64,
    ) + writing::time_field(e.meta.modified_at) + e.comment;
    lemma_at_concat(d, pos, header.bytes(), variable);
    header.lemma_parse_bytes(Seq::empty());
    assert(header.bytes() + Seq::<u8>::empty() =~= header.bytes());
}

/// An entry that was written is read as such.
proof fn lemma_local_at(d: Seq<u8>, pos: int, e: Stored, offset: nat, windows: bool)
    requires
        e.valid(windows),
        at(d, pos, e.bytes()),
        d.len() <= u64::MAX,
    ensures
        scanner::local_at(d, windows, pos, headers::central_view(e, offset)) == Ok::<
            (MetadataView, int),
            Error,
        >(
            (
                MetadataView {
                    data_offset: (pos + e.head().len()) as u64,
                    ..headers::central_view(e, offset)
                },
                pos + e.bytes().len(),
            ),
        ),
{
    let entry = headers::central_view(e, offset);
    let size = e.data.len() as u64;
    let meta = if e.streamed {
        Metadata { uncompressed_size: 0, crc32: 0, ..e.meta }
    } else {
        e.meta
    };
    let local_size = if e.streamed {
        0u64
    } else {
        size
    };
    headers::lemma_local_entry(e, meta, local_size, windows);
    let header = writing::local_header(e.name.len(), meta, e.streamed);
    let variable = e.name + writing::local_zip64(meta.uncompressed_size, local_size)
        + writing::time_field(meta.modified_at);
    assert(e.head() == header.bytes() + variable);
    lemma_at_concat(d, pos, e.head() + e.data, e.foot());
    lemma_at_concat(d, pos, e.head(), e.data);
    lemma_at_concat(d, pos, header.bytes(), variable);
    header.lemma_parse_bytes(Seq::empty());
    assert(header.bytes() + Seq::<u8>::empty() =~= header.bytes());
    let local = headers::local_view(e, meta, local_size);
    let data_pos = pos + e.head().len();
    let placed = MetadataView { data_offset: data_pos as u64, ..entry };
    headers::lemma_merged(e, offset, data_pos as u64, windows);
    assert(scanner::local_at(d, windows, pos, entry) == scanner::data_at(
        d,
        data_pos,
        local,
        entry,
    ));
    if e.streamed {
        headers::lemma_described(e);
        assert(scanner::data_at(d, data_pos, local, entry) == scanner::descriptor_at(
            d,
            data_pos + size,
            local,
            placed,
        ));
    } else {
        assert(scanner::data_at(d, data_pos, local, entry) == scanner::completed(
            placed,
            local,
            data_pos + size,
        ));
    }
}

/// The metadata that the entry with this index has once its headers are read.
pub open spec fn read_back(es: Seq<Stored>, i: int) -> MetadataView {
    MetadataView {
        data_offset: (offset_of(es, i) + es[i].head().len()) as u64,
        ..headers::central_view(es[i], offset_of(es, i))
    }
}

/// The metadata of the entries, of which the first ones are completed by their local headers.
spec fn partly_read(es: Seq<Stored>, completed: int) -> Seq<MetadataView> {
    Seq::new(
        es.len(),
        |k: int|
            if k < completed {
                read_back(es, k)
            } else {
                headers::central_view(es[k], offset_of(es, k))
            },
    )
}

/// The metadata of all the entries.
pub open spec fn all_read(es: Seq<Stored>) -> Seq<MetadataView> {
    Seq::new(es.len(), |k: int| read_back(es, k))
}

/// What is asked of the entries of an archive: each of them is valid, no two have the same name,
/// and the archive is not longer than a file can be.
pub open spec fn archivable(es: Seq<Stored>, windows: bool) -> bool {
    &&& forall|i: int| 0 <= i < es.len() ==> (#[trigger] es[i]).valid(windows)
    &&& layout::stripped_names(es).no_duplicates()
    &&& layout::archive(es).len() <= u64::MAX
    &&& es.len() <= usize::MAX
}

/// Reading the entries from an index on completes all of them.
proof fn lemma_from_local(es: Seq<Stored>, i: int, windows: bool)
    requires
        archivable(es, windows),
        0 <= i <= es.len(),
    ensures
        scanner::from_local(
            layout::archive(es),
            windows,
            offset_of(es, i) as int,
            partly_read(es, i),
            i as nat,
            layout::body(es).len() as u64,
            Seq::empty(),
        ) == Ok::<ArchiveView, Error>(
            ArchiveView { entries: all_read(es), comment: Seq::empty() },
        ),
    decreases es.len() - i,
{
    let d = layout::archive(es);
    lemma_parts(es);
    if i == es.len() {
        assert(es.take(i) =~= es);
        assert(partly_read(es, i) =~= all_read(es));
        assert(opened::stripped_names(all_read(es)) =~= layout::stripped_names(es));
    } else {
        lemma_entry_at(es, i);
        lemma_local_at(d, offset_of(es, i) as int, es[i], offset_of(es, i), windows);
        assert(partly_read(es, i)[i] == headers::central_view(es[i], offset_of(es, i)));
        assert(partly_read(es, i).update(i, read_back(es, i)) =~= partly_read(es, i + 1));
        lemma_from_local(es, i + 1, windows);
    }
}

/// Reading a central header goes on with the next one.
proof fn lemma_central_step(
    d: Seq<u8>,
    windows: bool,
    pos: int,
    left: nat,
    entries: Seq<MetadataView>,
    offset: u64,
    m: MetadataView,
    next: int,
)
    requires
        left > 0,
        scanner::central_at(d, windows, pos) == Ok::<(MetadataView, int), Error>((m, next)),
    ensures
        scanner::from_central(d, windows, pos, left, entries, offset, Seq::empty())
            == scanner::from_central(
            d,
            windows,
            next,
            (left - 1) as nat,
            entries.push(m),
            offset,
            Seq::empty(),
        ),
{
}

/// Reading the central headers from an index on, and then the entries, gives all of them.
proof fn lemma_from_central(es: Seq<Stored>, i: int, windows: bool)
    requires
        archivable(es, windows),
        0 <= i <= es.len(),
        es.len() > 0,
    ensures
        scanner::from_central(
            layout::archive(es),
            windows,
            (layout::body(es).len() + central_before(es, i)) as int,
            (es.len() - i) as nat,
            partly_read(es, 0).take(i),
            layout::body(es).len() as u64,
            Seq::empty(),
        ) == Ok::<ArchiveView, Error>(
            ArchiveView { entries: all_read(es), comment: Seq::empty() },
        ),
    decreases es.len() - i,
{
    let d = layout::archive(es);
    lemma_parts(es);
    if i == es.len() {
        lemma_from_local(es, 0, windows);
        assert(partly_read(es, 0).take(i) =~= partly_read(es, 0));
        lemma_start(es);
    } else {
        lemma_entry_at(es, i);
        let pos = (layout::body(es).len() + central_before(es, i)) as int;
        let m = headers::central_view(es[i], offset_of(es, i));
        let next = (layout::body(es).len() + central_before(es, i + 1)) as int;
        lemma_central_at(d, pos, es[i], offset_of(es, i), windows);
        assert(partly_read(es, 0).take(i).push(m) =~= partly_read(es, 0).take(i + 1));
        lemma_from_central(es, i + 1, windows);
        lemma_central_step(
            d,
            windows,
            pos,
            (es.len() - i) as nat,
            partly_read(es, 0).take(i),
            layout::body(es).len() as u64,
            m,
            next,
        );
    }
}

/// A central directory is large enough for its entries.
proof fn lemma_central_size(es: Seq<Stored>, i: int, windows: bool)
    requires
        archivable(es, windows),
        0 <= i <= es.len(),
    ensures
        central_before(es, i) >= (CentralFileHeader::SIZE + 1) * i,
    decreases i,
{
    if i == 0 {
        lemma_start(es);
    } else {
        lemma_central_size(es, i - 1, windows);
        lemma_entry_at(es, i - 1);
        lemma_parts(es);
        lemma_central_at(
            layout::archive(es),
            (layout::body(es).len() + central_before(es, i - 1)) as int,
            es[i - 1],
            offset_of(es, i - 1),
            windows,
        );
        assert((CentralFileHeader::SIZE + 1) * i == (CentralFileHeader::SIZE + 1) * (i - 1)
            + CentralFileHeader::SIZE + 1) by (nonlinear_arith);
    }
}

/// The signature of an end of central directory is only at its start.
proof fn lemma_eocd_signature()
    ensures
        writing::eocd().bytes().len() == EndOfCentralDirectory::SIZE,
        reading::last_occurrence(
            writing::eocd().bytes(),
            reading::eocd_signature(),
            EndOfCentralDirectory::SIZE - 4,
        ) == Some(0int),
{
    let s = writing::eocd().bytes();
    let n = reading::eocd_signature();
    writing::eocd().lemma_parse_bytes(Seq::empty());
    reveal(EndOfCentralDirectory::bytes);
    reveal(U16::of);
    reveal(U32::of);
    assert(n =~= seq![0x50u8, 0x4b, 0x05, 0x06]);
    assert(s =~= seq![
        0x50u8,
        0x4b,
        0x05,
        0x06,
        0,
        0,
        0,
        0,
        0xff,
        0xff,
        0xff,
        0xff,
        0xff,
        0xff,
        0xff,
        0xff,
        0xff,
        0xff,
        0xff,
        0xff,
        0,
        0,
    ]);
    assert forall|j: int| 0 < j <= 18 implies !#[trigger] reading::occurs(s, n, j) by {
        assert(s.subrange(j, j + 4)[0] == s[j]);
        assert(n[0] == 0x50);
    }
    assert(s.subrange(0, 4) =~= n);
    lemma_last(s, n, 18);
}

/// Where the needle is at the start and nowhere behind it, the last place is the start.
proof fn lemma_last(s: Seq<u8>, n: Seq<u8>, from: int)
    requires
        0 <= from,
        reading::occurs(s, n, 0),
        forall|j: int| 0 < j <= from ==> !#[trigger] reading::occurs(s, n, j),
    ensures
        reading::last_occurrence(s, n, from) == Some(0int),
    decreases from,
{
    if from > 0 {
        lemma_last(s, n, from - 1);
    }
}

/// The end of a written archive leads to its central directory.
proof fn lemma_ends(es: Seq<Stored>, windows: bool)
    requires
        archivable(es, windows),
    ensures
        ({
            let d = layout::archive(es);
            scanner::archive_of(d, windows) == scanner::from_directory(
                d,
                windows,
                CentralDirectory {
                    offset: layout::body(es).len() as u64,
                    size: layout::central(es).len() as u64,
                    eocd_offset: (layout::body(es).len() + layout::central(es).len()) as u64,
                    entries: es.len() as u64,
                },
                Seq::empty(),
            )
        }),
{
    let d = layout::archive(es);
    let b = layout::body(es).len();
    let c = layout::central(es).len();
    let n = es.len() as u64;
    lemma_parts(es);
    lemma_eocd_signature();
    let record = writing::eocd64(n, b as u64, c as u64);
    let locator = writing::locator((b + c) as u64);
    let eocd = writing::eocd();
    let nothing = Seq::<u8>::empty();
    record.lemma_parse_bytes(nothing);
    locator.lemma_parse_bytes(nothing);
    eocd.lemma_parse_bytes(nothing);
    assert(record.bytes() + nothing =~= record.bytes());
    assert(locator.bytes() + nothing =~= locator.bytes());
    assert(eocd.bytes() + nothing =~= eocd.bytes());
    reveal(writing::end_records);
    lemma_at_concat(d, (b + c) as int, record.bytes() + locator.bytes(), eocd.bytes());
    lemma_at_concat(d, (b + c) as int, record.bytes(), locator.bytes());
    U16::lemma_value_of(0);
    U16::lemma_value_of(0xffff);
    U32::lemma_value_of(0);
    U32::lemma_value_of(1);
    U32::lemma_value_of(0xffff_ffff);
    U32::lemma_value_of(EndOfCentralDirectory64Locator::SIGNATURE);
    U64::lemma_value_of(44);
    U64::lemma_value_of(n);
    U64::lemma_value_of(b as u64);
    U64::lemma_value_of(c as u64);
    U64::lemma_value_of((b + c) as u64);
    let found = EocdView { offset: (d.len() - 22) as u64, record: eocd, comment: nothing };
    assert(scanner::tail(d, 22) =~= eocd.bytes());
    assert(eocd.bytes().skip(0) =~= eocd.bytes());
    assert(eocd.bytes().skip(22) =~= nothing);
    assert(reading::eocd_in(d.len() - 22, scanner::tail(d, 22)) == Ok::<Option<EocdView>, Error>(
        Some(found),
    ));
    assert(scanner::archive_of(d, windows) == scanner::from_eocd(d, windows, found)) by {
        reveal(scanner::archive_of);
    }
    assert(scanner::from_eocd(d, windows, found) == scanner::from_locator(
        d,
        windows,
        found.offset,
        nothing,
    ));
    assert(scanner::from_locator(d, windows, found.offset, nothing) == scanner::from_record(
        d,
        windows,
        (b + c + 56) as u64,
        (b + c) as u64,
        nothing,
    ));
}

/// An archive that was written is read as the entries that were written, in the same order and
/// with the same names, types, sizes, checksums, times and comments.
pub proof fn lemma_round_trip(es: Seq<Stored>, windows: bool)
    requires
        archivable(es, windows),
    ensures
        scanner::archive_of(layout::archive(es), windows) == Ok::<ArchiveView, Error>(
            ArchiveView { entries: all_read(es), comment: Seq::empty() },
        ),
{
    lemma_ends(es, windows);
    lemma_central_size(es, es.len() as int, windows);
    lemma_parts(es);
    assert(es.take(es.len() as int) =~= es);
    if es.len() == 0 {
        assert(all_read(es) =~= Seq::<MetadataView>::empty());
    } else {
        lemma_from_central(es, 0, windows);
        lemma_start(es);
        assert(partly_read(es, 0).take(0) =~= Seq::<MetadataView>::empty());
    }
}

} // verus!
