//! An archive that was written can be read entry by entry.
use crate::error::Error;
use crate::laws::headers;
use crate::laws::roundtrip;
use crate::read::metadata;
use crate::read::metadata::MetadataView;
use crate::read::stream;
use crate::read::stream::StreamView;
use crate::types::{CentralFileHeader, LocalFileHeader, U32};
use crate::write::layout;
use crate::write::layout::Stored;
use crate::write::raw as writing;
use vstd::prelude::*;

verus! {

/// How far the archive has been read once the entries before this index have been.
pub open spec fn before(es: Seq<Stored>, i: int) -> StreamView {
    let d = layout::archive(es);
    if i == 0 {
        StreamView { rest: d, data_left: 0 }
    } else {
        StreamView {
            rest: d.skip((roundtrip::offset_of(es, i - 1) + es[i - 1].head().len()) as int),
            data_left: es[i - 1].data.len() as u64,
        }
    }
}

/// Behind the data of the entries before an index comes what is at its offset.
proof fn lemma_rest(es: Seq<Stored>, i: int, windows: bool)
    requires
        roundtrip::archivable(es, windows),
        0 <= i <= es.len(),
        forall|k: int| 0 <= k < es.len() ==> !(#[trigger] es[k]).streamed,
    ensures
        ({
            let s = before(es, i);
            &&& s.data_left <= s.rest.len()
            &&& s.rest.skip(s.data_left as int) == layout::archive(es).skip(
                roundtrip::offset_of(es, i) as int,
            )
            &&& roundtrip::offset_of(es, i) <= layout::archive(es).len()
        }),
{
    let d = layout::archive(es);
    if i == 0 {
        roundtrip::lemma_start(es);
        assert(d.skip(0) =~= d);
        assert(d.skip(0).skip(0) =~= d);
    } else {
        roundtrip::lemma_entry_at(es, i - 1);
        roundtrip::lemma_data_at(es, i - 1);
        let e = es[i - 1];
        assert(e.bytes().len() == e.head().len() + e.data.len());
        let s = before(es, i);
        assert(s.rest.skip(s.data_left as int) =~= d.skip(roundtrip::offset_of(es, i) as int));
    }
}

/// Where no entry was streamed, the entries are read one after the other, with the metadata that
/// their local headers give and the contents that they have in the opened archive.
pub proof fn lemma_next_entry(es: Seq<Stored>, i: int, windows: bool)
    requires
        roundtrip::archivable(es, windows),
        0 <= i < es.len(),
        forall|k: int| 0 <= k < es.len() ==> !(#[trigger] es[k]).streamed,
    ensures
        ({
            let m = headers::local_view(es[i], es[i].meta, es[i].data.len() as u64);
            &&& stream::next_entry(before(es, i), windows) == (
                Ok::<Option<MetadataView>, Error>(Some(m)),
                before(es, i + 1),
            )
            &&& metadata::raw_data(m, before(es, i + 1).rest) == es[i].data
            &&& metadata::content_of(m, es[i].data) == metadata::content(
                roundtrip::read_back(es, i),
                layout::archive(es),
            )
        }),
{
    let d = layout::archive(es);
    let e = es[i];
    let pos = roundtrip::offset_of(es, i) as int;
    let size = e.data.len() as u64;
    lemma_rest(es, i, windows);
    roundtrip::lemma_entry_at(es, i);
    headers::lemma_local_entry(e, e.meta, size, windows);
    let header = writing::local_header(e.name.len(), e.meta, false);
    let variable = e.name + writing::local_zip64(e.meta.uncompressed_size, size)
        + writing::time_field(e.meta.modified_at);
    roundtrip::lemma_at_concat(d, pos, e.head() + e.data, e.foot());
    roundtrip::lemma_at_concat(d, pos, e.head(), e.data);
    roundtrip::lemma_at_concat(d, pos, header.bytes(), variable);
    let rest = d.skip(pos);
    let behind = rest.skip(LocalFileHeader::SIZE as int);
    header.lemma_parse_bytes(behind);
    assert(rest =~= header.bytes() + behind);
    U32::lemma_value_of(LocalFileHeader::SIGNATURE);
    let n = variable.len() as int;
    assert(behind.take(n) =~= variable);
    let m = headers::local_view(e, e.meta, size);
    let after = before(es, i + 1);
    assert(behind.skip(n) =~= after.rest);
    assert(stream::entry_behind(header, behind, windows).1 =~= after);
    assert(metadata::raw_data(m, after.rest) =~= e.data);
    roundtrip::lemma_data_at(es, i);
    assert(metadata::raw_data(roundtrip::read_back(es, i), d) =~= e.data);
}

/// Behind the last entry comes the central directory, where reading ends.
pub proof fn lemma_no_more_entries(es: Seq<Stored>, windows: bool)
    requires
        roundtrip::archivable(es, windows),
        es.len() > 0,
        forall|k: int| 0 <= k < es.len() ==> !(#[trigger] es[k]).streamed,
    ensures
        stream::next_entry(before(es, es.len() as int), windows).0 == Ok::<
            Option<MetadataView>,
            Error,
        >(None),
{
    let d = layout::archive(es);
    lemma_rest(es, es.len() as int, windows);
    roundtrip::lemma_start(es);
    roundtrip::lemma_entry_at(es, 0);
    assert(es.take(es.len() as int) =~= es);
    let pos = layout::body(es).len() as int;
    let e = es[0];
    headers::lemma_central_entry(e, 0, windows);
    let header = writing::central_header(e.name.len(), e.comment.len(), e.meta, e.streamed);
    let variable = e.name + writing::central_zip64(
        e.meta.uncompressed_size,
        e.data.len() as u64,
        0,
    ) + writing::time_field(e.meta.modified_at) + e.comment;
    roundtrip::lemma_at_concat(d, pos, header.bytes(), variable);
    let rest = d.skip(pos);
    let behind = rest.skip(CentralFileHeader::SIZE as int);
    header.lemma_parse_bytes(behind);
    assert(rest =~= header.bytes() + behind);
    assert(CentralFileHeader::parse(rest).signature == U32::at(rest, 0));
    assert(LocalFileHeader::parse(rest).signature == U32::at(rest, 0));
    U32::lemma_value_of(CentralFileHeader::SIGNATURE);
}

/// An entry that was streamed cannot be read this way, since its length comes behind its data.
pub proof fn lemma_streamed_entry(es: Seq<Stored>, windows: bool)
    requires
        roundtrip::archivable(es, windows),
        es.len() > 0,
        es[0].streamed,
    ensures
        stream::next_entry(before(es, 0), windows).0 == Err::<Option<MetadataView>, Error>(
            Error::LengthUnavailable,
        ),
{
    let d = layout::archive(es);
    let e = es[0];
    roundtrip::lemma_start(es);
    roundtrip::lemma_entry_at(es, 0);
    let meta = writing::Metadata { uncompressed_size: 0, crc32: 0, ..e.meta };
    headers::lemma_local_entry(e, meta, 0, windows);
    let header = writing::local_header(e.name.len(), meta, true);
    let variable = e.name + writing::local_zip64(0, 0) + writing::time_field(meta.modified_at);
    roundtrip::lemma_at_concat(d, 0, e.head() + e.data, e.foot());
    roundtrip::lemma_at_concat(d, 0, e.head(), e.data);
    roundtrip::lemma_at_concat(d, 0, header.bytes(), variable);
    let behind = d.skip(LocalFileHeader::SIZE as int);
    header.lemma_parse_bytes(behind);
    U32::lemma_value_of(LocalFileHeader::SIGNATURE);
    assert(d.skip(0) =~= d);
    assert(d =~= header.bytes() + behind);
    assert(behind.take(variable.len() as int) =~= variable);
}

} // verus!
