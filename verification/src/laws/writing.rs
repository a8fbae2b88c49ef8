//! What the operations of a writer add up to.
use crate::compression;
use crate::compression::CompressionMethod;
use crate::error::Error;
use crate::laws::headers;
use crate::laws::names as name_laws;
use crate::laws::roundtrip;
use crate::read::metadata;
use crate::read::metadata::MetadataView;
use crate::read::raw::ArchiveView;
use crate::read::scanner;
use crate::utils::crc32;
use crate::utils::{names, FileType};
use crate::write::layout;
use crate::write::layout::Stored;
use crate::write::raw;
use crate::write::raw::{Metadata, RawView};
use crate::write::{directory_metadata, file_metadata, symlink_metadata, FileOptions};
use vstd::prelude::*;
use vstd::utf8::*;

verus! {

/// A new writer has written no entries.
pub proof fn lemma_new()
    ensures
        layout::holds(
            Seq::empty(),
            RawView { writing: None, names: Seq::empty(), central: Seq::empty(), position: 0 },
            Seq::empty(),
        ),
{
    reveal(layout::body);
    reveal(layout::central);
    assert(layout::stripped_names(Seq::empty()) =~= Seq::<Seq<u8>>::empty());
}

/// An entry that is finished is added to those before it.
proof fn lemma_ended(
    bytes: Seq<u8>,
    state: RawView,
    es: Seq<Stored>,
    e: Stored,
)
    requires
        layout::holds(bytes, state, es),
        !state.names.contains(names::stripped(e.name)),
        bytes.len() + e.bytes().len() <= u64::MAX,
    ensures
        layout::holds(
            bytes + e.bytes(),
            raw::ended(
                state,
                e.name,
                e.meta,
                e.data.len() as u64,
                e.streamed,
                e.comment,
                e.bytes().len() as u64,
            ),
            es.push(e),
        ),
        layout::stripped_names(es).no_duplicates() ==> layout::stripped_names(
            es.push(e),
        ).no_duplicates(),
{
    reveal(layout::body);
    reveal(layout::central);
    let all = es.push(e);
    assert(all.drop_last() =~= es);
    let ns = layout::stripped_names(all);
    assert(ns =~= layout::stripped_names(es).push(names::stripped(e.name)));
    if layout::stripped_names(es).no_duplicates() {
        assert forall|i: int, j: int|
            0 <= i < ns.len() && 0 <= j < ns.len() && i != j implies ns[i] != ns[j] by {
            let old_names = layout::stripped_names(es);
            if i == es.len() {
                assert(ns[j] == old_names[j]);
            } else if j == es.len() {
                assert(ns[i] == old_names[i]);
            } else {
                assert(ns[i] == old_names[i] && ns[j] == old_names[j]);
            }
        }
    }
}

/// An entry with an accepted name and a content that goes with its metadata is one that the
/// reader takes.
proof fn lemma_valid(name: Seq<u8>, taken: Seq<Seq<u8>>, e: Stored, windows: bool)
    requires
        raw::checked_name(taken, name, e.meta.typ, windows) == Ok::<Seq<u8>, Error>(e.name),
        valid_utf8(name),
        valid_utf8(e.comment),
        e.comment.len() <= raw::MAX_TEXT,
        e.data.len() <= i64::MAX,
        e.meta.compression_method.0 != CompressionMethod::AES,
        e.meta.compression_method.0 == CompressionMethod::STORE ==> e.meta.uncompressed_size
            == e.data.len(),
        e.meta.typ is Directory ==> e.meta.uncompressed_size == 0,
    ensures
        e.valid(windows),
{
    name_laws::lemma_valid_name_idempotent(name, windows);
    name_laws::lemma_joined_utf8(name);
    names::lemma_joined_len(name);
}

/// Adding an entry to an archive adds exactly this entry, under the canonical form of its name and
/// behind the others, and the reader takes it if its content goes with its metadata. Names stay
/// distinct.
pub proof fn lemma_file_written(
    bytes: Seq<u8>,
    state: RawView,
    es: Seq<Stored>,
    name: Seq<u8>,
    data: Seq<u8>,
    meta: Metadata,
    comment: Seq<u8>,
    windows: bool,
)
    requires
        layout::holds(bytes, state, es),
        raw::file_written(state, name, data, meta, comment, windows) is Ok,
        valid_utf8(name),
        valid_utf8(comment),
        data.len() <= i64::MAX,
        meta.compression_method.0 != CompressionMethod::AES,
        meta.compression_method.0 == CompressionMethod::STORE ==> meta.uncompressed_size
            == data.len(),
        meta.typ is Directory ==> meta.uncompressed_size == 0,
        bytes.len() + raw::file_written(
            state,
            name,
            data,
            meta,
            comment,
            windows,
        )->Ok_0.0.len() <= u64::MAX,
    ensures
        ({
            let (added, next) = raw::file_written(
                state,
                name,
                data,
                meta,
                comment,
                windows,
            )->Ok_0;
            let e = Stored {
                name: names::valid_name(name, windows)->0,
                meta,
                data,
                comment,
                streamed: false,
            };
            &&& layout::holds(bytes + added, next, es.push(e))
            &&& e.valid(windows)
            &&& layout::stripped_names(es).no_duplicates() ==> layout::stripped_names(
                es.push(e),
            ).no_duplicates()
        }),
{
    let (added, next) = raw::file_written(state, name, data, meta, comment, windows)->Ok_0;
    let e = Stored {
        name: names::valid_name(name, windows)->0,
        meta,
        data,
        comment,
        streamed: false,
    };
    assert(e.bytes() =~= added);
    lemma_ended(bytes, state, es, e);
    lemma_valid(name, state.names, e, windows);
}

/// Streaming an entry to an archive, from its header to its descriptor, adds exactly this entry.
pub proof fn lemma_streamed(
    bytes: Seq<u8>,
    state: RawView,
    es: Seq<Stored>,
    name: Seq<u8>,
    data: Seq<u8>,
    options: FileOptions,
    uncompressed_size: u64,
    crc: u32,
    comment: Seq<u8>,
    windows: bool,
)
    requires
        layout::holds(bytes, state, es),
        raw::begun(state, name, FileType::File, windows) is Ok,
        valid_utf8(name),
        valid_utf8(comment),
        comment.len() <= raw::MAX_TEXT,
        data.len() <= i64::MAX,
        options.compression_method.0 != CompressionMethod::AES,
        options.compression_method.0 == CompressionMethod::STORE ==> uncompressed_size
            == data.len(),
        bytes.len() + raw::local_record(
            names::valid_name(name, windows)->0,
            raw::streamed(options, 0, 0),
            0,
            true,
        ).len() + data.len() + raw::descriptor(
            uncompressed_size,
            data.len() as u64,
            crc,
        ).len() <= u64::MAX,
    ensures
        ({
            let s = names::valid_name(name, windows)->0;
            let meta = raw::streamed(options, uncompressed_size, crc);
            let header = raw::local_record(s, raw::streamed(options, 0, 0), 0, true);
            let descriptor = raw::descriptor(uncompressed_size, data.len() as u64, crc);
            let e = Stored { name: s, meta, data, comment, streamed: true };
            let written = (header.len() + data.len() + descriptor.len()) as u64;
            let started = RawView { writing: Some(state.position), ..state };
            &&& layout::holds(
                bytes + header + data + descriptor,
                raw::ended(started, s, meta, data.len() as u64, true, comment, written),
                es.push(e),
            )
            &&& e.valid(windows)
            &&& layout::stripped_names(es).no_duplicates() ==> layout::stripped_names(
                es.push(e),
            ).no_duplicates()
        }),
{
    let s = names::valid_name(name, windows)->0;
    let meta = raw::streamed(options, uncompressed_size, crc);
    let header = raw::local_record(s, raw::streamed(options, 0, 0), 0, true);
    let descriptor = raw::descriptor(uncompressed_size, data.len() as u64, crc);
    let e = Stored { name: s, meta, data, comment, streamed: true };
    let started = RawView { writing: Some(state.position), ..state };
    assert(Metadata { uncompressed_size: 0, crc32: 0, ..meta } == raw::streamed(options, 0, 0));
    assert(e.bytes() =~= header + data + descriptor);
    assert(bytes + e.bytes() =~= bytes + header + data + descriptor);
    lemma_ended(bytes, state, es, e);
    lemma_valid(name, state.names, e, windows);
    let written = (header.len() + data.len() + descriptor.len()) as u64;
    assert(raw::ended(started, s, meta, data.len() as u64, true, comment, written) =~= raw::ended(
        state,
        s,
        meta,
        data.len() as u64,
        true,
        comment,
        written,
    ));
}

/// Recovering from an entry that was started but not finished leaves the entries before it.
pub proof fn lemma_recovered(bytes: Seq<u8>, state: RawView, es: Seq<Stored>, more: Seq<u8>)
    requires
        layout::holds(bytes, state, es),
    ensures
        ({
            let started = RawView { writing: Some(state.position), ..state };
            &&& layout::holds(
                (bytes + more).take(state.position as int),
                RawView { writing: None, position: state.position, ..started },
                es,
            )
            &&& raw::recovered(started) == state
            &&& raw::recovered(state) == state
            &&& raw::kept(started, bytes + more) == bytes
            &&& raw::kept(state, bytes) == bytes
        }),
{
    assert((bytes + more).take(state.position as int) =~= bytes);
}

/// An archive that is finished reads as the entries that were written.
pub proof fn lemma_finished(bytes: Seq<u8>, state: RawView, es: Seq<Stored>, windows: bool)
    requires
        layout::holds(bytes, state, es),
        roundtrip::archivable(es, windows),
    ensures
        ({
            let d = bytes + state.central + raw::end_records(
                state.names.len() as u64,
                state.position,
                state.central.len() as u64,
            );
            &&& d == layout::archive(es)
            &&& raw::finished(state, bytes) == Ok::<Seq<u8>, Error>(d)
            &&& scanner::archive_of(d, windows) == Ok::<ArchiveView, Error>(
                ArchiveView { entries: roundtrip::all_read(es), comment: Seq::empty() },
            )
        }),
{
    reveal(layout::archive);
    roundtrip::lemma_round_trip(es, windows);
}

/// An archive cannot be finished, and no entry can be added to it, while an entry is not finished.
pub proof fn lemma_unfinished(
    bytes: Seq<u8>,
    state: RawView,
    name: Seq<u8>,
    data: Seq<u8>,
    meta: Metadata,
    comment: Seq<u8>,
    windows: bool,
)
    requires
        state.writing is Some,
    ensures
        raw::finished(state, bytes) == Err::<Seq<u8>, Error>(Error::NotFinished),
        raw::begun(state, name, meta.typ, windows) is Err,
        raw::file_written(state, name, data, meta, comment, windows) is Err,
        raw::file_written(raw::recovered(state), name, data, meta, comment, windows) is Err
            ==> raw::file_written(state, name, data, meta, comment, windows) == raw::file_written(
            raw::recovered(state),
            name,
            data,
            meta,
            comment,
            windows,
        ),
{
}

/// The content of an entry that was written is read back from the archive.
pub proof fn lemma_content(es: Seq<Stored>, i: int, content: Seq<u8>, windows: bool)
    requires
        roundtrip::archivable(es, windows),
        0 <= i < es.len(),
        es[i].meta.compression_method.supported(),
        compression::stands_for(es[i].meta.compression_method, es[i].data, content),
        es[i].meta.uncompressed_size == content.len(),
        es[i].meta.crc32 == crc32::crc32_of(content),
        content.len() < usize::MAX,
    ensures
        metadata::content(roundtrip::read_back(es, i), layout::archive(es)) == Ok::<
            Seq<u8>,
            Error,
        >(content),
{
    let d = layout::archive(es);
    let m = roundtrip::read_back(es, i);
    roundtrip::lemma_data_at(es, i);
    assert(metadata::raw_data(m, d) =~= es[i].data);
    let limit = metadata::look_ahead(m.uncompressed_size);
    assert(compression::decompressed(m.compression_method, es[i].data, limit) == Ok::<
        Seq<u8>,
        Error,
    >(content));
}

/// A directory that was written is read back with an empty content.
pub proof fn lemma_directory_content(es: Seq<Stored>, i: int, windows: bool)
    requires
        roundtrip::archivable(es, windows),
        0 <= i < es.len(),
        es[i].meta == directory_metadata(),
        es[i].data == Seq::<u8>::empty(),
    ensures
        metadata::content(roundtrip::read_back(es, i), layout::archive(es)) == Ok::<
            Seq<u8>,
            Error,
        >(Seq::empty()),
{
    crc32::lemma_empty(0);
    lemma_content(es, i, Seq::empty(), windows);
}

/// The target of a symlink that was written is read back from the archive.
pub proof fn lemma_symlink_content(es: Seq<Stored>, i: int, windows: bool)
    requires
        roundtrip::archivable(es, windows),
        0 <= i < es.len(),
        es[i].meta == symlink_metadata(es[i].data),
        es[i].data.len() < usize::MAX,
    ensures
        metadata::content(roundtrip::read_back(es, i), layout::archive(es)) == Ok::<
            Seq<u8>,
            Error,
        >(es[i].data),
{
    lemma_content(es, i, es[i].data, windows);
}

/// The entry of a written archive that has a given name is the one that was written under this
/// name.
pub proof fn lemma_found_by_name(es: Seq<Stored>, i: int, m: MetadataView)
    requires
        layout::stripped_names(es).no_duplicates(),
        0 <= i < es.len(),
        roundtrip::all_read(es).contains(m),
        m.name == es[i].name,
    ensures
        m == roundtrip::read_back(es, i),
{
    let j = choose|j: int| 0 <= j < es.len() && roundtrip::all_read(es)[j] == m;
    let ns = layout::stripped_names(es);
    assert(ns[i] == names::stripped(es[i].name));
    assert(ns[j] == names::stripped(es[j].name));
}

/// An archive with a single entry is not longer than a file can be.
proof fn lemma_single_len(e: Stored)
    requires
        e.name.len() <= raw::MAX_TEXT,
        e.comment.len() <= raw::MAX_TEXT,
        e.data.len() <= i64::MAX,
        !e.streamed,
    ensures
        layout::body(seq![e]) == e.bytes(),
        layout::body(seq![e]).len() <= layout::archive(seq![e]).len() <= u64::MAX,
{
    reveal_with_fuel(layout::body, 2);
    reveal_with_fuel(layout::central, 2);
    reveal(layout::archive);
    reveal(raw::end_records);
    reveal(raw::local_record);
    reveal(raw::central_record);
    let es = seq![e];
    assert(es.drop_last() =~= Seq::<Stored>::empty());
    assert(layout::body(es) =~= e.bytes());
    assert(layout::central(es) =~= e.central(0));
    raw::local_header(e.name.len(), e.meta, false).lemma_parse_bytes(Seq::empty());
    raw::central_header(e.name.len(), e.comment.len(), e.meta, false).lemma_parse_bytes(
        Seq::empty(),
    );
    headers::lemma_time_field(e.meta.modified_at);
    assert(e.bytes().len() <= e.data.len() + raw::MAX_TEXT + 86);
    assert(e.central(0).len() <= 2 * raw::MAX_TEXT + 110);
    let entries = es.len() as u64;
    let offset = layout::body(es).len() as u64;
    let size = layout::central(es).len() as u64;
    raw::eocd64(entries, offset, size).lemma_parse_bytes(Seq::empty());
    raw::locator((offset + size) as u64).lemma_parse_bytes(Seq::empty());
    raw::eocd().lemma_parse_bytes(Seq::empty());
}

/// A file that is added to a new archive comes back from it: every allowed name that fits is taken,
/// the finished archive opens, and its only entry has the canonical form of the name, the metadata
/// of the file and its content.
pub proof fn lemma_file_comes_back(
    name: Seq<u8>,
    content: Seq<u8>,
    options: FileOptions,
    data: Seq<u8>,
    windows: bool,
)
    requires
        valid_utf8(name),
        name.len() <= raw::MAX_TEXT,
        names::valid_name(name, windows) is Some,
        !names::ends_with_slash(names::valid_name(name, windows)->0),
        compression::compressed(options.compression_method, content) == Ok::<Seq<u8>, Error>(data),
        compression::stands_for(options.compression_method, data, content),
        content.len() < usize::MAX,
        data.len() <= i64::MAX,
    ensures
        ({
            let state = RawView {
                writing: None,
                names: Seq::empty(),
                central: Seq::empty(),
                position: 0,
            };
            let meta = file_metadata(options, content);
            match raw::file_written(state, name, data, meta, Seq::empty(), windows) {
                Err(_) => false,
                Ok((bytes, state)) => {
                    let d = bytes + state.central + raw::end_records(
                        state.names.len() as u64,
                        state.position,
                        state.central.len() as u64,
                    );
                    match scanner::archive_of(d, windows) {
                        Err(_) => false,
                        Ok(a) => {
                            let m = a.entries[0];
                            &&& a.entries.len() == 1
                            &&& m.name == names::valid_name(name, windows)->0
                            &&& m.file_type is File
                            &&& m.uncompressed_size == content.len()
                            &&& m.compressed_size == data.len()
                            &&& m.crc32 == crc32::crc32_of(content)
                            &&& m.compression_method == options.compression_method
                            &&& m.encryption is None
                            &&& m.modification_time == headers::time_read(options.modified_at)
                            &&& metadata::raw_data(m, d) == data
                            &&& metadata::content(m, d) == Ok::<Seq<u8>, Error>(content)
                        },
                    }
                },
            }
        }),
{
    let state = RawView { writing: None, names: Seq::empty(), central: Seq::empty(), position: 0 };
    let meta = file_metadata(options, content);
    let e = Stored {
        name: names::valid_name(name, windows)->0,
        meta,
        data,
        comment: Seq::empty(),
        streamed: false,
    };
    let es = seq![e];
    lemma_new();
    names::lemma_joined_len(name);
    lemma_single_len(e);
    lemma_file_written(Seq::empty(), state, Seq::empty(), name, data, meta, Seq::empty(), windows);
    assert(Seq::<Stored>::empty().push(e) =~= es);
    let (bytes, next) = raw::file_written(
        state,
        name,
        data,
        meta,
        Seq::empty(),
        windows,
    )->Ok_0;
    assert(Seq::<u8>::empty() + bytes =~= bytes);
    assert(layout::stripped_names(Seq::empty()).no_duplicates());
    assert(roundtrip::archivable(es, windows));
    lemma_finished(bytes, next, es, windows);
    lemma_content(es, 0, content, windows);
    roundtrip::lemma_data_at(es, 0);
    assert(metadata::raw_data(roundtrip::read_back(es, 0), layout::archive(es)) =~= data);
}

/// A name under which an entry can start to be written: it is not longer than 65535 bytes, it is
/// allowed, its canonical form ends with a slash exactly for a directory, no entry has the same name
/// but for a trailing slash, and no other entry is still being written. The entry has the canonical
/// form of the name.
pub proof fn lemma_accepted(state: RawView, name: Seq<u8>, typ: FileType, windows: bool)
    ensures
        ({
            let r = raw::begun(state, name, typ, windows);
            if name.len() > 65535 {
                r == Err::<Seq<u8>, Error>(Error::FileNameTooLong)
            } else {
                match names::valid_name(name, windows) {
                    None => r == Err::<Seq<u8>, Error>(Error::InvalidFileName),
                    Some(c) => {
                        let bare = if c.len() > 0 && c.last() == 0x2f {
                            c.take(c.len() - 1)
                        } else {
                            c
                        };
                        if (typ is Directory) != (c.len() > 0 && c.last() == 0x2f) {
                            r == Err::<Seq<u8>, Error>(Error::InvalidFileName)
                        } else if exists|i: int|
                            0 <= i < state.names.len() && #[trigger] state.names[i] == bare {
                            r == Err::<Seq<u8>, Error>(Error::DuplicatedFileName)
                        } else if state.writing is Some {
                            r == Err::<Seq<u8>, Error>(Error::NotFinished)
                        } else {
                            r == Ok::<Seq<u8>, Error>(c)
                        }
                    },
                }
            }
        }),
{
    match names::valid_name(name, windows) {
        Some(c) => {
            if c.len() > 0 {
                assert(c.take(c.len() - 1) =~= c.drop_last());
            }
        },
        None => {},
    }
}

/// Writing an entry with a comment of at most 65535 bytes writes what precedes its data, and the data.
/// What the central directory says of it tells of the place where it starts, and its name is taken
/// then.
pub proof fn lemma_written_entry(
    state: RawView,
    name: Seq<u8>,
    data: Seq<u8>,
    meta: Metadata,
    comment: Seq<u8>,
    windows: bool,
)
    requires
        data.len() <= i64::MAX,
    ensures
        ({
            let r = raw::file_written(state, name, data, meta, comment, windows);
            let size = data.len() as u64;
            if comment.len() > 65535 {
                r == Err::<(Seq<u8>, RawView), Error>(Error::CommentTooLong)
            } else {
                match raw::begun(state, name, meta.typ, windows) {
                    Err(e) => r == Err::<(Seq<u8>, RawView), Error>(e),
                    Ok(c) => {
                        &&& r matches Ok((bytes, next))
                        &&& bytes == raw::local_record(c, meta, size, false) + data
                        &&& next.writing is None
                        &&& next.names == state.names.push(names::stripped(c))
                        &&& next.central == state.central + raw::central_record(
                            c,
                            meta,
                            size,
                            false,
                            state.position,
                            comment,
                        )
                        &&& state.position + bytes.len() <= u64::MAX ==> next.position
                            == state.position + bytes.len()
                    },
                }
            }
        }),
{
}

/// What is known of an entry that is written: its type, its method, and the length and the checksum
/// of its content. Directories and symlinks are stored as they are, without a modification time.
pub proof fn lemma_kinds(options: FileOptions, content: Seq<u8>)
    requires
        content.len() <= u64::MAX,
    ensures
        ({
            let file = file_metadata(options, content);
            let link = symlink_metadata(content);
            let directory = directory_metadata();
            &&& file.typ is File && link.typ is Symlink && directory.typ is Directory
            &&& file.compression_method == options.compression_method
            &&& link.compression_method.0 == 0 && directory.compression_method.0 == 0
            &&& file.uncompressed_size == content.len() && link.uncompressed_size == content.len()
            &&& directory.uncompressed_size == 0
            &&& file.crc32 == crc32::crc32_of(content) && link.crc32 == crc32::crc32_of(content)
            &&& directory.crc32 == crc32::crc32_of(Seq::empty())
            &&& file.modified_at == options.modified_at
            &&& link.modified_at.0 == 0 && directory.modified_at.0 == 0
        }),
{
    crc32::lemma_empty(0);
}

/// A directory that is added to a new archive comes back from it, empty.
pub proof fn lemma_directory_comes_back(name: Seq<u8>, windows: bool)
    requires
        valid_utf8(name),
        name.len() <= raw::MAX_TEXT,
        names::valid_name(name, windows) is Some,
        names::ends_with_slash(names::valid_name(name, windows)->0),
    ensures
        ({
            let state = RawView {
                writing: None,
                names: Seq::empty(),
                central: Seq::empty(),
                position: 0,
            };
            match raw::file_written(
                state,
                name,
                Seq::empty(),
                directory_metadata(),
                Seq::empty(),
                windows,
            ) {
                Err(_) => false,
                Ok((bytes, state)) => {
                    let d = bytes + state.central + raw::end_records(
                        state.names.len() as u64,
                        state.position,
                        state.central.len() as u64,
                    );
                    match scanner::archive_of(d, windows) {
                        Err(_) => false,
                        Ok(a) => {
                            let m = a.entries[0];
                            &&& a.entries.len() == 1
                            &&& m.name == names::valid_name(name, windows)->0
                            &&& m.file_type is Directory
                            &&& m.modification_time is None
                            &&& m.encryption is None
                            &&& metadata::content(m, d) == Ok::<Seq<u8>, Error>(Seq::empty())
                        },
                    }
                },
            }
        }),
{
    crc32::lemma_empty(0);
    assert(compression::stands_for(CompressionMethod(0), Seq::empty(), Seq::empty()));
    lemma_single(name, Seq::empty(), directory_metadata(), Seq::empty(), windows);
}

/// A symlink that is added to a new archive comes back from it, with its target.
pub proof fn lemma_symlink_comes_back(name: Seq<u8>, target: Seq<u8>, windows: bool)
    requires
        valid_utf8(name),
        name.len() <= raw::MAX_TEXT,
        names::valid_name(name, windows) is Some,
        !names::ends_with_slash(names::valid_name(name, windows)->0),
        target.len() < usize::MAX,
        target.len() <= i64::MAX,
    ensures
        ({
            let state = RawView {
                writing: None,
                names: Seq::empty(),
                central: Seq::empty(),
                position: 0,
            };
            match raw::file_written(
                state,
                name,
                target,
                symlink_metadata(target),
                Seq::empty(),
                windows,
            ) {
                Err(_) => false,
                Ok((bytes, state)) => {
                    let d = bytes + state.central + raw::end_records(
                        state.names.len() as u64,
                        state.position,
                        state.central.len() as u64,
                    );
                    match scanner::archive_of(d, windows) {
                        Err(_) => false,
                        Ok(a) => {
                            let m = a.entries[0];
                            &&& a.entries.len() == 1
                            &&& m.name == names::valid_name(name, windows)->0
                            &&& m.file_type is Symlink
                            &&& m.modification_time is None
                            &&& m.encryption is None
                            &&& metadata::content(m, d) == Ok::<Seq<u8>, Error>(target)
                        },
                    }
                },
            }
        }),
{
    assert(compression::stands_for(CompressionMethod(0), target, target));
    lemma_single(name, target, symlink_metadata(target), target, windows);
}

/// An entry that is added to a new archive comes back from it.
proof fn lemma_single(
    name: Seq<u8>,
    data: Seq<u8>,
    meta: Metadata,
    content: Seq<u8>,
    windows: bool,
)
    requires
        valid_utf8(name),
        name.len() <= raw::MAX_TEXT,
        names::valid_name(name, windows) is Some,
        names::ends_with_slash(names::valid_name(name, windows)->0) == (meta.typ is Directory),
        meta.compression_method.supported(),
        compression::stands_for(meta.compression_method, data, content),
        meta.compression_method.0 == CompressionMethod::STORE ==> meta.uncompressed_size
            == data.len(),
        meta.typ is Directory ==> meta.uncompressed_size == 0,
        meta.uncompressed_size == content.len(),
        meta.crc32 == crc32::crc32_of(content),
        content.len() < usize::MAX,
        data.len() <= i64::MAX,
    ensures
        ({
            let state = RawView {
                writing: None,
                names: Seq::empty(),
                central: Seq::empty(),
                position: 0,
            };
            match raw::file_written(state, name, data, meta, Seq::empty(), windows) {
                Err(_) => false,
                Ok((bytes, state)) => {
                    let d = bytes + state.central + raw::end_records(
                        state.names.len() as u64,
                        state.position,
                        state.central.len() as u64,
                    );
                    match scanner::archive_of(d, windows) {
                        Err(_) => false,
                        Ok(a) => {
                            let m = a.entries[0];
                            &&& a.entries.len() == 1
                            &&& m.name == names::valid_name(name, windows)->0
                            &&& m.file_type == meta.typ
                            &&& m.encryption is None
                            &&& m.modification_time == headers::time_read(meta.modified_at)
                            &&& metadata::content(m, d) == Ok::<Seq<u8>, Error>(content)
                        },
                    }
                },
            }
        }),
{
    let state = RawView { writing: None, names: Seq::empty(), central: Seq::empty(), position: 0 };
    let e = Stored {
        name: names::valid_name(name, windows)->0,
        meta,
        data,
        comment: Seq::empty(),
        streamed: false,
    };
    let es = seq![e];
    lemma_new();
    names::lemma_joined_len(name);
    lemma_single_len(e);
    lemma_file_written(Seq::empty(), state, Seq::empty(), name, data, meta, Seq::empty(), windows);
    assert(Seq::<Stored>::empty().push(e) =~= es);
    let (bytes, next) = raw::file_written(
        state,
        name,
        data,
        meta,
        Seq::empty(),
        windows,
    )->Ok_0;
    assert(Seq::<u8>::empty() + bytes =~= bytes);
    assert(layout::stripped_names(Seq::empty()).no_duplicates());
    assert(roundtrip::archivable(es, windows));
    lemma_finished(bytes, next, es, windows);
    lemma_content(es, 0, content, windows);
}

} // verus!
