//! What reading and extracting an entry gives.
use crate::compression;
use crate::compression::CompressionMethod;
use crate::error::{Error, ErrorKind};
use crate::laws::headers;
use crate::laws::paths;
use crate::laws::plain;
use crate::laws::plain::Plain;
use crate::laws::reading;
use crate::laws::roundtrip;
use crate::laws::writing;
use crate::read::metadata;
use crate::read::metadata::{ExtractionView, MetadataView};
use crate::read::scanner;
use crate::utils::crc32;
use crate::utils::names;
use crate::utils::FileType;
use crate::write::layout;
use crate::write::layout::Stored;
use vstd::prelude::*;
use vstd::utf8::*;

verus! {

/// The number of bytes that are asked of a decoder: one more than the content should have, so that
/// a content that is too long is noticed.
pub open spec fn asked(size: u64) -> u64 {
    if size < 0xffff_ffff_ffff_ffff {
        (size + 1) as u64
    } else {
        size
    }
}

/// Whether data stands for a content: as it is for method 0, through the deflate decoder for method
/// 8, and through the zstd decoder for method 93.
pub open spec fn decodes_to(method: u16, data: Seq<u8>, content: Seq<u8>) -> bool {
    let limit = asked(content.len() as u64);
    ||| method == 0 && data == content
    ||| method == 8 && compression::inflated(data, limit) == Ok::<Seq<u8>, ErrorKind>(content)
    ||| method == 93 && compression::zstd_decoded(data, limit) == Ok::<Seq<u8>, ErrorKind>(content)
}

/// Whether a content is the one of an entry with this data: the entry is not encrypted, the data
/// stands for the content, and the content has the length and the checksum that are told.
pub open spec fn is_content(m: MetadataView, data: Seq<u8>, content: Seq<u8>) -> bool {
    &&& m.encryption is None
    &&& m.uncompressed_size <= usize::MAX
    &&& content.len() == m.uncompressed_size
    &&& crc32::crc32_of(content) == m.crc32
    &&& decodes_to(m.compression_method.0, data, content)
}

/// The bytes of an entry that lie in a file from its offset on, where the file holds them all.
pub open spec fn data_in(m: MetadataView, d: Seq<u8>) -> Seq<u8> {
    d.subrange(m.data_offset as int, m.data_offset + m.compressed_size)
}

/// The data of an entry is what lies in a file from its offset on, as long as is told and as far as
/// the file goes.
pub proof fn lemma_data(m: MetadataView, d: Seq<u8>)
    ensures
        ({
            let data = metadata::raw_data(m, d);
            let there = if m.data_offset < d.len() {
                d.len() - m.data_offset
            } else {
                0
            };
            &&& data.len() == (if m.compressed_size < there {
                m.compressed_size as int
            } else {
                there
            })
            &&& forall|i: int| 0 <= i < data.len() ==> data[i] == d[m.data_offset + i]
        }),
{
}

/// Reading data succeeds with a content exactly where it is the content of the entry.
pub proof fn lemma_content_of(m: MetadataView, data: Seq<u8>, content: Seq<u8>)
    requires
        data.len() <= u64::MAX,
    ensures
        metadata::content_of(m, data) == Ok::<Seq<u8>, Error>(content) <==> is_content(
            m,
            data,
            content,
        ),
{
    let limit = metadata::look_ahead(m.uncompressed_size);
    assert(limit == asked(m.uncompressed_size));
    if m.compression_method.0 == 0 {
        if data.len() > limit {
            assert(compression::cut(data, limit).len() == limit);
        }
    }
}

/// Reading an entry whose data is all there succeeds with a content exactly where it is the content
/// of the entry.
pub proof fn lemma_read(m: MetadataView, d: Seq<u8>, content: Seq<u8>)
    requires
        m.data_offset + m.compressed_size <= d.len() <= u64::MAX,
    ensures
        metadata::content(m, d) == Ok::<Seq<u8>, Error>(content) <==> is_content(
            m,
            data_in(m, d),
            content,
        ),
{
    lemma_content_of(m, data_in(m, d), content);
}

/// Why reading fails: an encrypted entry, a method other than 0, 8 and 93, a decoder that fails, a
/// content that does not have the length that is told, and one that does not have the checksum, in
/// this order.
pub proof fn lemma_read_errors(m: MetadataView, data: Seq<u8>)
    requires
        data.len() <= u64::MAX,
    ensures
        ({
            let r = metadata::content_of(m, data);
            let method = m.compression_method.0;
            let limit = asked(m.uncompressed_size);
            let decoded = if method == 0 {
                Ok::<Seq<u8>, ErrorKind>(data)
            } else if method == 8 {
                compression::inflated(data, limit)
            } else {
                compression::zstd_decoded(data, limit)
            };
            if m.encryption is Some {
                r == Err::<Seq<u8>, Error>(Error::EncryptedFile)
            } else if method != 0 && method != 8 && method != 93 {
                r == Err::<Seq<u8>, Error>(Error::UnsupportedMethod(m.compression_method))
            } else if m.uncompressed_size > usize::MAX {
                r == Err::<Seq<u8>, Error>(Error::OutOfMemory)
            } else {
                match decoded {
                    Err(kind) => r == Err::<Seq<u8>, Error>(Error::CorruptedContent(kind)),
                    Ok(content) => if content.len() != m.uncompressed_size {
                        r == Err::<Seq<u8>, Error>(Error::BadLength)
                    } else if crc32::crc32_of(content) != m.crc32 {
                        r == Err::<Seq<u8>, Error>(Error::BadCrc32)
                    } else {
                        r == Ok::<Seq<u8>, Error>(content)
                    },
                }
            }
        }),
{
    let limit = asked(m.uncompressed_size);
    if m.compression_method.0 == 0 && data.len() > limit {
        assert(compression::cut(data, limit).len() == limit);
    }
}

/// Reading without a copy succeeds exactly for an entry that is stored as it is, is not encrypted
/// and has the checksum that is told, and gives its data.
pub proof fn lemma_read_stored(m: MetadataView, d: Seq<u8>, content: Seq<u8>)
    requires
        m.data_offset + m.compressed_size <= d.len(),
    ensures
        metadata::stored_content(m, d) == Ok::<Seq<u8>, Error>(content) <==> {
            &&& m.encryption is None
            &&& m.compression_method.0 == 0
            &&& content == data_in(m, d)
            &&& crc32::crc32_of(content) == m.crc32
        },
{
}

/// Why reading without a copy fails: an encrypted entry, a method other than 0, and data that does not
/// have the checksum, in this order.
pub proof fn lemma_read_stored_errors(m: MetadataView, d: Seq<u8>)
    ensures
        ({
            let r = metadata::stored_content(m, d);
            if m.encryption is Some {
                r == Err::<Seq<u8>, Error>(Error::EncryptedFile)
            } else if m.compression_method.0 != 0 {
                r == Err::<Seq<u8>, Error>(Error::CompressedFile)
            } else {
                r is Ok || r == Err::<Seq<u8>, Error>(Error::BadCrc32)
            }
        }),
{
}

/// An entry of an opened archive whose flags have bit 0 clear, whatever the other bits are, is not
/// encrypted: it reads as the content that its data stands for, where this has the length and the
/// checksum that its headers tell.
pub proof fn lemma_opened_read(d: Seq<u8>, windows: bool, i: int, content: Seq<u8>)
    requires
        d.len() <= u64::MAX,
        scanner::archive_of(d, windows) is Ok,
        0 <= i < scanner::archive_of(d, windows)->Ok_0.entries.len(),
        ({
            let m = scanner::archive_of(d, windows)->Ok_0.entries[i];
            &&& !plain::bit_set(m.flags, 0)
            &&& decodes_to(m.compression_method.0, data_in(m, d), content)
            &&& content.len() == m.uncompressed_size
            &&& crc32::crc32_of(content) == m.crc32
        }),
        content.len() <= usize::MAX,
    ensures
        metadata::content(scanner::archive_of(d, windows)->Ok_0.entries[i], d) == Ok::<
            Seq<u8>,
            Error,
        >(content),
{
    let m = scanner::archive_of(d, windows)->Ok_0.entries[i];
    let _ = reading::lemma_opened(d, windows);
    assert(reading::flagged(m));
    lemma_read(m, d, content);
}

/// Why extracting fails: reading an entry that is a file or a symlink does, the target of a symlink
/// is not UTF-8, or it is not one that the symlink may have.
pub proof fn lemma_extraction_errors(m: MetadataView, d: Seq<u8>, windows: bool)
    ensures
        ({
            let r = metadata::extraction(m, d, windows);
            match metadata::content(m, d) {
                Err(e) => !(m.file_type is Directory) ==> r == Err::<ExtractionView, Error>(e),
                Ok(content) => m.file_type is Symlink ==> {
                    &&& !valid_utf8(content) ==> r == Err::<ExtractionView, Error>(
                        Error::InvalidUtf8,
                    )
                    &&& valid_utf8(content) && r is Err ==> r == Err::<ExtractionView, Error>(
                        Error::InvalidSymlink,
                    )
                },
            }
        }),
{
}

/// Extracting an entry gives a file exactly for the content of an entry that is a file, with its
/// modification time, a directory exactly for a directory, and a symlink exactly for the content of
/// an entry that is a symlink, where this content is a text that the symlink may have as a target.
pub proof fn lemma_extraction(m: MetadataView, d: Seq<u8>, windows: bool, x: ExtractionView)
    requires
        m.data_offset + m.compressed_size <= d.len() <= u64::MAX,
    ensures
        metadata::extraction(m, d, windows) == Ok::<ExtractionView, Error>(x) <==> match x {
            ExtractionView::File { content, modified } => {
                &&& m.file_type is File
                &&& is_content(m, data_in(m, d), content)
                &&& modified == m.modification_time
            },
            ExtractionView::Directory => m.file_type is Directory,
            ExtractionView::Symlink { target } => {
                &&& m.file_type is Symlink
                &&& is_content(m, data_in(m, d), target)
                &&& valid_utf8(target)
                &&& paths::clean(target, windows)
                &&& paths::ups(paths::split(target)) < paths::split(m.name).len()
                &&& forall|i: int, j: int|
                    0 <= i < j < paths::split(target).len() && paths::named(
                        #[trigger] paths::split(target)[i],
                    ) && !paths::up(paths::split(target)[i]) ==> !paths::up(
                        #[trigger] paths::split(target)[j],
                    )
            },
        },
{
    match x {
        ExtractionView::File { content, modified } => {
            lemma_read(m, d, content);
        },
        ExtractionView::Directory => {},
        ExtractionView::Symlink { target } => {
            lemma_read(m, d, target);
            paths::lemma_symlink_targets(m.name, target, windows);
        },
    }
}

/// A file that was written with a content is extracted with this content and its modification time.
pub proof fn lemma_written_file_extracted(es: Seq<Stored>, i: int, content: Seq<u8>, windows: bool)
    requires
        roundtrip::archivable(es, windows),
        0 <= i < es.len(),
        es[i].meta.typ is File,
        es[i].meta.compression_method.0 == 0 || es[i].meta.compression_method.0 == 8
            || es[i].meta.compression_method.0 == 93,
        compression::stands_for(es[i].meta.compression_method, es[i].data, content),
        es[i].meta.uncompressed_size == content.len(),
        es[i].meta.crc32 == crc32::crc32_of(content),
        content.len() < usize::MAX,
    ensures
        metadata::extraction(roundtrip::read_back(es, i), layout::archive(es), windows) == Ok::<
            ExtractionView,
            Error,
        >(
            ExtractionView::File {
                content,
                modified: headers::time_read(es[i].meta.modified_at),
            },
        ),
{
    writing::lemma_content(es, i, content, windows);
}

/// A symlink that was written is extracted with its target, where it may have this target.
pub proof fn lemma_written_symlink_extracted(es: Seq<Stored>, i: int, windows: bool)
    requires
        roundtrip::archivable(es, windows),
        0 <= i < es.len(),
        es[i].meta == crate::write::symlink_metadata(es[i].data),
        es[i].data.len() < usize::MAX,
        valid_utf8(es[i].data),
        names::valid_symlink(es[i].name, es[i].data, windows),
    ensures
        metadata::extraction(roundtrip::read_back(es, i), layout::archive(es), windows) == Ok::<
            ExtractionView,
            Error,
        >(ExtractionView::Symlink { target: es[i].data }),
{
    writing::lemma_symlink_content(es, i, windows);
}

/// A directory that was written is extracted as a directory.
pub proof fn lemma_written_directory_extracted(es: Seq<Stored>, i: int, windows: bool)
    requires
        0 <= i < es.len(),
        es[i].meta.typ is Directory,
    ensures
        metadata::extraction(roundtrip::read_back(es, i), layout::archive(es), windows) == Ok::<
            ExtractionView,
            Error,
        >(ExtractionView::Directory),
{
}

/// An entry of an archive in plain form whose flags have bit 0 clear, whatever the other bits are,
/// reads as the content that its data stands for, and is extracted with it where it is a file.
pub proof fn lemma_plain_read(
    prefix: Seq<u8>,
    es: Seq<Plain>,
    comment: Seq<u8>,
    windows: bool,
    i: int,
    content: Seq<u8>,
)
    requires
        plain::archivable(prefix, es, comment, windows),
        0 <= i < es.len(),
        !plain::bit_set(es[i].flags, 0),
        decodes_to(es[i].method, es[i].data, content),
        content.len() == es[i].content_len,
        crc32::crc32_of(content) == es[i].crc32,
        content.len() <= usize::MAX,
    ensures
        ({
            let d = plain::archive(prefix, es, comment);
            let m = plain::views(prefix, es, windows)[i];
            &&& metadata::content(m, d) == Ok::<Seq<u8>, Error>(content)
            &&& m.file_type is File ==> metadata::extraction(m, d, windows) == Ok::<
                ExtractionView,
                Error,
            >(ExtractionView::File { content, modified: None })
        }),
{
    let m = plain::views(prefix, es, windows)[i];
    plain::lemma_opens(prefix, es, comment, windows);
    lemma_content_of(m, es[i].data, content);
}

} // verus!
