//! Utilities to write an archive.
use crate::compression;
use crate::compression::CompressionMethod;
use crate::error::Error;
use crate::utils::crc32;
use crate::utils::crc32::Crc32Writer;
use crate::utils::{FileType, Timestamp};
use crate::write::raw::{RawArchiveWriter, RawFileStreamer, RawView};
use vstd::prelude::*;
use vstd::string::*;
use vstd::utf8::*;

pub mod layout;
pub mod raw;

verus! {

/// The options used when adding a file to an archive.
#[derive(Debug, Clone, Copy)]
#[non_exhaustive]
pub struct FileOptions {
    /// The compression method.
    pub compression_method: CompressionMethod,
    /// The compression level.
    pub level: Option<i32>,
    /// The modification time of the entry.
    ///
    /// Default value is the UNIX epoch, which means that this field is
    /// ignored. So is a time later than [`raw::LATEST_TIME`], which an
    /// archive has no room for.
    pub modified_at: Timestamp,
}

impl Default for FileOptions {
    /// Files are stored as they are, without a modification time.
    fn default() -> (r: FileOptions)
        ensures
            r.compression_method.0 == CompressionMethod::STORE,
            r.level is None,
            r.modified_at == Timestamp(0),
    {
        FileOptions {
            compression_method: CompressionMethod(CompressionMethod::STORE),
            level: None,
            modified_at: Timestamp(Timestamp::UNIX_EPOCH),
        }
    }
}

/// What is known of a file with this content.
pub open spec fn file_metadata(options: FileOptions, content: Seq<u8>) -> raw::Metadata {
    raw::streamed(options, content.len() as u64, crc32::crc32_of(content))
}

/// What is known of a directory: its content is empty.
pub open spec fn directory_metadata() -> raw::Metadata {
    raw::Metadata {
        compression_method: CompressionMethod(CompressionMethod::STORE),
        uncompressed_size: 0,
        crc32: 0,
        typ: FileType::Directory,
        modified_at: Timestamp(0),
    }
}

/// What is known of a symlink with this target.
pub open spec fn symlink_metadata(target: Seq<u8>) -> raw::Metadata {
    raw::Metadata {
        compression_method: CompressionMethod(CompressionMethod::STORE),
        uncompressed_size: target.len() as u64,
        crc32: crc32::crc32_of(target),
        typ: FileType::Symlink,
        modified_at: Timestamp(0),
    }
}

/// Creates a ZIP archive.
///
/// You need to call `self.finish()` when done.
///
/// When adding a file to the archive, some checks are made to ensure its name
/// is valid (it is not absolute, does not contain the '\\' character, etc).
/// On Windows a name cannot hold a colon.
#[derive(Debug)]
pub struct ArchiveWriter {
    writer: Vec<u8>,
    raw: RawArchiveWriter,
}

impl ArchiveWriter {
    /// The bytes written.
    pub closed spec fn bytes(self) -> Seq<u8> {
        self.writer@
    }

    /// How far the archive is written.
    pub closed spec fn state(self) -> RawView {
        self.raw@
    }

    /// The names are in order, and the entries that are counted are written.
    pub closed spec fn wf(self) -> bool {
        self.raw.wf() && self.raw@.position <= self.writer@.len()
    }

    /// Creates a new `ArchiveWriter` that appends to the given bytes.
    pub fn new(writer: Vec<u8>) -> (r: ArchiveWriter)
        ensures
            r.wf(),
            r.bytes() == writer@,
            r.state() == (RawView {
                writing: None,
                names: Seq::empty(),
                central: Seq::empty(),
                position: 0,
            }),
    {
        ArchiveWriter { writer, raw: RawArchiveWriter::new() }
    }

    /// Whether an entry with this data was written, or why it was not.
    pub open spec fn wrote(
        before: ArchiveWriter,
        after: ArchiveWriter,
        name: Seq<u8>,
        data: Seq<u8>,
        meta: raw::Metadata,
        windows: bool,
        r: Result<(), Error>,
    ) -> bool {
        match raw::file_written(before.state(), name, data, meta, Seq::empty(), windows) {
            Ok((bytes, state)) => r is Ok && after.bytes() == before.bytes() + bytes
                && after.state() == state,
            Err(e) => r == Err::<(), Error>(e) && after.bytes() == before.bytes() && after.state()
                == before.state(),
        }
    }

    /// Writes a file to the archive.
    pub fn add_file(
        &mut self,
        name: &str,
        content: &[u8],
        options: &FileOptions,
        windows: bool,
    ) -> (r: Result<(), Error>)
        requires
            old(self).wf(),
        ensures
            final(self).wf(),
            match compression::compressed(options.compression_method, content@) {
                Ok(data) => ArchiveWriter::wrote(
                    *old(self),
                    *final(self),
                    name.spec_bytes(),
                    data,
                    file_metadata(*options, content@),
                    windows,
                    r,
                ) && compression::stands_for(options.compression_method, data, content@),
                Err(e) => r == Err::<(), Error>(e) && final(self).bytes() == old(self).bytes()
                    && final(self).state() == old(self).state(),
            },
    {
        let compressed = match compression::compress(
            options.compression_method,
            options.level,
            content,
        ) {
            Ok(data) => data,
            Err(e) => return Err(e),
        };
        let meta = raw::Metadata {
            compression_method: options.compression_method,
            uncompressed_size: content.len() as u64,
            crc32: crc32::hash(content),
            typ: FileType::File,
            modified_at: options.modified_at,
        };
        self.add(name, compressed.as_slice(), &meta, windows)
    }

    /// Writes an entry with this data and without a comment.
    fn add(&mut self, name: &str, data: &[u8], meta: &raw::Metadata, windows: bool) -> (r: Result<
        (),
        Error,
    >)
        requires
            old(self).wf(),
        ensures
            final(self).wf(),
            ArchiveWriter::wrote(
                *old(self),
                *final(self),
                name.spec_bytes(),
                data@,
                *meta,
                windows,
                r,
            ),
    {
        proof {
            reveal_strlit("");
            assert(""@ =~= Seq::<char>::empty());
        }
        self.raw.write_file_raw(&mut self.writer, name, data, meta, "", windows)
    }

    /// Starts streaming a file to the archive.
    ///
    /// This is useful when the content of the file comes in chunks.
    ///
    /// This method returns a `FileStreamer` that can be written to. The content is compressed when
    /// it is finished.
    pub fn stream_file(&mut self, name: &str, options: &FileOptions, windows: bool) -> (r: Result<
        FileStreamer<'_>,
        Error,
    >)
        requires
            old(self).wf(),
        ensures
            match raw::begun(old(self).state(), name.spec_bytes(), FileType::File, windows) {
                Err(e) => r matches Err(x) && x == e && final(self).wf() && final(self).bytes()
                    == old(self).bytes() && final(self).state() == old(self).state(),
                Ok(s) => {
                    let header = raw::local_record(s, raw::streamed(*options, 0, 0), 0, true);
                    let state = RawView {
                        writing: Some(old(self).state().position),
                        ..old(self).state()
                    };
                    if options.compression_method.supported() {
                        &&& r matches Ok(f)
                        &&& f.wf()
                        &&& f.content@ == Seq::<u8>::empty()
                        &&& f.raw.writer@ == old(self).bytes() + header
                        &&& f.raw.header_len() == header.len()
                        &&& f.raw.raw@ == state
                        &&& encode_utf8(f.raw.file_name@) == s
                        &&& f.raw.options == *options
                        &&& final(self).bytes() == final(f.raw.writer)@
                        &&& final(self).state() == final(f.raw.raw)@
                        &&& final(self).wf() <==> final(f.raw.raw).wf() && final(f.raw.raw)@.position <= final(f.raw.writer)@.len()
                    } else {
                        &&& r matches Err(x)
                        &&& x == Error::UnsupportedMethod(options.compression_method)
                        &&& final(self).wf()
                        &&& final(self).bytes() == old(self).bytes() + header
                        &&& final(self).state() == state
                    }
                },
            },
    {
        let raw = match self.raw.start_stream_raw(&mut self.writer, name, options, windows) {
            Ok(raw) => raw,
            Err(e) => return Err(e),
        };
        if !options.compression_method.is_supported() {
            return Err(Error::UnsupportedMethod(options.compression_method));
        }
        Ok(FileStreamer { raw, content: Vec::new(), crc: Crc32Writer::new() })
    }

    /// Adds a directory to the archive.
    pub fn add_directory(&mut self, name: &str, windows: bool) -> (r: Result<(), Error>)
        requires
            old(self).wf(),
        ensures
            final(self).wf(),
            ArchiveWriter::wrote(
                *old(self),
                *final(self),
                name.spec_bytes(),
                Seq::empty(),
                directory_metadata(),
                windows,
                r,
            ),
    {
        let nothing: Vec<u8> = Vec::new();
        assert(nothing@ =~= Seq::<u8>::empty());
        let meta = raw::Metadata {
            compression_method: CompressionMethod(CompressionMethod::STORE),
            uncompressed_size: 0,
            crc32: 0,
            typ: FileType::Directory,
            modified_at: Timestamp(Timestamp::UNIX_EPOCH),
        };
        self.add(name, nothing.as_slice(), &meta, windows)
    }

    /// Adds a symlink to the archive.
    ///
    /// The target of the symlink is not validated yet, which may be used to
    /// create dangerous archives if used with untrusted input. This will be
    /// fixed in a future version so this behaviour should not be relied on.
    pub fn add_symlink(&mut self, name: &str, target: &str, windows: bool) -> (r: Result<(), Error>)
        requires
            old(self).wf(),
        ensures
            final(self).wf(),
            ArchiveWriter::wrote(
                *old(self),
                *final(self),
                name.spec_bytes(),
                target.spec_bytes(),
                symlink_metadata(target.spec_bytes()),
                windows,
                r,
            ),
    {
        let bytes = target.as_bytes();
        let meta = raw::Metadata {
            compression_method: CompressionMethod(CompressionMethod::STORE),
            uncompressed_size: bytes.len() as u64,
            crc32: crc32::hash(bytes),
            typ: FileType::Symlink,
            modified_at: Timestamp(Timestamp::UNIX_EPOCH),
        };
        self.add(name, bytes, &meta, windows)
    }

    /// Recovers from an entry that was not finished by erasing it.
    ///
    /// Calling this when no error needs recovery does nothing.
    pub fn recover(&mut self)
        requires
            old(self).wf(),
        ensures
            final(self).wf(),
            final(self).state() == raw::recovered(old(self).state()),
            final(self).bytes() == raw::kept(old(self).state(), old(self).bytes()),
            match old(self).state().writing {
                None => final(self).bytes() == old(self).bytes() && final(self).state() == old(
                    self).state(),
                Some(pos) => pos <= old(self).bytes().len() && final(self).bytes() == old(
                    self).bytes().take(pos as int) && final(self).state() == (RawView {
                    writing: None,
                    position: pos,
                    ..old(self).state()
                }),
            },
    {
        proof {
            self.raw.lemma_unfinished();
        }
        match self.raw.unfinished() {
            Some(pos) => {
                self.writer.truncate(pos as usize);
                assert(self.writer@ =~= old(self).writer@.take(pos as int));
                self.raw.recover();
            },
            None => {},
        }
    }

    /// Gets a shared reference to the bytes written.
    pub fn get_ref(&self) -> (r: &Vec<u8>)
        ensures
            r@ == self.bytes(),
    {
        &self.writer
    }

    /// Gets a mutable reference to the bytes written.
    ///
    /// It is inadvisable to directly write to them.
    pub fn get_mut(&mut self) -> (r: &mut Vec<u8>)
        ensures
            r@ == old(self).bytes(),
            final(self).bytes() == final(r)@,
            final(self).state() == old(self).state(),
            old(self).wf() && old(self).bytes().len() <= final(r)@.len() ==> final(self).wf(),
    {
        &mut self.writer
    }

    /// Flushes the underlying stream: bytes in memory are always there.
    pub fn flush(&mut self) -> (r: Result<(), Error>)
        ensures
            r is Ok,
            *final(self) == *old(self),
    {
        Ok(())
    }

    /// Finishes writing the archive and gets the bytes back.
    ///
    /// It is necessary to call this method or the resulting archive will not
    /// be readable.
    pub fn finish(self) -> (r: Result<Vec<u8>, Error>)
        requires
            self.wf(),
        ensures
            match raw::finished(self.state(), self.bytes()) {
                Ok(bytes) => r is Ok && r->Ok_0@ == bytes,
                Err(e) => r == Err::<Vec<u8>, Error>(e),
            },
            match self.state().writing {
                Some(_) => r == Err::<Vec<u8>, Error>(Error::NotFinished),
                None => r is Ok && r->Ok_0@ == self.bytes() + self.state().central
                    + raw::end_records(
                    self.state().names.len() as u64,
                    self.state().position,
                    self.state().central.len() as u64,
                ),
            },
    {
        let mut writer = self.writer;
        match self.raw.finish(&mut writer) {
            Ok(()) => Ok(writer),
            Err(e) => Err(e),
        }
    }
}

/// An adapter to stream a file to an archive.
///
/// Writing to this value will write to a file in an archive.
///
/// It is necessary to call `finish` when done.
pub struct FileStreamer<'a> {
    pub raw: RawFileStreamer<'a>,
    /// What has been written to the file.
    pub content: Vec<u8>,
    /// The checksum of the content.
    pub crc: Crc32Writer,
}

impl<'a> FileStreamer<'a> {
    /// No data is written yet, and the checksum is that of the content.
    pub open spec fn wf(self) -> bool {
        &&& self.raw.wf()
        &&& self.raw.data_start == self.raw.writer@.len()
        &&& self.crc.wf()
        &&& self.crc.seen() == self.content@
    }

    /// Writes to the file.
    pub fn write(&mut self, buf: &[u8])
        requires
            old(self).wf(),
        ensures
            final(self).wf(),
            final(self).content@ == old(self).content@ + buf@,
            *final(self).raw.writer == *old(self).raw.writer,
            *final(self).raw.raw == *old(self).raw.raw,
            final(self).raw.start == old(self).raw.start,
            final(self).raw.data_start == old(self).raw.data_start,
            final(self).raw.file_name == old(self).raw.file_name,
            final(self).raw.options == old(self).raw.options,
            *final(final(self).raw.writer) == *final(old(self).raw.writer),
            *final(final(self).raw.raw) == *final(old(self).raw.raw),
    {
        self.content.extend_from_slice(buf);
        self.crc.write(buf);
        assert(self.content@ =~= old(self).content@ + buf@);
    }

    /// Finishes writing the current file.
    pub fn finish(self) -> (r: Result<(), Error>)
        requires
            self.wf(),
        ensures
            final(self.raw.raw).wf(),
            final(self.raw.raw)@.position <= final(self.raw.writer)@.len(),
            match compression::compressed(self.raw.options.compression_method, self.content@) {
                Err(e) => r == Err::<(), Error>(e) && final(self.raw.writer)@ == old(self.raw.writer)@ && final(self.raw.raw)@ == old(self.raw.raw)@,
                Ok(data) => r is Ok && compression::stands_for(
                    self.raw.options.compression_method,
                    data,
                    self.content@,
                ) && final(self.raw.writer)@ == old(self.raw.writer)@ + data + raw::descriptor(
                    self.content@.len() as u64,
                    data.len() as u64,
                    crc32::crc32_of(self.content@),
                ) && final(self.raw.raw)@ == raw::ended(
                    old(self.raw.raw)@,
                    encode_utf8(self.raw.file_name@),
                    file_metadata(self.raw.options, self.content@),
                    data.len() as u64,
                    true,
                    Seq::empty(),
                    (final(self.raw.writer)@.len() - self.raw.start) as u64,
                ),
            },
    {
        proof {
            reveal_strlit("");
            assert(""@ =~= Seq::<char>::empty());
        }
        self.finish_with_comment("")
    }

    /// Finishes writing the current file, and gives it a comment.
    pub fn finish_with_comment(self, comment: &str) -> (r: Result<(), Error>)
        requires
            self.wf(),
        ensures
            final(self.raw.raw).wf(),
            final(self.raw.raw)@.position <= final(self.raw.writer)@.len(),
            match compression::compressed(self.raw.options.compression_method, self.content@) {
                Err(e) => r == Err::<(), Error>(e) && final(self.raw.writer)@ == old(self.raw.writer)@ && final(self.raw.raw)@ == old(self.raw.raw)@,
                Ok(data) => if comment.spec_bytes().len() > raw::MAX_TEXT {
                    r == Err::<(), Error>(Error::CommentTooLong) && final(self.raw.writer)@ == old(self.raw.writer)@ + data && final(self.raw.raw)@ == old(self.raw.raw)@
                } else {
                    r is Ok && compression::stands_for(
                        self.raw.options.compression_method,
                        data,
                        self.content@,
                    ) && final(self.raw.writer)@ == old(self.raw.writer)@ + data + raw::descriptor(
                        self.content@.len() as u64,
                        data.len() as u64,
                        crc32::crc32_of(self.content@),
                    ) && final(self.raw.raw)@ == raw::ended(
                        old(self.raw.raw)@,
                        encode_utf8(self.raw.file_name@),
                        file_metadata(self.raw.options, self.content@),
                        data.len() as u64,
                        true,
                        comment.spec_bytes(),
                        (final(self.raw.writer)@.len() - self.raw.start) as u64,
                    )
                },
            },
    {
        let uncompressed_size: u64 = self.content.len() as u64;
        let crc32: u32 = self.crc.result();
        let compressed = match compression::compress(
            self.raw.options.compression_method,
            self.raw.options.level,
            self.content.as_slice(),
        ) {
            Ok(data) => data,
            Err(e) => return Err(e),
        };
        let mut raw = self.raw;
        raw.write(compressed.as_slice());
        raw.finish(uncompressed_size, crc32, comment)
    }
}

} // verus!
