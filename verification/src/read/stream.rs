//! Reading the entries of an archive one after the other, without its central directory.
use crate::error::Error;
use crate::read::metadata;
use crate::read::metadata::{Metadata, MetadataView};
use crate::read::raw;
use crate::types::{CentralFileHeader, LocalFileHeader};
use vstd::prelude::*;
use vstd::slice::slice_subrange;

verus! {

/// How far an archive has been read.
#[verifier::ext_equal]
pub struct StreamView {
    /// What has not been read yet.
    pub rest: Seq<u8>,
    /// The length of the data, at the start of the rest, of the entry that was read last.
    pub data_left: u64,
}

/// The entry that comes next, if there is one, and how far the archive has been read then.
pub open spec fn next_entry(s: StreamView, windows: bool) -> (
    Result<Option<MetadataView>, Error>,
    StreamView,
) {
    if s.data_left > s.rest.len() {
        (Err(Error::UnexpectedEof), s)
    } else {
        let rest = s.rest.skip(s.data_left as int);
        if rest.len() < LocalFileHeader::SIZE {
            (Err(Error::UnexpectedEof), StreamView { rest: Seq::empty(), data_left: 0 })
        } else {
            entry_behind(
                LocalFileHeader::parse(rest),
                rest.skip(LocalFileHeader::SIZE as int),
                windows,
            )
        }
    }
}

/// The entry with this local header, if it is one.
pub open spec fn entry_behind(header: LocalFileHeader, rest: Seq<u8>, windows: bool) -> (
    Result<Option<MetadataView>, Error>,
    StreamView,
) {
    let n = raw::local_variable_len(header);
    let behind = StreamView { rest: rest.skip(n), data_left: 0 };
    if header.signature.value() == CentralFileHeader::SIGNATURE {
        (Ok(None), StreamView { rest, data_left: 0 })
    } else if header.signature.value() != LocalFileHeader::SIGNATURE {
        (Err(Error::UnknownSignature), StreamView { rest, data_left: 0 })
    } else if rest.len() < n {
        (Err(Error::UnexpectedEof), StreamView { rest: Seq::empty(), data_left: 0 })
    } else {
        match raw::local_entry(header, rest.take(n), windows) {
            None => (Err(Error::InvalidEntry), behind),
            Some(m) => if metadata::flag(m.flags, 8) {
                (Err(Error::LengthUnavailable), behind)
            } else {
                (Ok(Some(m)), StreamView { data_left: m.compressed_size, ..behind })
            },
        }
    }
}

/// An archive whose entries are read one after the other.
#[derive(Debug)]
pub struct ZipArchive<'a> {
    reader: &'a [u8],
    data_left: u64,
}

impl<'a> View for ZipArchive<'a> {
    type V = StreamView;

    closed spec fn view(&self) -> StreamView {
        StreamView { rest: self.reader@, data_left: self.data_left }
    }
}

/// Skips some bytes.
fn skip<'a>(r: &'a [u8], amt: u64) -> (s: Result<&'a [u8], Error>)
    ensures
        amt <= r@.len() ==> s is Ok && s->Ok_0@ == r@.skip(amt as int),
        amt > r@.len() ==> s == Err::<&'a [u8], Error>(Error::UnexpectedEof),
{
    if amt > r.len() as u64 {
        return Err(Error::UnexpectedEof);
    }
    let s = slice_subrange(r, amt as usize, r.len());
    assert(s@ =~= r@.skip(amt as int));
    Ok(s)
}

impl<'a> ZipArchive<'a> {
    /// Starts to read an archive.
    pub fn new(reader: &'a [u8]) -> (r: ZipArchive<'a>)
        ensures
            r@ == (StreamView { rest: reader@, data_left: 0 }),
    {
        ZipArchive { reader, data_left: 0 }
    }

    /// Reads the next entry, up to the central directory.
    pub fn next_file(&mut self, windows: bool) -> (r: Result<Option<ZipFile<'a>>, Error>)
        ensures
            final(self)@ == next_entry(old(self)@, windows).1,
            match next_entry(old(self)@, windows).0 {
                Ok(Some(m)) => r matches Ok(Some(f)) && f@ == m && f.data()
                    == metadata::raw_data(m, final(self)@.rest),
                Ok(None) => r matches Ok(None),
                Err(e) => r == Err::<Option<ZipFile<'a>>, Error>(e),
            },
    {
        let ghost s = self@;
        if self.data_left != 0 {
            self.reader = match skip(self.reader, self.data_left) {
                Ok(rest) => rest,
                Err(e) => return Err(e),
            };
            self.data_left = 0;
        }
        assert(self.reader@ =~= s.rest.skip(s.data_left as int));
        let ghost before = self.reader@;
        if self.reader.len() < LocalFileHeader::SIZE {
            self.reader = slice_subrange(self.reader, 0, 0);
            assert(self.reader@ =~= Seq::<u8>::empty());
            return Err(Error::UnexpectedEof);
        }
        let header = LocalFileHeader::read(self.reader);
        self.reader = slice_subrange(self.reader, LocalFileHeader::SIZE, self.reader.len());
        let ghost rest = self.reader@;
        assert(rest =~= before.skip(LocalFileHeader::SIZE as int));
        if header.signature.get() == CentralFileHeader::SIGNATURE {
            return Ok(None);
        }
        if header.signature.get() != LocalFileHeader::SIGNATURE {
            return Err(Error::UnknownSignature);
        }
        let n: usize = header.file_name_length.get() as usize + header.extra_fields_length.get()
            as usize;
        if self.reader.len() < n {
            self.reader = slice_subrange(self.reader, 0, 0);
            assert(self.reader@ =~= Seq::<u8>::empty());
            return Err(Error::UnexpectedEof);
        }
        let variable = slice_subrange(self.reader, 0, n);
        assert(variable@ =~= rest.take(n as int));
        self.reader = slice_subrange(self.reader, n, self.reader.len());
        assert(self.reader@ =~= rest.skip(n as int));
        let metadata = match raw::read_local_header(header, variable, windows) {
            Ok(metadata) => metadata,
            Err(e) => return Err(e),
        };
        if (metadata.flags / 8) % 2 == 1 {
            return Err(Error::LengthUnavailable);
        }
        self.data_left = metadata.compressed_size;
        let reader = metadata.read_raw(self.reader);
        Ok(Some(ZipFile { reader, metadata }))
    }
}

/// A file in an archive whose entries are read one after the other.
#[derive(Debug)]
pub struct ZipFile<'a> {
    reader: &'a [u8],
    metadata: Metadata,
}

impl<'a> View for ZipFile<'a> {
    type V = MetadataView;

    closed spec fn view(&self) -> MetadataView {
        self.metadata@
    }
}

impl<'a> ZipFile<'a> {
    /// The raw, compressed, content of the file.
    pub closed spec fn data(self) -> Seq<u8> {
        self.reader@
    }

    /// Gets the metadata of the file.
    pub fn metadata(&self) -> (r: &Metadata)
        ensures
            r@ == self@,
    {
        &self.metadata
    }

    /// Returns the raw, compressed, content of the file.
    pub fn raw_reader(&self) -> (r: &'a [u8])
        ensures
            r@ == self.data(),
    {
        self.reader
    }

    /// Returns the content of the file.
    pub fn reader(&self) -> (r: Result<Vec<u8>, Error>)
        ensures
            match metadata::content_of(self@, self.data()) {
                Ok(content) => r is Ok && r->Ok_0@ == content,
                Err(e) => r == Err::<Vec<u8>, Error>(e),
            },
    {
        self.metadata.read_from_raw(self.reader)
    }
}

} // verus!
