//! Open archives.
use crate::error::Error;
use crate::read::metadata;
use crate::read::metadata::{Metadata, MetadataView};
use crate::read::raw::ArchiveView;
use crate::read::scanner;
use crate::read::scanner::{Scanner, Step};
use crate::utils::name_table::NameTable;
use crate::utils::names;
use vstd::prelude::*;
use vstd::string::*;

verus! {

/// The metadata of each of the entries.
pub open spec fn views(entries: Seq<Metadata>) -> Seq<MetadataView> {
    entries.map_values(|m: Metadata| m@)
}

/// The names of the entries, without trailing slashes.
pub open spec fn stripped_names(entries: Seq<MetadataView>) -> Seq<Seq<u8>> {
    entries.map_values(|m: MetadataView| names::stripped(m.name))
}

/// The archive with these entries, unless two of them have the same name.
pub open spec fn with_names(entries: Seq<MetadataView>, comment: Seq<u8>) -> Result<
    ArchiveView,
    Error,
> {
    if stripped_names(entries).no_duplicates() {
        Ok(ArchiveView { entries, comment })
    } else {
        Err(Error::DuplicatedName)
    }
}

/// An open ZIP archive without a reader
#[derive(Debug)]
pub struct RawArchive {
    entries: Vec<Metadata>,
    names: NameTable,
    comment: Vec<u8>,
}

impl View for RawArchive {
    type V = ArchiveView;

    closed spec fn view(&self) -> ArchiveView {
        ArchiveView { entries: views(self.entries@), comment: self.comment@ }
    }
}

impl RawArchive {
    /// The table holds the names of the entries, in the same order.
    pub closed spec fn wf(self) -> bool {
        &&& self.names.wf()
        &&& self.names@ == stripped_names(views(self.entries@))
    }

    /// No two entries of an archive have the same name, with or without trailing slashes.
    pub proof fn lemma_distinct_names(self)
        requires
            self.wf(),
        ensures
            stripped_names(self@.entries).no_duplicates(),
    {
        self.names.lemma_distinct();
    }

    /// Reads the structure of an archive.
    ///
    /// The same bytes should be used for other methods. On Windows the names of the entries cannot
    /// hold colons.
    pub fn new(archive: &[u8], windows: bool) -> (r: Result<RawArchive, Error>)
        ensures
            match scanner::archive_of(archive@, windows) {
                Ok(a) => r is Ok && r->Ok_0.wf() && r->Ok_0@ == a,
                Err(e) => r == Err::<RawArchive, Error>(e),
            },
    {
        let total: usize = archive.len();
        let size: u64 = total as u64;
        let ghost d = archive@;
        let ghost expected = scanner::archive_of(d, windows);
        let mut scanner = match Scanner::new(size, windows) {
            Ok(s) => s,
            Err(e) => return Err(e),
        };
        assert(scanner.outcome(d) == expected);
        loop
            invariant
                d == archive@,
                d.len() == size,
                total == size,
                scanner.wf(),
                scanner.spec_size() == size,
                scanner.outcome(d) == expected,
                expected == scanner::archive_of(archive@, windows),
            decreases scanner.distance().0, scanner.distance().1, scanner.distance().2,
        {
            let (offset, len) = scanner.request();
            if offset > size || size - offset < len as u64 {
                proof {
                    scanner.lemma_short(d);
                }
                return Err(Error::UnexpectedEof);
            }
            let piece = vstd::slice::slice_subrange(
                archive,
                offset as usize,
                offset as usize + len,
            );
            let ghost before = scanner;
            assert(before.fits(d, piece@));
            let r = scanner.feed(piece);
            assert(scanner::leads_to(r, d, before.outcome(d)));
            match r {
                Ok(Step::More(s)) => scanner = s,
                Ok(Step::Done(a)) => return Ok(a),
                Err(e) => return Err(e),
            }
        }
    }

    /// Makes an archive out of its entries, in which no name may be there twice.
    pub fn from_entries(entries: Vec<Metadata>, comment: Vec<u8>) -> (r: Result<RawArchive, Error>)
        ensures
            match with_names(views(entries@), comment@) {
                Ok(a) => r is Ok && r->Ok_0.wf() && r->Ok_0@ == a,
                Err(e) => r == Err::<RawArchive, Error>(e),
            },
    {
        let ghost all = stripped_names(views(entries@));
        let mut table = NameTable::new();
        let mut i: usize = 0;
        assert(table@ =~= all.take(0));
        while i < entries.len()
            invariant
                all == stripped_names(views(entries@)),
                i <= entries@.len(),
                table.wf(),
                table@ == all.take(i as int),
            decreases entries@.len() - i,
        {
            let name = names::strip_name(entries[i].name());
            assert(name@ == all[i as int]);
            let ghost before = table@;
            if !table.insert(name) {
                proof {
                    let j = choose|j: int| 0 <= j < before.len() && before[j] == all[i as int];
                    assert(all[j] == all[i as int]);
                }
                return Err(Error::DuplicatedName);
            }
            i += 1;
            assert(table@ =~= all.take(i as int));
        }
        proof {
            assert(table@ =~= all);
            table.lemma_distinct();
        }
        Ok(RawArchive { entries, names: table, comment })
    }

    /// Gets the list of entries in this archive.
    pub fn entries(&self) -> (r: &[Metadata])
        ensures
            views(r@) == self@.entries,
    {
        self.entries.as_slice()
    }

    /// Gets the comment of the archive.
    pub fn comment(&self) -> (r: &[u8])
        ensures
            r@ == self@.comment,
    {
        self.comment.as_slice()
    }

    /// Gets the index of the entry with this name.
    pub fn index_of(&self, name: &str) -> (r: Option<usize>)
        requires
            self.wf(),
        ensures
            match r {
                Some(i) => i < self@.entries.len() && self@.entries[i as int].name
                    == name.spec_bytes(),
                None => forall|i: int|
                    0 <= i < self@.entries.len() ==> (#[trigger] self@.entries[i]).name
                        != name.spec_bytes(),
            },
    {
        let key = names::strip_name(name);
        let ghost all = stripped_names(self@.entries);
        match self.names.index_of(key.as_slice()) {
            Some(i) => {
                if crate::utils::text::same_text(self.entries[i].name(), name) {
                    Some(i)
                } else {
                    proof {
                        self.names.lemma_distinct();
                        assert forall|j: int| 0 <= j < self@.entries.len() implies (
                        #[trigger] self@.entries[j]).name != name.spec_bytes() by {
                            assert(all[j] == names::stripped(self@.entries[j].name));
                            assert(all[i as int] == key@);
                            assert(self@.entries[i as int] == self.entries@[i as int]@);
                        }
                    }
                    None
                }
            },
            None => {
                proof {
                    assert forall|j: int| 0 <= j < self@.entries.len() implies (
                    #[trigger] self@.entries[j]).name != name.spec_bytes() by {
                        assert(all[j] == names::stripped(self@.entries[j].name));
                    }
                }
                None
            },
        }
    }
}

/// An open ZIP archive.
///
/// This type owns the bytes of the archive. If you need something more flexible, use
/// [`RawArchive`] instead.
#[derive(Debug)]
pub struct Archive {
    inner: RawArchive,
    reader: Vec<u8>,
}

impl Archive {
    /// The structure of the archive is in order.
    pub closed spec fn wf(self) -> bool {
        self.inner.wf()
    }

    /// The bytes of the archive.
    pub closed spec fn bytes(self) -> Seq<u8> {
        self.reader@
    }

    /// Opens a ZIP archive.
    ///
    /// This also performs many validation checks on the archive to make sure
    /// that it is well-formed and does not have dangerous or duplicated paths.
    /// The validity of file contents is checked lazily when reading them.
    ///
    /// **The targets of symlinks are not checked yet here**, though they are
    /// through `extract`.
    pub fn new(reader: Vec<u8>, windows: bool) -> (r: Result<Archive, Error>)
        ensures
            match scanner::archive_of(reader@, windows) {
                Ok(a) => r is Ok && r->Ok_0.wf() && r->Ok_0@ == a && r->Ok_0.bytes() == reader@,
                Err(e) => r == Err::<Archive, Error>(e),
            },
    {
        match RawArchive::new(reader.as_slice(), windows) {
            Ok(inner) => Ok(Archive { inner, reader }),
            Err(e) => Err(e),
        }
    }

    /// Gets the list of entries in the archive.
    pub fn entries(&self) -> (r: &[Metadata])
        ensures
            views(r@) == self@.entries,
    {
        self.inner.entries()
    }

    /// Gets a file by its index.
    pub fn get_by_index(&self, index: usize) -> (r: Option<File<'_>>)
        ensures
            match r {
                Some(f) => index < self@.entries.len() && f@ == self@.entries[index as int]
                    && f.bytes() == self.bytes(),
                None => index >= self@.entries.len(),
            },
    {
        let entries = self.inner.entries();
        if index < entries.len() {
            assert(views(entries@)[index as int] == entries@[index as int]@);
            Some(File { metadata: &entries[index], reader: self.reader.as_slice() })
        } else {
            None
        }
    }

    /// Gets a file by its name.
    pub fn get_by_name(&self, name: &str) -> (r: Option<File<'_>>)
        requires
            self.wf(),
        ensures
            match r {
                Some(f) => self@.entries.contains(f@) && f@.name == name.spec_bytes() && f.bytes()
                    == self.bytes(),
                None => forall|i: int|
                    0 <= i < self@.entries.len() ==> (#[trigger] self@.entries[i]).name
                        != name.spec_bytes(),
            },
    {
        match self.inner.index_of(name) {
            Some(index) => self.get_by_index(index),
            None => None,
        }
    }

    /// Gets the index of a file in [`Self::entries`] by its name.
    pub fn index_of(&self, name: &str) -> (r: Option<usize>)
        requires
            self.wf(),
        ensures
            match r {
                Some(i) => i < self@.entries.len() && self@.entries[i as int].name
                    == name.spec_bytes(),
                None => forall|i: int|
                    0 <= i < self@.entries.len() ==> (#[trigger] self@.entries[i]).name
                        != name.spec_bytes(),
            },
    {
        self.inner.index_of(name)
    }

    /// Gets the comment of the archive.
    pub fn commment(&self) -> (r: &[u8])
        ensures
            r@ == self@.comment,
    {
        self.inner.comment()
    }

    /// Returns what there is to put at the place of each entry, below the root of the archive, in
    /// order. The first entry that cannot be extracted ends it with its error.
    pub fn extract(&self, windows: bool) -> (r: Result<Vec<metadata::Extraction>, Error>)
        ensures
            match r {
                Ok(xs) => xs@.len() == self@.entries.len() && forall|i: int|
                    0 <= i < xs@.len() ==> metadata::extraction(
                        self@.entries[i],
                        self.bytes(),
                        windows,
                    ) == Ok::<metadata::ExtractionView, Error>((#[trigger] xs@[i])@),
                Err(e) => exists|i: int|
                    0 <= i < self@.entries.len() && metadata::extraction(
                        #[trigger] self@.entries[i],
                        self.bytes(),
                        windows,
                    ) == Err::<metadata::ExtractionView, Error>(e) && forall|j: int|
                        0 <= j < i ==> metadata::extraction(
                            #[trigger] self@.entries[j],
                            self.bytes(),
                            windows,
                        ) is Ok,
            },
    {
        let mut xs: Vec<metadata::Extraction> = Vec::new();
        let entries = self.inner.entries();
        let mut i: usize = 0;
        while i < entries.len()
            invariant
                views(entries@) == self@.entries,
                entries@.len() == self@.entries.len(),
                i <= entries@.len(),
                xs@.len() == i,
                forall|j: int|
                    0 <= j < xs@.len() ==> metadata::extraction(
                        self@.entries[j],
                        self.bytes(),
                        windows,
                    ) == Ok::<metadata::ExtractionView, Error>((#[trigger] xs@[j])@),
            decreases entries@.len() - i,
        {
            assert(self@.entries[i as int] == entries@[i as int]@);
            match entries[i].extract(self.reader.as_slice(), windows) {
                Ok(x) => xs.push(x),
                Err(e) => {
                    assert forall|j: int| 0 <= j < i implies metadata::extraction(
                        #[trigger] self@.entries[j],
                        self.bytes(),
                        windows,
                    ) is Ok by {
                        assert(xs@[j]@ == xs@[j]@);
                    }
                    return Err(e);
                },
            }
            i += 1;
        }
        Ok(xs)
    }

    /// Gets a shared reference to the bytes of the archive.
    pub fn get_ref(&self) -> (r: &Vec<u8>)
        ensures
            r@ == self.bytes(),
    {
        &self.reader
    }

    /// Gets a mutable reference to the bytes of the archive.
    pub fn get_mut(&mut self) -> (r: &mut Vec<u8>)
        ensures
            r@ == old(self).bytes(),
            final(self).bytes() == final(r)@,
            final(self)@ == old(self)@,
            old(self).wf() ==> final(self).wf(),
    {
        &mut self.reader
    }
}

impl View for Archive {
    type V = ArchiveView;

    closed spec fn view(&self) -> ArchiveView {
        self.inner@
    }
}

/// A file in a ZIP archive.
#[derive(Debug)]
pub struct File<'a> {
    metadata: &'a Metadata,
    reader: &'a [u8],
}

impl<'a> View for File<'a> {
    type V = MetadataView;

    closed spec fn view(&self) -> MetadataView {
        self.metadata@
    }
}

impl<'a> File<'a> {
    /// The bytes of the archive.
    pub closed spec fn bytes(self) -> Seq<u8> {
        self.reader@
    }

    /// Gets the metadata of the file.
    ///
    /// The lifetime of the returned reference is bound to the `Archive`, so it
    /// can outlive `self`.
    pub fn metadata(&self) -> (r: &'a Metadata)
        ensures
            r@ == self@,
    {
        self.metadata
    }

    /// Returns the content of the file.
    ///
    /// Unsupported compression methods will return an error.
    pub fn read(&self) -> (r: Result<Vec<u8>, Error>)
        ensures
            match metadata::content(self@, self.bytes()) {
                Ok(content) => r is Ok && r->Ok_0@ == content,
                Err(e) => r == Err::<Vec<u8>, Error>(e),
            },
    {
        self.metadata.read(self.reader)
    }

    /// Returns the content of the file.
    ///
    /// Errors if the file is compressed, encrypted or corrupted. It is not
    /// necessary to use `Metadata::content_checker` on the result.
    ///
    /// It is useful if you know that the file is stored as-is and you do not want to copy it.
    pub fn read_stored(self) -> (r: Result<&'a [u8], Error>)
        ensures
            match metadata::stored_content(self@, self.bytes()) {
                Ok(content) => r is Ok && r->Ok_0@ == content,
                Err(e) => r == Err::<&'a [u8], Error>(e),
            },
    {
        self.metadata.read_stored(self.reader)
    }

    /// Returns the raw, compressed, content of the file.
    ///
    /// The uncompressed content should be checked with [`Metadata::content_checker`].
    pub fn read_raw(&self) -> (r: &'a [u8])
        ensures
            r@ == metadata::raw_data(self@, self.bytes()),
    {
        self.metadata.read_raw(self.reader)
    }

    /// Consumes self, returning the bytes of the archive.
    ///
    /// They can be used with [`Metadata::read_raw`] to read the raw,
    /// compressed content of the file. The uncompressed content should then be
    /// checked with [`Metadata::content_checker`].
    pub fn into_reader(self) -> (r: &'a [u8])
        ensures
            r@ == self.bytes(),
    {
        self.reader
    }
}

} // verus!
