//! Reading the structure of an archive, piece by piece.
//!
//! A [`Scanner`] asks for pieces of a file and never touches the file itself, so that it works with
//! every way to read one.
use crate::error::Error;
use crate::read::archive;
use crate::read::archive::RawArchive;
use crate::read::metadata::{Metadata, MetadataView};
use crate::read::raw;
use crate::read::raw::{ArchiveView, CentralDirectory, Eocd};
use crate::types::{
    CentralFileHeader, EndOfCentralDirectory, EndOfCentralDirectory64,
    EndOfCentralDirectory64Locator, LocalFileHeader,
};
use crate::utils::Counter;
use vstd::prelude::*;

verus! {

/// The longest end of a file that can hold an end of central directory and its comment.
pub const MAX_TAIL: u64 = 65557;

/// The last `n` bytes of a file.
pub open spec fn tail(d: Seq<u8>, n: int) -> Seq<u8> {
    d.subrange(d.len() - n, d.len() as int)
}

/// The length of the end of a file that is searched for an end of central directory with a
/// comment.
pub open spec fn tail_len(size: int) -> int {
    if size < MAX_TAIL {
        size
    } else {
        MAX_TAIL as int
    }
}

/// What the file `d` holds as a ZIP archive, or why it holds none.
#[verifier::opaque]
pub open spec fn archive_of(d: Seq<u8>, windows: bool) -> Result<ArchiveView, Error> {
    if d.len() < EndOfCentralDirectory::SIZE {
        Err(Error::NotAZip)
    } else {
        without_comment(d, windows)
    }
}

/// What the file holds if its end of central directory may be the last thing in it.
pub open spec fn without_comment(d: Seq<u8>, windows: bool) -> Result<ArchiveView, Error> {
    let n = EndOfCentralDirectory::SIZE as int;
    match raw::eocd_in(d.len() - n, tail(d, n)) {
        Ok(Some(eocd)) => from_eocd(d, windows, eocd),
        Ok(None) => with_comment(d, windows),
        Err(e) => Err(e),
    }
}

/// What the file holds if its end of central directory can only be followed by a comment.
pub open spec fn with_comment(d: Seq<u8>, windows: bool) -> Result<ArchiveView, Error> {
    let n = tail_len(d.len() as int);
    match raw::eocd_in(d.len() - n, tail(d, n)) {
        Ok(Some(eocd)) => from_eocd(d, windows, eocd),
        Ok(None) => Err(Error::NotAZip),
        Err(e) => Err(e),
    }
}

/// What the file holds if this is its end of central directory. The comment ends the file.
pub open spec fn from_eocd(d: Seq<u8>, windows: bool, eocd: raw::EocdView) -> Result<
    ArchiveView,
    Error,
> {
    if eocd.record.comment_length.value() != eocd.comment.len() {
        Err(Error::InvalidZip)
    } else {
        match raw::directory_of(eocd.offset, eocd.record) {
            Ok(Some(directory)) => from_directory(d, windows, directory, eocd.comment),
            Ok(None) => from_locator(d, windows, eocd.offset, eocd.comment),
            Err(e) => Err(e),
        }
    }
}

/// What the file holds if a ZIP64 locator is expected just before this offset.
pub open spec fn from_locator(d: Seq<u8>, windows: bool, offset: u64, comment: Seq<u8>) -> Result<
    ArchiveView,
    Error,
> {
    let at = offset - EndOfCentralDirectory64Locator::SIZE;
    if at < 0 {
        Err(Error::InvalidZip)
    } else if offset > d.len() {
        Err(Error::UnexpectedEof)
    } else {
        let locator = EndOfCentralDirectory64Locator::parse(d.subrange(at, offset as int));
        match raw::record_offset(at as u64, locator) {
            Ok(eocd_offset) => from_record(d, windows, at as u64, eocd_offset, comment),
            Err(e) => Err(e),
        }
    }
}

/// What the file holds if a ZIP64 record is expected at this offset.
pub open spec fn from_record(
    d: Seq<u8>,
    windows: bool,
    locator_offset: u64,
    eocd_offset: u64,
    comment: Seq<u8>,
) -> Result<ArchiveView, Error> {
    let end = eocd_offset + EndOfCentralDirectory64::SIZE;
    if end > d.len() {
        Err(Error::UnexpectedEof)
    } else {
        let record = EndOfCentralDirectory64::parse(d.subrange(eocd_offset as int, end));
        match raw::directory64_of(locator_offset, eocd_offset, record) {
            Ok(directory) => from_directory(d, windows, directory, comment),
            Err(e) => Err(e),
        }
    }
}

/// What the file holds if this is its central directory.
pub open spec fn from_directory(
    d: Seq<u8>,
    windows: bool,
    directory: CentralDirectory,
    comment: Seq<u8>,
) -> Result<ArchiveView, Error> {
    if !directory.valid_size() {
        Err(Error::InvalidZip)
    } else if directory.entries == 0 {
        Ok(ArchiveView { entries: Seq::empty(), comment })
    } else if directory.entries > usize::MAX {
        Err(Error::InvalidZip)
    } else {
        from_central(
            d,
            windows,
            directory.offset as int,
            directory.entries as nat,
            Seq::empty(),
            directory.offset,
            comment,
        )
    }
}

/// The entry whose central header is at this position, and the position behind it.
pub open spec fn central_at(d: Seq<u8>, windows: bool, pos: int) -> Result<
    (MetadataView, int),
    Error,
> {
    let end = pos + CentralFileHeader::SIZE;
    if end > d.len() {
        Err(Error::UnexpectedEof)
    } else {
        central_behind(d, windows, end, CentralFileHeader::parse(d.subrange(pos, end)))
    }
}

/// The entry with this central header, whose variable fields are at this position.
pub open spec fn central_behind(
    d: Seq<u8>,
    windows: bool,
    pos: int,
    header: CentralFileHeader,
) -> Result<(MetadataView, int), Error> {
    let end = pos + raw::central_variable_len(header);
    if end > d.len() {
        Err(Error::UnexpectedEof)
    } else {
        match raw::central_entry(header, d.subrange(pos, end), windows) {
            Some(m) => Ok((m, end)),
            None => Err(Error::InvalidEntry),
        }
    }
}

/// What the file holds if these are the first of its entries and `left` more central headers follow
/// from this position on.
pub open spec fn from_central(
    d: Seq<u8>,
    windows: bool,
    pos: int,
    left: nat,
    entries: Seq<MetadataView>,
    offset: u64,
    comment: Seq<u8>,
) -> Result<ArchiveView, Error>
    decreases left,
{
    if left == 0 {
        from_local(d, windows, entries[0].header_offset as int, entries, 0, offset, comment)
    } else {
        match central_at(d, windows, pos) {
            Ok((m, next)) => from_central(
                d,
                windows,
                next,
                (left - 1) as nat,
                entries.push(m),
                offset,
                comment,
            ),
            Err(e) => Err(e),
        }
    }
}

/// The entry completed by the local header at this position, and the position behind its data.
pub open spec fn local_at(d: Seq<u8>, windows: bool, pos: int, entry: MetadataView) -> Result<
    (MetadataView, int),
    Error,
> {
    let end = pos + LocalFileHeader::SIZE;
    if end > d.len() {
        Err(Error::UnexpectedEof)
    } else {
        local_behind(d, windows, end, LocalFileHeader::parse(d.subrange(pos, end)), entry)
    }
}

/// The entry completed by this local header, whose variable fields are at this position.
pub open spec fn local_behind(
    d: Seq<u8>,
    windows: bool,
    pos: int,
    header: LocalFileHeader,
    entry: MetadataView,
) -> Result<(MetadataView, int), Error> {
    let end = pos + raw::local_variable_len(header);
    if end > d.len() {
        Err(Error::UnexpectedEof)
    } else {
        match raw::local_entry(header, d.subrange(pos, end), windows) {
            Some(local) => data_at(d, end, local, entry),
            None => Err(Error::InvalidEntry),
        }
    }
}

/// The entry completed by its local metadata, with its data at this position. Directories should
/// always be empty.
pub open spec fn data_at(d: Seq<u8>, pos: int, local: MetadataView, entry: MetadataView) -> Result<
    (MetadataView, int),
    Error,
> {
    let placed = MetadataView { data_offset: pos as u64, ..entry };
    if entry.file_type is Directory && entry.uncompressed_size != 0 {
        Err(Error::InvalidEntry)
    } else if !(Counter { amt: pos as u64 }).can_advance(entry.compressed_size) {
        Err(Error::SeekOutOfRange)
    } else if local.is_streaming {
        descriptor_at(d, pos + entry.compressed_size, local, placed)
    } else {
        completed(placed, local, pos + entry.compressed_size)
    }
}

/// The entry completed by its local metadata, with its descriptor at this position.
pub open spec fn descriptor_at(
    d: Seq<u8>,
    pos: int,
    local: MetadataView,
    entry: MetadataView,
) -> Result<(MetadataView, int), Error> {
    let end = pos + raw::descriptor_len(local);
    if end > d.len() {
        Err(Error::UnexpectedEof)
    } else {
        match raw::described(local, d.subrange(pos, end)) {
            Ok(local) => completed(entry, local, end),
            Err(e) => Err(e),
        }
    }
}

/// The entry completed by its local metadata, which ends at this position.
pub open spec fn completed(entry: MetadataView, local: MetadataView, end: int) -> Result<
    (MetadataView, int),
    Error,
> {
    match raw::merged(entry, local) {
        Ok(m) => Ok((m, end)),
        Err(e) => Err(e),
    }
}

/// What the file holds if these are its entries and those from `index` on lie one after the other
/// from this position on. The last one ends where the central directory starts.
pub open spec fn from_local(
    d: Seq<u8>,
    windows: bool,
    pos: int,
    entries: Seq<MetadataView>,
    index: nat,
    offset: u64,
    comment: Seq<u8>,
) -> Result<ArchiveView, Error>
    decreases entries.len() - index,
{
    if index >= entries.len() {
        if pos != offset {
            Err(Error::InvalidZip)
        } else {
            archive::with_names(entries, comment)
        }
    } else {
        match local_at(d, windows, pos, entries[index as int]) {
            Ok((m, next)) => from_local(
                d,
                windows,
                next,
                entries.update(index as int, m),
                index + 1,
                offset,
                comment,
            ),
            Err(e) => Err(e),
        }
    }
}

/// What a scanner waits for.
#[derive(Debug)]
enum Stage {
    /// The bytes of an end of central directory without a comment.
    Tail,
    /// The bytes that can hold an end of central directory with a comment.
    LongTail,
    /// A ZIP64 locator, which ends at this offset.
    Locator { offset: u64 },
    /// A ZIP64 record.
    Record { locator_offset: u64, eocd_offset: u64 },
    /// A central header, the first of some that are left.
    CentralHeader { pos: u64, left: usize },
    /// The variable fields of a central header.
    CentralVariable { pos: u64, left: usize, header: CentralFileHeader },
    /// The local header of an entry.
    LocalHeader { pos: u64, index: usize },
    /// The variable fields of a local header.
    LocalVariable { pos: u64, index: usize, local_header: LocalFileHeader },
    /// The descriptor of an entry.
    Descriptor { pos: u64, index: usize, local: Metadata },
}

/// Reads the structure of an archive, piece by piece.
#[derive(Debug)]
pub struct Scanner {
    size: u64,
    windows: bool,
    comment: Vec<u8>,
    /// Where the central directory is, once this is known.
    offset: u64,
    entries: Vec<Metadata>,
    stage: Stage,
}

/// What comes of a piece.
#[derive(Debug)]
pub enum Step {
    /// More pieces are needed.
    More(Scanner),
    /// The archive is read.
    Done(RawArchive),
}

impl Scanner {
    /// The length of the file.
    pub closed spec fn spec_size(self) -> u64 {
        self.size
    }

    /// The positions lie where a scanner can have come.
    pub closed spec fn wf(self) -> bool {
        self.size >= EndOfCentralDirectory::SIZE && match self.stage {
            Stage::Tail => self.entries@.len() == 0,
            Stage::LongTail => self.entries@.len() == 0,
            Stage::Locator { offset } => EndOfCentralDirectory64Locator::SIZE <= offset
                && self.entries@.len() == 0,
            Stage::Record { locator_offset, eocd_offset } => self.entries@.len() == 0,
            Stage::CentralHeader { pos, left } => left > 0,
            Stage::CentralVariable { pos, left, header } => left > 0 && pos <= self.size,
            Stage::LocalHeader { pos, index } => index < self.entries@.len(),
            Stage::LocalVariable { pos, index, local_header } => index < self.entries@.len() && pos
                <= self.size,
            Stage::Descriptor { pos, index, local } => index < self.entries@.len(),
        }
    }

    /// Where the piece is that the scanner waits for.
    pub closed spec fn piece_offset(self) -> int {
        match self.stage {
            Stage::Tail => self.size - EndOfCentralDirectory::SIZE,
            Stage::LongTail => self.size - tail_len(self.size as int),
            Stage::Locator { offset } => offset - EndOfCentralDirectory64Locator::SIZE,
            Stage::Record { locator_offset, eocd_offset } => eocd_offset as int,
            Stage::CentralHeader { pos, left } => pos as int,
            Stage::CentralVariable { pos, left, header } => pos as int,
            Stage::LocalHeader { pos, index } => pos as int,
            Stage::LocalVariable { pos, index, local_header } => pos as int,
            Stage::Descriptor { pos, index, local } => pos as int,
        }
    }

    /// The length of the piece that the scanner waits for.
    pub closed spec fn piece_len(self) -> int {
        match self.stage {
            Stage::Tail => EndOfCentralDirectory::SIZE as int,
            Stage::LongTail => tail_len(self.size as int),
            Stage::Locator { offset } => EndOfCentralDirectory64Locator::SIZE as int,
            Stage::Record { locator_offset, eocd_offset } => EndOfCentralDirectory64::SIZE as int,
            Stage::CentralHeader { pos, left } => CentralFileHeader::SIZE as int,
            Stage::CentralVariable { pos, left, header } => raw::central_variable_len(header),
            Stage::LocalHeader { pos, index } => LocalFileHeader::SIZE as int,
            Stage::LocalVariable { pos, index, local_header } => raw::local_variable_len(local_header),
            Stage::Descriptor { pos, index, local } => raw::descriptor_len(local@),
        }
    }

    /// What comes out if the rest of the pieces are those of the file `d`.
    pub closed spec fn outcome(self, d: Seq<u8>) -> Result<ArchiveView, Error> {
        let w = self.windows;
        let es = archive::views(self.entries@);
        match self.stage {
            Stage::Tail => without_comment(d, w),
            Stage::LongTail => with_comment(d, w),
            Stage::Locator { offset } => from_locator(d, w, offset, self.comment@),
            Stage::Record { locator_offset, eocd_offset } => from_record(
                d,
                w,
                locator_offset,
                eocd_offset,
                self.comment@,
            ),
            Stage::CentralHeader { pos, left } => from_central(
                d,
                w,
                pos as int,
                left as nat,
                es,
                self.offset,
                self.comment@,
            ),
            Stage::CentralVariable { pos, left, header } => match central_behind(
                d,
                w,
                pos as int,
                header,
            ) {
                Ok((m, next)) => from_central(
                    d,
                    w,
                    next,
                    (left - 1) as nat,
                    es.push(m),
                    self.offset,
                    self.comment@,
                ),
                Err(e) => Err(e),
            },
            Stage::LocalHeader { pos, index } => from_local(
                d,
                w,
                pos as int,
                es,
                index as nat,
                self.offset,
                self.comment@,
            ),
            Stage::LocalVariable { pos, index, local_header } => self.go_on(
                d,
                index,
                local_behind(d, w, pos as int, local_header, es[index as int]),
            ),
            Stage::Descriptor { pos, index, local } => self.go_on(
                d,
                index,
                descriptor_at(d, pos as int, local@, es[index as int]),
            ),
        }
    }

    /// What comes out once an entry is read.
    spec fn go_on(self, d: Seq<u8>, index: usize, r: Result<(MetadataView, int), Error>) -> Result<
        ArchiveView,
        Error,
    > {
        match r {
            Ok((m, next)) => self.resume(d, index, m, next),
            Err(e) => Err(e),
        }
    }

    /// What comes out once an entry is completed.
    #[verifier::opaque]
    spec fn resume(self, d: Seq<u8>, index: usize, m: MetadataView, next: int) -> Result<
        ArchiveView,
        Error,
    > {
        from_local(
            d,
            self.windows,
            next,
            archive::views(self.entries@).update(index as int, m),
            (index + 1) as nat,
            self.offset,
            self.comment@,
        )
    }

    /// Once an entry is completed, it does not matter what it was before.
    proof fn lemma_resume(
        self,
        other: Scanner,
        d: Seq<u8>,
        index: usize,
        m: MetadataView,
        next: int,
    )
        requires
            self.windows == other.windows,
            self.offset == other.offset,
            self.comment == other.comment,
            index < self.entries@.len(),
            self.entries@.len() == other.entries@.len(),
            forall|i: int|
                0 <= i < self.entries@.len() && i != index ==> self.entries@[i]
                    == other.entries@[i],
        ensures
            self.resume(d, index, m, next) == other.resume(d, index, m, next),
    {
        reveal(Scanner::resume);
        assert(archive::views(self.entries@).update(index as int, m) =~= archive::views(
            other.entries@,
        ).update(index as int, m));
    }

    /// How far the scanner is from its end: the stages to come, the headers left in the stage, and
    /// the pieces left of a header.
    pub closed spec fn distance(self) -> (nat, nat, nat) {
        match self.stage {
            Stage::Tail => (5, 0, 0),
            Stage::LongTail => (4, 0, 0),
            Stage::Locator { offset } => (3, 0, 0),
            Stage::Record { locator_offset, eocd_offset } => (2, 0, 0),
            Stage::CentralHeader { pos, left } => (1, left as nat, 1),
            Stage::CentralVariable { pos, left, header } => (1, left as nat, 0),
            Stage::LocalHeader { pos, index } => (0, (self.entries@.len() - index) as nat, 2),
            Stage::LocalVariable { pos, index, local_header } => (
                0,
                (self.entries@.len() - index) as nat,
                1,
            ),
            Stage::Descriptor { pos, index, local } => (
                0,
                (self.entries@.len() - index) as nat,
                0,
            ),
        }
    }

    /// Whether these bytes are the piece of the file `d` that the scanner waits for.
    pub open spec fn fits(self, d: Seq<u8>, bytes: Seq<u8>) -> bool {
        &&& d.len() == self.spec_size()
        &&& self.piece_offset() + self.piece_len() <= d.len()
        &&& bytes == d.subrange(self.piece_offset(), self.piece_offset() + self.piece_len())
    }
}

/// Whether a distance is smaller than another.
pub open spec fn closer(a: (nat, nat, nat), b: (nat, nat, nat)) -> bool {
    a.0 < b.0 || (a.0 == b.0 && (a.1 < b.1 || (a.1 == b.1 && a.2 < b.2)))
}

/// Whether a step leads to the given outcome for the file `d`.
pub open spec fn leads_to(
    r: Result<Step, Error>,
    d: Seq<u8>,
    outcome: Result<ArchiveView, Error>,
) -> bool {
    match r {
        Ok(Step::More(s)) => s.outcome(d) == outcome,
        Ok(Step::Done(a)) => outcome == Ok::<ArchiveView, Error>(a@),
        Err(e) => outcome == Err::<ArchiveView, Error>(e),
    }
}

/// Whether the result of a step is in order, and nearer to the end than the given distance.
pub open spec fn sound(r: Result<Step, Error>, size: u64, distance: (nat, nat, nat)) -> bool {
    match r {
        Ok(Step::More(s)) => s.wf() && s.spec_size() == size && closer(s.distance(), distance),
        Ok(Step::Done(a)) => a.wf(),
        Err(e) => true,
    }
}

impl Scanner {
    /// Starts to read a file of this size. On Windows the names of the entries cannot hold colons.
    pub fn new(size: u64, windows: bool) -> (r: Result<Scanner, Error>)
        ensures
            match r {
                Ok(s) => s.wf() && s.spec_size() == size && forall|d: Seq<u8>|
                    d.len() == size ==> #[trigger] s.outcome(d) == archive_of(d, windows),
                Err(e) => forall|d: Seq<u8>|
                    d.len() == size ==> #[trigger] archive_of(d, windows) == Err::<
                        ArchiveView,
                        Error,
                    >(e),
            },
            r is Ok <==> size >= EndOfCentralDirectory::SIZE,
    {
        proof {
            reveal(archive_of);
        }
        if size < EndOfCentralDirectory::SIZE as u64 {
            return Err(Error::NotAZip);
        }
        Ok(
            Scanner {
                size,
                windows,
                comment: Vec::new(),
                offset: 0,
                entries: Vec::new(),
                stage: Stage::Tail,
            },
        )
    }

    /// Returns where the piece is that the scanner waits for, and its length.
    pub fn request(&self) -> (r: (u64, usize))
        requires
            self.wf(),
        ensures
            r.0 == self.piece_offset(),
            r.1 == self.piece_len(),
    {
        match &self.stage {
            Stage::Tail => (
                self.size - EndOfCentralDirectory::SIZE as u64,
                EndOfCentralDirectory::SIZE,
            ),
            Stage::LongTail => {
                let n: u64 = if self.size < MAX_TAIL {
                    self.size
                } else {
                    MAX_TAIL
                };
                (self.size - n, n as usize)
            },
            Stage::Locator { offset } => (
                *offset - EndOfCentralDirectory64Locator::SIZE as u64,
                EndOfCentralDirectory64Locator::SIZE,
            ),
            Stage::Record { locator_offset, eocd_offset } => (
                *eocd_offset,
                EndOfCentralDirectory64::SIZE,
            ),
            Stage::CentralHeader { pos, left } => (*pos, CentralFileHeader::SIZE),
            Stage::CentralVariable { pos, left, header } => (
                *pos,
                header.file_name_length.get() as usize + header.extra_fields_length.get() as usize
                    + header.file_comment_length.get() as usize,
            ),
            Stage::LocalHeader { pos, index } => (*pos, LocalFileHeader::SIZE),
            Stage::LocalVariable { pos, index, local_header } => (
                *pos,
                local_header.file_name_length.get() as usize
                    + local_header.extra_fields_length.get() as usize,
            ),
            Stage::Descriptor { pos, index, local } => (
                *pos,
                if local.is_zip64 {
                    crate::types::DataDescriptor64::SIZE
                } else {
                    crate::types::DataDescriptor32::SIZE
                },
            ),
        }
    }

    /// A file that ends before the piece does is not an archive.
    pub proof fn lemma_short(self, d: Seq<u8>)
        requires
            self.wf(),
            d.len() == self.spec_size(),
            self.piece_offset() + self.piece_len() > d.len(),
        ensures
            self.outcome(d) == Err::<ArchiveView, Error>(Error::UnexpectedEof),
    {
        reveal(Scanner::resume);
    }

    /// Goes on with the central directory.
    fn enter_directory(self, directory: CentralDirectory) -> (r: Result<Step, Error>)
        requires
            self.wf(),
            self.distance().0 >= 2,
            self.entries@.len() == 0,
        ensures
            sound(r, self.spec_size(), self.distance()),
            forall|d: Seq<u8>|
                d.len() == self.spec_size() ==> #[trigger] leads_to(
                    r,
                    d,
                    from_directory(d, self.windows, directory, self.comment@),
                ),
    {
        assert(archive::views(self.entries@) =~= Seq::<MetadataView>::empty());
        if directory.validate_size().is_none() {
            return Err(Error::InvalidZip);
        }
        if directory.entries == 0 {
            return match RawArchive::from_entries(self.entries, self.comment) {
                Ok(a) => Ok(Step::Done(a)),
                Err(e) => Err(e),
            };
        }
        // We can't support zip archives with more than ~2 billions entries on 32 bits
        // platforms, but these archives are probably broken anyway.
        if directory.entries > usize::MAX as u64 {
            return Err(Error::InvalidZip);
        }
        Ok(
            Step::More(
                Scanner {
                    offset: directory.offset,
                    stage: Stage::CentralHeader {
                        pos: directory.offset,
                        left: directory.entries as usize,
                    },
                    ..self
                },
            ),
        )
    }

    /// Goes on with the end of central directory.
    fn enter_eocd(self, eocd: Eocd) -> (r: Result<Step, Error>)
        requires
            self.wf(),
            self.distance().0 >= 4,
            self.entries@.len() == 0,
        ensures
            sound(r, self.spec_size(), self.distance()),
            forall|d: Seq<u8>|
                d.len() == self.spec_size() ==> #[trigger] leads_to(
                    r,
                    d,
                    from_eocd(d, self.windows, eocd@),
                ),
    {
        if eocd.record.comment_length.get() as usize != eocd.comment.len() {
            return Err(Error::InvalidZip);
        }
        match raw::read_eocd(eocd.offset, eocd.record) {
            Ok(Some(directory)) => {
                let next = Scanner { comment: eocd.comment, ..self };
                next.enter_directory(directory)
            },
            Ok(None) => {
                if eocd.offset < EndOfCentralDirectory64Locator::SIZE as u64 {
                    return Err(Error::InvalidZip);
                }
                Ok(
                    Step::More(
                        Scanner {
                            comment: eocd.comment,
                            stage: Stage::Locator { offset: eocd.offset },
                            ..self
                        },
                    ),
                )
            },
            Err(e) => Err(e),
        }
    }

    /// Goes on with the entry at this index, or ends behind the last one.
    fn enter_local(self, pos: u64, index: usize) -> (r: Result<Step, Error>)
        requires
            self.size >= EndOfCentralDirectory::SIZE,
            index <= self.entries@.len(),
        ensures
            sound(r, self.spec_size(), (0, (self.entries@.len() - index) as nat, 3)),
            forall|d: Seq<u8>|
                d.len() == self.spec_size() ==> #[trigger] leads_to(
                    r,
                    d,
                    from_local(
                        d,
                        self.windows,
                        pos as int,
                        archive::views(self.entries@),
                        index as nat,
                        self.offset,
                        self.comment@,
                    ),
                ),
    {
        if index < self.entries.len() {
            return Ok(
                Step::More(Scanner { stage: Stage::LocalHeader { pos, index }, ..self }),
            );
        }
        if pos != self.offset {
            return Err(Error::InvalidZip);
        }
        match RawArchive::from_entries(self.entries, self.comment) {
            Ok(a) => Ok(Step::Done(a)),
            Err(e) => Err(e),
        }
    }

    /// Completes an entry whose local metadata ends at this position.
    fn complete(self, pos: u64, index: usize, local: Metadata) -> (r: Result<Step, Error>)
        requires
            self.size >= EndOfCentralDirectory::SIZE,
            index < self.entries@.len(),
        ensures
            sound(r, self.spec_size(), (0, (self.entries@.len() - index) as nat, 0)),
            forall|d: Seq<u8>|
                d.len() == self.spec_size() ==> #[trigger] leads_to(
                    r,
                    d,
                    self.go_on(
                        d,
                        index,
                        completed(
                            archive::views(self.entries@)[index as int],
                            local@,
                            pos as int,
                        ),
                    ),
                ),
    {
        proof {
            reveal(Scanner::resume);
        }
        let count: usize = self.entries.len();
        let mut next = self;
        let ghost before = next.entries@;
        match raw::check_local_entry(&mut next.entries[index], &local) {
            Ok(()) => {},
            Err(e) => return Err(e),
        }
        assert(archive::views(next.entries@) =~= archive::views(before).update(
            index as int,
            next.entries@[index as int]@,
        ));
        next.enter_local(pos, index + 1)
    }

    /// Goes on with the data of an entry, which is at this position.
    fn enter_data(self, pos: u64, index: usize, local: Metadata) -> (r: Result<Step, Error>)
        requires
            self.size >= EndOfCentralDirectory::SIZE,
            index < self.entries@.len(),
        ensures
            sound(r, self.spec_size(), (0, (self.entries@.len() - index) as nat, 1)),
            forall|d: Seq<u8>|
                d.len() == self.spec_size() ==> #[trigger] leads_to(
                    r,
                    d,
                    self.go_on(
                        d,
                        index,
                        data_at(
                            d,
                            pos as int,
                            local@,
                            archive::views(self.entries@)[index as int],
                        ),
                    ),
                ),
    {
        let mut next = self;
        next.entries[index].data_offset = pos;
        let file_type = next.entries[index].file_type;
        let compressed_size: u64 = next.entries[index].compressed_size;
        proof {
            assert(next.entries@[index as int]@ =~= MetadataView {
                data_offset: pos,
                ..self.entries@[index as int]@
            });
            assert forall|d: Seq<u8>, m: MetadataView, p: int| #[trigger]
                next.resume(d, index, m, p) == self.resume(d, index, m, p) by {
                next.lemma_resume(self, d, index, m, p);
            }
        }
        if file_type.is_directory() && next.entries[index].uncompressed_size != 0 {
            // Directories should always be empty
            return Err(Error::InvalidEntry);
        }
        // Skip the compressed file
        let mut counter = Counter::new(pos);
        match counter.advance(compressed_size) {
            Ok(()) => {},
            Err(e) => return Err(e),
        }
        // Read the data descriptor if needed
        if local.is_streaming {
            let step = Scanner {
                stage: Stage::Descriptor { pos: counter.amt, index, local },
                ..next
            };
            proof {
                assert forall|d: Seq<u8>, m: MetadataView, p: int| #[trigger]
                    step.resume(d, index, m, p) == self.resume(d, index, m, p) by {
                    step.lemma_resume(self, d, index, m, p);
                }
            }
            Ok(Step::More(step))
        } else {
            let ghost local_view = local@;
            let ghost placed = archive::views(next.entries@)[index as int];
            let r = next.complete(counter.amt, index, local);
            assert forall|d: Seq<u8>| d.len() == self.spec_size() implies #[trigger] leads_to(
                r,
                d,
                self.go_on(
                    d,
                    index,
                    data_at(d, pos as int, local_view, archive::views(self.entries@)[index as int]),
                ),
            ) by {
                let x = completed(placed, local_view, counter.amt as int);
                assert(leads_to(r, d, next.go_on(d, index, x)));
                assert(next.go_on(d, index, x) == self.go_on(d, index, x));
            }
            r
        }
    }

    /// Takes the bytes of an end of central directory without a comment.
    fn feed_tail(self, bytes: &[u8]) -> (r: Result<Step, Error>)
        requires
            self.wf(),
            self.stage is Tail,
            bytes@.len() == self.piece_len(),
        ensures
            sound(r, self.spec_size(), self.distance()),
            forall|d: Seq<u8>|
                self.fits(d, bytes@) ==> #[trigger] leads_to(r, d, self.outcome(d)),
    {
        // Most zip files don't have a comment
        let at: u64 = self.size - EndOfCentralDirectory::SIZE as u64;
        match raw::find_eocd_in_buffer(at, bytes) {
            Ok(Some(eocd)) => self.enter_eocd(eocd),
            Ok(None) => Ok(Step::More(Scanner { stage: Stage::LongTail, ..self })),
            Err(e) => Err(e),
        }
    }

    /// Takes the bytes that can hold an end of central directory with a comment.
    fn feed_long_tail(self, bytes: &[u8]) -> (r: Result<Step, Error>)
        requires
            self.wf(),
            self.stage is LongTail,
            bytes@.len() == self.piece_len(),
        ensures
            sound(r, self.spec_size(), self.distance()),
            forall|d: Seq<u8>|
                self.fits(d, bytes@) ==> #[trigger] leads_to(r, d, self.outcome(d)),
    {
        // This one does
        let at: u64 = self.size - bytes.len() as u64;
        match raw::find_eocd_in_buffer(at, bytes) {
            Ok(Some(eocd)) => self.enter_eocd(eocd),
            Ok(None) => Err(Error::NotAZip),
            Err(e) => Err(e),
        }
    }

    /// Takes a ZIP64 locator.
    fn feed_locator(self, bytes: &[u8], offset: u64) -> (r: Result<Step, Error>)
        requires
            self.wf(),
            self.stage == (Stage::Locator { offset }),
            bytes@.len() == self.piece_len(),
        ensures
            sound(r, self.spec_size(), self.distance()),
            forall|d: Seq<u8>|
                self.fits(d, bytes@) ==> #[trigger] leads_to(r, d, self.outcome(d)),
    {
        let locator_offset: u64 = offset - EndOfCentralDirectory64Locator::SIZE as u64;
        let locator = EndOfCentralDirectory64Locator::read(bytes);
        match raw::read_locator(locator_offset, locator) {
            Ok(eocd_offset) => Ok(
                Step::More(Scanner { stage: Stage::Record { locator_offset, eocd_offset }, ..self }),
            ),
            Err(e) => Err(e),
        }
    }

    /// Takes a ZIP64 record.
    fn feed_record(self, bytes: &[u8], locator_offset: u64, eocd_offset: u64) -> (r: Result<
        Step,
        Error,
    >)
        requires
            self.wf(),
            self.stage == (Stage::Record { locator_offset, eocd_offset }),
            bytes@.len() == self.piece_len(),
        ensures
            sound(r, self.spec_size(), self.distance()),
            forall|d: Seq<u8>|
                self.fits(d, bytes@) ==> #[trigger] leads_to(r, d, self.outcome(d)),
    {
        let record = EndOfCentralDirectory64::read(bytes);
        match raw::read_eocd64(locator_offset, eocd_offset, record) {
            Ok(directory) => self.enter_directory(directory),
            Err(e) => Err(e),
        }
    }

    /// Takes a central header.
    fn feed_central_header(self, bytes: &[u8], pos: u64, left: usize) -> (r: Result<Step, Error>)
        requires
            self.wf(),
            self.stage == (Stage::CentralHeader { pos, left }),
            bytes@.len() == self.piece_len(),
        ensures
            sound(r, self.spec_size(), self.distance()),
            forall|d: Seq<u8>|
                self.fits(d, bytes@) ==> #[trigger] leads_to(r, d, self.outcome(d)),
    {
        let header = CentralFileHeader::read(bytes);
        if pos > self.size || self.size - pos < CentralFileHeader::SIZE as u64 {
            // There is no file with such a piece.
            return Err(Error::UnexpectedEof);
        }
        let next: u64 = pos + CentralFileHeader::SIZE as u64;
        Ok(
            Step::More(
                Scanner { stage: Stage::CentralVariable { pos: next, left, header }, ..self },
            ),
        )
    }

    /// Takes the variable fields of a central header.
    fn feed_central_variable(
        self,
        bytes: &[u8],
        pos: u64,
        left: usize,
        header: CentralFileHeader,
    ) -> (r: Result<Step, Error>)
        requires
            self.wf(),
            self.stage == (Stage::CentralVariable { pos, left, header }),
            bytes@.len() == self.piece_len(),
        ensures
            sound(r, self.spec_size(), self.distance()),
            forall|d: Seq<u8>|
                self.fits(d, bytes@) ==> #[trigger] leads_to(r, d, self.outcome(d)),
    {
        if self.size - pos < bytes.len() as u64 {
            // There is no file with such a piece.
            return Err(Error::UnexpectedEof);
        }
        let m = match raw::read_central_header(header, bytes, self.windows) {
            Ok(m) => m,
            Err(e) => return Err(e),
        };
        let next: u64 = pos + bytes.len() as u64;
        let ghost m_view = m@;
        let mut all = self.entries;
        let ghost before = all@;
        all.push(m);
        assert(archive::views(all@) =~= archive::views(before).push(m_view));
        if left > 1 {
            return Ok(
                Step::More(
                    Scanner {
                        entries: all,
                        stage: Stage::CentralHeader { pos: next, left: left - 1 },
                        ..self
                    },
                ),
            );
        }
        // Check that the local headers match the central ones and fill the missing data offset.
        // We expect local entries to be in order. Although the format does not ask for it, this is
        // the "normal" behavior, and deviations from it are only used by malicious attempts to do
        // confusion attacks or zip bombs.
        let first_offset: u64 = all[0].header_offset;
        let base = Scanner { entries: all, ..self };
        base.enter_local(first_offset, 0)
    }

    /// Takes a local header.
    fn feed_local_header(self, bytes: &[u8], pos: u64, index: usize) -> (r: Result<Step, Error>)
        requires
            self.wf(),
            self.stage == (Stage::LocalHeader { pos, index }),
            bytes@.len() == self.piece_len(),
        ensures
            sound(r, self.spec_size(), self.distance()),
            forall|d: Seq<u8>|
                self.fits(d, bytes@) ==> #[trigger] leads_to(r, d, self.outcome(d)),
    {
        proof {
            reveal(Scanner::resume);
        }
        let local_header = LocalFileHeader::read(bytes);
        if pos > self.size || self.size - pos < LocalFileHeader::SIZE as u64 {
            // There is no file with such a piece.
            return Err(Error::UnexpectedEof);
        }
        let next: u64 = pos + LocalFileHeader::SIZE as u64;
        Ok(
            Step::More(
                Scanner { stage: Stage::LocalVariable { pos: next, index, local_header }, ..self },
            ),
        )
    }

    /// Takes the variable fields of a local header.
    fn feed_local_variable(
        self,
        bytes: &[u8],
        pos: u64,
        index: usize,
        local_header: LocalFileHeader,
    ) -> (r: Result<Step, Error>)
        requires
            self.wf(),
            self.stage == (Stage::LocalVariable { pos, index, local_header }),
            bytes@.len() == self.piece_len(),
        ensures
            sound(r, self.spec_size(), self.distance()),
            forall|d: Seq<u8>|
                self.fits(d, bytes@) ==> #[trigger] leads_to(r, d, self.outcome(d)),
    {
        if self.size - pos < bytes.len() as u64 {
            // There is no file with such a piece.
            return Err(Error::UnexpectedEof);
        }
        let local = match raw::read_local_header(local_header, bytes, self.windows) {
            Ok(m) => m,
            Err(e) => return Err(e),
        };
        let next: u64 = pos + bytes.len() as u64;
        self.enter_data(next, index, local)
    }

    /// Takes the descriptor of an entry.
    fn feed_descriptor(self, bytes: &[u8]) -> (r: Result<Step, Error>)
        requires
            self.wf(),
            self.stage is Descriptor,
            bytes@.len() == self.piece_len(),
        ensures
            sound(r, self.spec_size(), self.distance()),
            forall|d: Seq<u8>|
                self.fits(d, bytes@) ==> #[trigger] leads_to(r, d, self.outcome(d)),
    {
        match self.stage {
            Stage::Descriptor { pos, index, local } => {
                let base = Scanner { stage: Stage::Tail, ..self };
                proof {
                    assert forall|d: Seq<u8>, m: MetadataView, p: int| #[trigger]
                        base.resume(d, index, m, p) == self.resume(d, index, m, p) by {
                        base.lemma_resume(self, d, index, m, p);
                    }
                }
                let ghost entry = archive::views(self.entries@)[index as int];
                let ghost before = local@;
                let mut local = local;
                match raw::read_data_descriptor(&mut local, bytes) {
                    Ok(()) => {},
                    Err(e) => return Err(e),
                }
                if pos > base.size || base.size - pos < bytes.len() as u64 {
                    // There is no file with such a piece.
                    return Err(Error::UnexpectedEof);
                }
                let next: u64 = pos + bytes.len() as u64;
                let ghost x = completed(entry, local@, next as int);
                let r = base.complete(next, index, local);
                assert forall|d: Seq<u8>| self.fits(d, bytes@) implies #[trigger] leads_to(
                    r,
                    d,
                    self.outcome(d),
                ) by {
                    assert(leads_to(r, d, base.go_on(d, index, x)));
                    assert(base.go_on(d, index, x) == self.go_on(d, index, x));
                    assert(descriptor_at(d, pos as int, before, entry) == x);
                }
                r
            },
            _ => Err(Error::UnexpectedEof),
        }
    }

    /// Takes the piece that the scanner waits for.
    pub fn feed(self, bytes: &[u8]) -> (r: Result<Step, Error>)
        requires
            self.wf(),
            bytes@.len() == self.piece_len(),
        ensures
            sound(r, self.spec_size(), self.distance()),
            forall|d: Seq<u8>|
                self.fits(d, bytes@) ==> #[trigger] leads_to(r, d, self.outcome(d)),
    {
        match self.stage {
            Stage::Tail => self.feed_tail(bytes),
            Stage::LongTail => self.feed_long_tail(bytes),
            Stage::Locator { offset } => self.feed_locator(bytes, offset),
            Stage::Record { locator_offset, eocd_offset } => self.feed_record(
                bytes,
                locator_offset,
                eocd_offset,
            ),
            Stage::CentralHeader { pos, left } => self.feed_central_header(bytes, pos, left),
            Stage::CentralVariable { pos, left, header } => self.feed_central_variable(
                bytes,
                pos,
                left,
                header,
            ),
            Stage::LocalHeader { pos, index } => self.feed_local_header(bytes, pos, index),
            Stage::LocalVariable { pos, index, local_header } => self.feed_local_variable(
                bytes,
                pos,
                index,
                local_header,
            ),
            Stage::Descriptor { .. } => self.feed_descriptor(bytes),
        }
    }
}

} // verus!
