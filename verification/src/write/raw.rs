//! The bytes of an archive that is written entry by entry.
use crate::compression::CompressionMethod;
use crate::error::Error;
use crate::types::{
    CentralFileHeader, DataDescriptor64, EndOfCentralDirectory, EndOfCentralDirectory64,
    EndOfCentralDirectory64Locator, LocalFileHeader, U16, U32, U64,
};
use crate::utils::name_table::NameTable;
use crate::utils::names;
use crate::utils::{FileType, Timestamp, NT_EPOCH};
use crate::write::FileOptions;
use vstd::prelude::*;
use vstd::string::*;
use vstd::utf8::*;

verus! {

/// The longest name, and the longest comment, that a header can tell the length of.
pub const MAX_TEXT: usize = 65535;

/// What is known of an entry that is written.
#[derive(Debug, Clone, Copy, PartialEq, Eq, Structural)]
pub struct Metadata {
    pub compression_method: CompressionMethod,
    pub uncompressed_size: u64,
    pub crc32: u32,
    pub typ: FileType,
    /// The modification time. It is ignored where it is the UNIX epoch, or later than
    /// [`LATEST_TIME`].
    pub modified_at: Timestamp,
}

/// The latest modification time that an archive can tell, in the year 60056.
pub const LATEST_TIME: u64 = u64::MAX / 10_000_000 - NT_EPOCH;

/// Whether a modification time is written.
pub open spec fn has_time(time: Timestamp) -> bool {
    0 < time.0 <= LATEST_TIME
}

/// Whether a modification time is too late for the field with 32-bit times.
pub open spec fn is_late(time: Timestamp) -> bool {
    u32::MAX < time.0 <= LATEST_TIME
}

/// The attribute of a NTFS field that gives a modification time. The access and creation times are
/// not known.
pub open spec fn ntfs_attribute(time: Timestamp) -> Seq<u8> {
    U64::of(((time.0 + NT_EPOCH) * 10_000_000) as u64).bytes() + U64::of(0).bytes() + U64::of(
        0,
    ).bytes()
}

/// The extra field that gives a modification time: a field with 32-bit times, or a NTFS field where
/// the time is too late for it.
#[verifier::opaque]
pub open spec fn time_field(time: Timestamp) -> Seq<u8> {
    if !has_time(time) {
        Seq::empty()
    } else if !is_late(time) {
        U16::of(0x5455).bytes() + U16::of(5).bytes() + seq![1u8] + U32::of(time.0 as u32).bytes()
    } else {
        U16::of(0x000a).bytes() + U16::of(32).bytes() + U32::of(0).bytes() + U16::of(1).bytes()
            + U16::of(24).bytes() + ntfs_attribute(time)
    }
}

/// The length of the extra field that gives a modification time.
pub open spec fn time_field_len(time: Timestamp) -> nat {
    if !has_time(time) {
        0
    } else if !is_late(time) {
        9
    } else {
        36
    }
}

/// The extra field with the sizes of an entry, for its local header.
pub open spec fn local_zip64(uncompressed_size: u64, compressed_size: u64) -> Seq<u8> {
    U16::of(1).bytes() + U16::of(16).bytes() + U64::of(uncompressed_size).bytes() + U64::of(
        compressed_size,
    ).bytes()
}

/// The extra field with the sizes and the place of an entry, for its central header.
pub open spec fn central_zip64(
    uncompressed_size: u64,
    compressed_size: u64,
    local_header_offset: u64,
) -> Seq<u8> {
    U16::of(1).bytes() + U16::of(24).bytes() + U64::of(uncompressed_size).bytes() + U64::of(
        compressed_size,
    ).bytes() + U64::of(local_header_offset).bytes()
}

/// The flags of an entry: its texts are UTF-8, and a descriptor follows its data where it is
/// streamed.
pub open spec fn flags_of(is_streaming: bool) -> u16 {
    if is_streaming {
        0x0808
    } else {
        0x0800
    }
}

/// The attributes of an entry, for MS-DOS in the lower half and for UNIX in the upper one.
pub open spec fn attributes_of(typ: FileType) -> u32 {
    match typ {
        FileType::File => 0x8000_0020,
        FileType::Directory => 0x4000_0010,
        FileType::Symlink => 0xa1ff_0000,
    }
}

/// The fixed part of a local header. The sizes are in an extra field.
pub open spec fn local_header(name_len: nat, meta: Metadata, is_streaming: bool) -> LocalFileHeader {
    LocalFileHeader {
        signature: U32::of(LocalFileHeader::SIGNATURE),
        required_version: U16::of(45),
        flags: U16::of(flags_of(is_streaming)),
        compression_method: U16::of(meta.compression_method.0),
        last_modified_time: U16::of(0),
        last_modified_date: U16::of(0),
        crc32: U32::of(meta.crc32),
        compressed_size: U32::of(0xffff_ffff),
        uncompressed_size: U32::of(0xffff_ffff),
        file_name_length: U16::of(name_len as u16),
        extra_fields_length: U16::of((20 + time_field_len(meta.modified_at)) as u16),
    }
}

/// What precedes the data of an entry.
#[verifier::opaque]
pub open spec fn local_record(
    name: Seq<u8>,
    meta: Metadata,
    compressed_size: u64,
    is_streaming: bool,
) -> Seq<u8> {
    local_header(name.len(), meta, is_streaming).bytes() + name + local_zip64(
        meta.uncompressed_size,
        compressed_size,
    ) + time_field(meta.modified_at)
}

/// The fixed part of a central header. The sizes and the place of the entry are in an extra field.
pub open spec fn central_header(
    name_len: nat,
    comment_len: nat,
    meta: Metadata,
    is_streaming: bool,
) -> CentralFileHeader {
    CentralFileHeader {
        signature: U32::of(CentralFileHeader::SIGNATURE),
        made_by: U16::of(0x0300),
        version_needed: U16::of(45),
        flags: U16::of(flags_of(is_streaming)),
        compression_method: U16::of(meta.compression_method.0),
        last_modified_time: U16::of(0),
        last_modified_date: U16::of(0),
        crc32: U32::of(meta.crc32),
        compressed_size: U32::of(0xffff_ffff),
        uncompressed_size: U32::of(0xffff_ffff),
        file_name_length: U16::of(name_len as u16),
        extra_fields_length: U16::of((28 + time_field_len(meta.modified_at)) as u16),
        file_comment_length: U16::of(comment_len as u16),
        disk_number: U16::of(0),
        internal_attributes: U16::of(1),
        external_attributes: U32::of(attributes_of(meta.typ)),
        local_header_offset: U32::of(0xffff_ffff),
    }
}

/// What the central directory says of an entry.
#[verifier::opaque]
pub open spec fn central_record(
    name: Seq<u8>,
    meta: Metadata,
    compressed_size: u64,
    is_streaming: bool,
    local_header_offset: u64,
    comment: Seq<u8>,
) -> Seq<u8> {
    central_header(name.len(), comment.len(), meta, is_streaming).bytes() + name + central_zip64(
        meta.uncompressed_size,
        compressed_size,
        local_header_offset,
    ) + time_field(meta.modified_at) + comment
}

/// What follows the data of an entry that is streamed.
pub open spec fn descriptor(uncompressed_size: u64, compressed_size: u64, crc32: u32) -> Seq<u8> {
    DataDescriptor64 {
        signature: U32::of(DataDescriptor64::SIGNATURE),
        crc32: U32::of(crc32),
        compressed_size: U64::of(compressed_size),
        uncompressed_size: U64::of(uncompressed_size),
    }.bytes()
}

/// The ZIP64 record of a central directory.
pub open spec fn eocd64(entries: u64, offset: u64, size: u64) -> EndOfCentralDirectory64 {
    EndOfCentralDirectory64 {
        signature: U32::of(EndOfCentralDirectory64::SIGNATURE),
        record_size: U64::of(44),
        made_by: U16::of(0x0300),
        version_needed: U16::of(45),
        disk_number: U32::of(0),
        disk_with_central_directory: U32::of(0),
        entries_on_this_disk: U64::of(entries),
        total_entries: U64::of(entries),
        central_directory_size: U64::of(size),
        central_directory_offset: U64::of(offset),
    }
}

/// The locator of a ZIP64 record at this place.
pub open spec fn locator(offset: u64) -> EndOfCentralDirectory64Locator {
    EndOfCentralDirectory64Locator {
        signature: U32::of(EndOfCentralDirectory64Locator::SIGNATURE),
        disk_with_central_directory: U32::of(0),
        central_directory_64_offset: U64::of(offset),
        total_disks: U32::of(1),
    }
}

/// The end of central directory. Everything in it is in the ZIP64 record.
pub open spec fn eocd() -> EndOfCentralDirectory {
    EndOfCentralDirectory {
        signature: U32::of(EndOfCentralDirectory::SIGNATURE),
        disk_number: U16::of(0),
        disk_with_central_directory: U16::of(0),
        entries_on_this_disk: U16::of(0xffff),
        total_entries: U16::of(0xffff),
        central_directory_size: U32::of(0xffff_ffff),
        central_directory_offset: U32::of(0xffff_ffff),
        comment_length: U16::of(0),
    }
}

/// What follows a central directory with this number of entries, at this place and of this size.
#[verifier::opaque]
pub open spec fn end_records(entries: u64, offset: u64, size: u64) -> Seq<u8> {
    eocd64(entries, offset, size).bytes() + locator((offset + size) as u64).bytes() + eocd().bytes()
}

/// Appends the extra field that gives a modification time.
fn push_time_field(out: &mut Vec<u8>, time: Timestamp)
    ensures
        final(out)@ == old(out)@ + time_field(time),
{
    proof {
        reveal(time_field);
    }
    if 0 < time.0 && time.0 <= u32::MAX as u64 {
        U16::set(0x5455).push(out);
        U16::set(5).push(out);
        out.push(1);
        U32::set(time.0 as u32).push(out);
    } else if time.0 > u32::MAX as u64 && time.0 <= LATEST_TIME {
        U16::set(0x000a).push(out);
        U16::set(32).push(out);
        U32::set(0).push(out);
        U16::set(1).push(out);
        U16::set(24).push(out);
        U64::set((time.0 + NT_EPOCH) * 10_000_000).push(out);
        U64::set(0).push(out);
        U64::set(0).push(out);
    }
    assert(out@ =~= old(out)@ + time_field(time));
}

/// Returns the length of the extra field that gives a modification time.
fn len_of_time_field(time: Timestamp) -> (r: u16)
    ensures
        r == time_field_len(time),
{
    if 0 < time.0 && time.0 <= u32::MAX as u64 {
        9
    } else if time.0 > u32::MAX as u64 && time.0 <= LATEST_TIME {
        36
    } else {
        0
    }
}

/// Returns the flags of an entry.
fn get_flags(is_streaming: bool) -> (r: u16)
    ensures
        r == flags_of(is_streaming),
{
    if is_streaming {
        0x0808
    } else {
        0x0800
    }
}

/// Appends what precedes the data of an entry.
pub fn write_local_header(
    out: &mut Vec<u8>,
    name: &str,
    meta: &Metadata,
    compressed_size: u64,
    is_streaming: bool,
)
    requires
        name.spec_bytes().len() <= MAX_TEXT,
    ensures
        final(out)@ == old(out)@ + local_record(
            name.spec_bytes(),
            *meta,
            compressed_size,
            is_streaming,
        ),
{
    proof {
        reveal(local_record);
    }
    let bytes = name.as_bytes();
    let header = LocalFileHeader {
        signature: U32::set(LocalFileHeader::SIGNATURE),
        required_version: U16::set(45),
        flags: U16::set(get_flags(is_streaming)),
        compression_method: U16::set(meta.compression_method.0),
        last_modified_time: U16::set(0),
        last_modified_date: U16::set(0),
        crc32: U32::set(meta.crc32),
        compressed_size: U32::set(0xffff_ffff),
        uncompressed_size: U32::set(0xffff_ffff),
        file_name_length: U16::set(bytes.len() as u16),
        extra_fields_length: U16::set(20 + len_of_time_field(meta.modified_at)),
    };
    header.push(out);
    out.extend_from_slice(bytes);
    U16::set(0x0001).push(out);
    U16::set(16).push(out);
    U64::set(meta.uncompressed_size).push(out);
    U64::set(compressed_size).push(out);
    push_time_field(out, meta.modified_at);
    assert(out@ =~= old(out)@ + local_record(
        name.spec_bytes(),
        *meta,
        compressed_size,
        is_streaming,
    ));
}

/// Appends what follows the data of an entry that is streamed.
pub fn write_descriptor(
    out: &mut Vec<u8>,
    uncompressed_size: u64,
    compressed_size: u64,
    crc32: u32,
)
    ensures
        final(out)@ == old(out)@ + descriptor(uncompressed_size, compressed_size, crc32),
{
    let record = DataDescriptor64 {
        signature: U32::set(DataDescriptor64::SIGNATURE),
        crc32: U32::set(crc32),
        compressed_size: U64::set(compressed_size),
        uncompressed_size: U64::set(uncompressed_size),
    };
    record.push(out);
}

/// Whether an entry is being written.
#[derive(Debug, Clone, Copy, PartialEq, Eq, Structural)]
enum State {
    Default,
    /// An entry that starts at this position is not finished.
    Writing(u64),
}

/// How far an archive is written.
#[verifier::ext_equal]
pub struct RawView {
    /// Where the entry starts that is being written.
    pub writing: Option<u64>,
    /// The names of the entries, without trailing slashes.
    pub names: Seq<Seq<u8>>,
    /// The central directory so far.
    pub central: Seq<u8>,
    /// The number of bytes written, not counting the entry that is being written.
    pub position: u64,
}

/// Writes the structure of an archive.
#[derive(Debug)]
pub struct RawArchiveWriter {
    state: State,
    names: NameTable,
    central_headers: Vec<u8>,
    position: u64,
}

impl View for RawArchiveWriter {
    type V = RawView;

    closed spec fn view(&self) -> RawView {
        RawView {
            writing: match self.state {
                State::Default => None,
                State::Writing(pos) => Some(pos),
            },
            names: self.names@,
            central: self.central_headers@,
            position: self.position,
        }
    }
}

/// The name under which an entry is written, where it is allowed. A directory has a trailing slash
/// in its name, and nothing else has.
pub open spec fn checked_name(
    taken: Seq<Seq<u8>>,
    name: Seq<u8>,
    typ: FileType,
    windows: bool,
) -> Result<Seq<u8>, Error> {
    if name.len() > MAX_TEXT {
        Err(Error::FileNameTooLong)
    } else {
        match names::valid_name(name, windows) {
            None => Err(Error::InvalidFileName),
            Some(s) => if names::ends_with_slash(s) != (typ is Directory) {
                Err(Error::InvalidFileName)
            } else if taken.contains(names::stripped(s)) {
                Err(Error::DuplicatedFileName)
            } else {
                Ok(s)
            },
        }
    }
}

/// The name under which an entry starts to be written. None can start while another one is not
/// finished.
pub open spec fn begun(raw: RawView, name: Seq<u8>, typ: FileType, windows: bool) -> Result<
    Seq<u8>,
    Error,
> {
    match checked_name(raw.names, name, typ, windows) {
        Ok(s) => if raw.writing is Some {
            Err(Error::NotFinished)
        } else {
            Ok(s)
        },
        Err(e) => Err(e),
    }
}

/// The archive after the entry that is not finished is forgotten.
pub open spec fn recovered(raw: RawView) -> RawView {
    match raw.writing {
        Some(pos) => RawView { writing: None, position: pos, ..raw },
        None => raw,
    }
}

/// What is left of the bytes written when the entry that is not finished is erased.
pub open spec fn kept(raw: RawView, bytes: Seq<u8>) -> Seq<u8> {
    match raw.writing {
        Some(pos) => bytes.take(pos as int),
        None => bytes,
    }
}

/// The bytes of the whole archive, where no entry is left unfinished.
pub open spec fn finished(raw: RawView, bytes: Seq<u8>) -> Result<Seq<u8>, Error> {
    match raw.writing {
        Some(_) => Err(Error::NotFinished),
        None => Ok(
            bytes + raw.central + end_records(
                raw.names.len() as u64,
                raw.position,
                raw.central.len() as u64,
            ),
        ),
    }
}

/// The archive after an entry is finished.
pub open spec fn ended(
    raw: RawView,
    name: Seq<u8>,
    meta: Metadata,
    compressed_size: u64,
    is_streaming: bool,
    comment: Seq<u8>,
    written: u64,
) -> RawView {
    RawView {
        writing: None,
        names: if raw.names.contains(names::stripped(name)) {
            raw.names
        } else {
            raw.names.push(names::stripped(name))
        },
        central: raw.central + central_record(
            name,
            meta,
            compressed_size,
            is_streaming,
            raw.position,
            comment,
        ),
        position: (raw.position + written) as u64,
    }
}

impl RawArchiveWriter {
    /// The table of names is in order, and an entry that is not finished starts behind the others.
    pub closed spec fn wf(self) -> bool {
        &&& self.names.wf()
        &&& self@.writing is Some ==> self@.writing == Some(self@.position)
    }

    /// An entry that is not finished starts behind the others.
    pub proof fn lemma_unfinished(self)
        requires
            self.wf(),
        ensures
            self@.writing is Some ==> self@.writing == Some(self@.position),
    {
    }

    /// Starts an archive without entries.
    pub fn new() -> (r: RawArchiveWriter)
        ensures
            r.wf(),
            r@ == (RawView {
                writing: None,
                names: Seq::empty(),
                central: Seq::empty(),
                position: 0,
            }),
    {
        let r = RawArchiveWriter {
            state: State::Default,
            names: NameTable::new(),
            central_headers: Vec::new(),
            position: 0,
        };
        assert(r@.central =~= Seq::<u8>::empty());
        r
    }

    /// Makes sure that the last entry is finished, and starts to write the next one.
    pub fn start_writing(&mut self) -> (r: Result<(), Error>)
        requires
            old(self).wf(),
        ensures
            final(self).wf(),
            match old(self)@.writing {
                Some(_) => r == Err::<(), Error>(Error::NotFinished) && final(self)@ == old(self)@,
                None => r is Ok && final(self)@ == (RawView {
                    writing: Some(old(self)@.position),
                    ..old(self)@
                }),
            },
    {
        if let State::Writing(_) = self.state {
            return Err(Error::NotFinished);
        }
        self.state = State::Writing(self.position);
        Ok(())
    }

    /// Returns where the entry starts that is not finished.
    pub fn unfinished(&self) -> (r: Option<u64>)
        ensures
            r == self@.writing,
    {
        match self.state {
            State::Default => None,
            State::Writing(pos) => Some(pos),
        }
    }

    /// Forgets the entry that is not finished. What is written from now on comes in its place.
    pub fn recover(&mut self)
        requires
            old(self).wf(),
        ensures
            final(self).wf(),
            final(self)@ == recovered(old(self)@),
    {
        if let State::Writing(pos) = self.state {
            self.state = State::Default;
            self.position = pos;
        }
    }

    /// Returns the name under which an entry is written.
    pub fn check_name(&self, name: &str, typ: FileType, windows: bool) -> (r: Result<String, Error>)
        requires
            self.wf(),
        ensures
            match checked_name(self@.names, name.spec_bytes(), typ, windows) {
                Ok(s) => r is Ok && encode_utf8(r->Ok_0@) == s && s.len() <= MAX_TEXT,
                Err(e) => r == Err::<String, Error>(e),
            },
    {
        if name.as_bytes().len() > MAX_TEXT {
            return Err(Error::FileNameTooLong);
        }
        let valid = match names::validate_name(name, windows) {
            Some(valid) => valid,
            None => return Err(Error::InvalidFileName),
        };
        if names::is_directory_name(valid.as_str()) != typ.is_directory() {
            return Err(Error::InvalidFileName);
        }
        let key = names::strip_name(valid.as_str());
        proof {
            names::lemma_joined_len(name.spec_bytes());
        }
        match self.names.index_of(key.as_slice()) {
            Some(i) => {
                assert(self@.names[i as int] == key@);
                Err(Error::DuplicatedFileName)
            },
            None => Ok(valid),
        }
    }

    /// Starts to write an entry, and returns the name under which it is written.
    pub fn begin_entry(&mut self, name: &str, typ: FileType, windows: bool) -> (r: Result<
        String,
        Error,
    >)
        requires
            old(self).wf(),
        ensures
            final(self).wf(),
            match begun(old(self)@, name.spec_bytes(), typ, windows) {
                Ok(s) => r is Ok && encode_utf8(r->Ok_0@) == s && s.len() <= MAX_TEXT && final(
                    self)@ == (RawView { writing: Some(old(self)@.position), ..old(self)@ }),
                Err(e) => r == Err::<String, Error>(e) && final(self)@ == old(self)@,
            },
    {
        let valid = match self.check_name(name, typ, windows) {
            Ok(valid) => valid,
            Err(e) => return Err(e),
        };
        match self.start_writing() {
            Ok(()) => Ok(valid),
            Err(e) => Err(e),
        }
    }

    /// Adds an entry to the central directory.
    pub fn push_central_header(
        &mut self,
        name: &str,
        meta: &Metadata,
        compressed_size: u64,
        is_streaming: bool,
        local_header_offset: u64,
        comment: &str,
    )
        requires
            old(self).wf(),
            name.spec_bytes().len() <= MAX_TEXT,
            comment.spec_bytes().len() <= MAX_TEXT,
        ensures
            final(self).wf(),
            final(self)@ == (RawView {
                names: if old(self)@.names.contains(names::stripped(name.spec_bytes())) {
                    old(self)@.names
                } else {
                    old(self)@.names.push(names::stripped(name.spec_bytes()))
                },
                central: old(self)@.central + central_record(
                    name.spec_bytes(),
                    *meta,
                    compressed_size,
                    is_streaming,
                    local_header_offset,
                    comment.spec_bytes(),
                ),
                ..old(self)@
            }),
    {
        let name_bytes = name.as_bytes();
        let comment_bytes = comment.as_bytes();
        let attributes: u32 = match meta.typ {
            FileType::File => 0x8000_0020,
            FileType::Directory => 0x4000_0010,
            FileType::Symlink => 0xa1ff_0000,
        };
        let header = CentralFileHeader {
            signature: U32::set(CentralFileHeader::SIGNATURE),
            made_by: U16::set(0x0300),  // Unix
            version_needed: U16::set(45),  // Version 4.5 for Zip64 support
            flags: U16::set(get_flags(is_streaming)),
            compression_method: U16::set(meta.compression_method.0),
            last_modified_time: U16::set(0),
            last_modified_date: U16::set(0),
            crc32: U32::set(meta.crc32),
            compressed_size: U32::set(0xffff_ffff),
            uncompressed_size: U32::set(0xffff_ffff),
            file_name_length: U16::set(name_bytes.len() as u16),
            extra_fields_length: U16::set(28 + len_of_time_field(meta.modified_at)),
            file_comment_length: U16::set(comment_bytes.len() as u16),
            disk_number: U16::set(0),
            internal_attributes: U16::set(1),  // "Binary Data" flag
            external_attributes: U32::set(attributes),
            local_header_offset: U32::set(0xffff_ffff),
        };
        header.push(&mut self.central_headers);
        self.central_headers.extend_from_slice(name_bytes);
        U16::set(0x0001).push(&mut self.central_headers);
        U16::set(24).push(&mut self.central_headers);
        U64::set(meta.uncompressed_size).push(&mut self.central_headers);
        U64::set(compressed_size).push(&mut self.central_headers);
        U64::set(local_header_offset).push(&mut self.central_headers);
        push_time_field(&mut self.central_headers, meta.modified_at);
        self.central_headers.extend_from_slice(comment_bytes);
        proof {
            reveal(central_record);
        }
        assert(self.central_headers@ =~= old(self).central_headers@ + central_record(
            name.spec_bytes(),
            *meta,
            compressed_size,
            is_streaming,
            local_header_offset,
            comment.spec_bytes(),
        ));
        let _ = self.names.insert(names::strip_name(name));
    }

    /// Finishes an entry for which this number of bytes was written.
    pub fn end_entry(
        &mut self,
        name: &str,
        meta: &Metadata,
        compressed_size: u64,
        is_streaming: bool,
        comment: &str,
        written: u64,
    )
        requires
            old(self).wf(),
            name.spec_bytes().len() <= MAX_TEXT,
            comment.spec_bytes().len() <= MAX_TEXT,
            old(self)@.position + written <= u64::MAX,
        ensures
            final(self).wf(),
            final(self)@ == ended(
                old(self)@,
                name.spec_bytes(),
                *meta,
                compressed_size,
                is_streaming,
                comment.spec_bytes(),
                written,
            ),
    {
        let offset: u64 = self.position;
        self.push_central_header(name, meta, compressed_size, is_streaming, offset, comment);
        self.position = self.position + written;
        self.state = State::Default;
    }

    /// Writes an entry with this data, behind the entries before it, which are in the same `writer`.
    pub fn write_file_raw(
        &mut self,
        writer: &mut Vec<u8>,
        name: &str,
        content: &[u8],
        meta: &Metadata,
        comment: &str,
        windows: bool,
    ) -> (r: Result<(), Error>)
        requires
            old(self).wf(),
            old(self)@.position <= old(writer)@.len(),
        ensures
            final(self).wf(),
            match file_written(
                old(self)@,
                name.spec_bytes(),
                content@,
                *meta,
                comment.spec_bytes(),
                windows,
            ) {
                Ok((bytes, raw)) => r is Ok && final(writer)@ == old(writer)@ + bytes && final(
                    self)@ == raw && raw.position <= final(writer)@.len(),
                Err(e) => r == Err::<(), Error>(e) && final(writer)@ == old(writer)@ && final(
                    self)@ == old(self)@,
            },
    {
        if comment.as_bytes().len() > MAX_TEXT {
            return Err(Error::CommentTooLong);
        }
        let valid = match self.begin_entry(name, meta.typ, windows) {
            Ok(valid) => valid,
            Err(e) => return Err(e),
        };
        let start: usize = writer.len();
        let size: u64 = content.len() as u64;
        write_local_header(writer, valid.as_str(), meta, size, false);
        writer.extend_from_slice(content);
        proof {
            let bytes = local_record(encode_utf8(valid@), *meta, size, false) + content@;
            assert(writer@ =~= old(writer)@ + bytes);
        }
        let written: u64 = (writer.len() - start) as u64;
        self.end_entry(valid.as_str(), meta, size, false, comment, written);
        Ok(())
    }

    /// Starts to write an entry whose data comes later, behind the entries before it, which are in
    /// the same `writer`.
    pub fn start_stream_raw<'a>(
        &'a mut self,
        writer: &'a mut Vec<u8>,
        name: &str,
        options: &FileOptions,
        windows: bool,
    ) -> (r: Result<RawFileStreamer<'a>, Error>)
        requires
            old(self).wf(),
            old(self)@.position <= old(writer)@.len(),
        ensures
            match begun(old(self)@, name.spec_bytes(), FileType::File, windows) {
                Ok(s) => r matches Ok(f) && f.wf() && f.writer@ == old(writer)@ + local_record(
                    s,
                    streamed(*options, 0, 0),
                    0,
                    true,
                ) && f.raw@ == (RawView { writing: Some(old(self)@.position), ..old(self)@ })
                    && f.header_len() == f.writer@.len() - old(writer)@.len() && f.data().len() == 0
                    && encode_utf8(f.file_name@) == s && f.options == *options && *final(self)
                    == *final(f.raw) && *final(writer) == *final(f.writer),
                Err(e) => r matches Err(x) && x == e && final(self).wf() && final(self)@ == old(
                    self)@ && final(writer)@ == old(writer)@,
            },
    {
        let file_name = match self.begin_entry(name, FileType::File, windows) {
            Ok(valid) => valid,
            Err(e) => return Err(e),
        };
        let start: usize = writer.len();
        let meta = Metadata {
            compression_method: options.compression_method,
            uncompressed_size: 0,
            crc32: 0,
            typ: FileType::File,
            modified_at: options.modified_at,
        };
        write_local_header(writer, file_name.as_str(), &meta, 0, true);
        let data_start: usize = writer.len();
        Ok(RawFileStreamer { start, data_start, writer, file_name, options: *options, raw: self })
    }

    /// Returns the central directory so far.
    pub fn central_directory(&self) -> (r: &[u8])
        ensures
            r@ == self@.central,
    {
        self.central_headers.as_slice()
    }

    /// Returns the number of bytes written.
    pub fn position(&self) -> (r: u64)
        ensures
            r == self@.position,
    {
        self.position
    }

    /// Returns what follows the central directory.
    pub fn end_of_directory(&self) -> (r: Vec<u8>)
        requires
            self@.position + self@.central.len() <= u64::MAX,
        ensures
            r@ == end_records(
                self@.names.len() as u64,
                self@.position,
                self@.central.len() as u64,
            ),
    {
        let offset: u64 = self.position;
        let size: u64 = self.central_headers.len() as u64;
        let total_entries = U64::set(self.names.len() as u64);
        let mut out: Vec<u8> = Vec::new();
        let record = EndOfCentralDirectory64 {
            signature: U32::set(EndOfCentralDirectory64::SIGNATURE),
            record_size: U64::set(44),
            made_by: U16::set(0x0300),  // Unix
            version_needed: U16::set(45),  // Version 4.5 for Zip64 support
            disk_number: U32::set(0),
            disk_with_central_directory: U32::set(0),
            entries_on_this_disk: total_entries,
            total_entries,
            central_directory_size: U64::set(size),
            central_directory_offset: U64::set(offset),
        };
        record.push(&mut out);
        let locator = EndOfCentralDirectory64Locator {
            signature: U32::set(EndOfCentralDirectory64Locator::SIGNATURE),
            disk_with_central_directory: U32::set(0),
            central_directory_64_offset: U64::set(offset + size),
            total_disks: U32::set(1),
        };
        locator.push(&mut out);
        let end = EndOfCentralDirectory {
            signature: U32::set(EndOfCentralDirectory::SIGNATURE),
            disk_number: U16::set(0),
            disk_with_central_directory: U16::set(0),
            entries_on_this_disk: U16::set(0xffff),
            total_entries: U16::set(0xffff),
            central_directory_size: U32::set(0xffff_ffff),
            central_directory_offset: U32::set(0xffff_ffff),
            comment_length: U16::set(0),
        };
        end.push(&mut out);
        proof {
            reveal(end_records);
        }
        assert(out@ =~= end_records(self@.names.len() as u64, offset, size));
        out
    }

    /// Writes the central directory and what follows it, behind the entries, which are in the same
    /// `writer`.
    pub fn finish(self, writer: &mut Vec<u8>) -> (r: Result<(), Error>)
        requires
            self.wf(),
            self@.position <= old(writer)@.len(),
        ensures
            match finished(self@, old(writer)@) {
                Ok(bytes) => r is Ok && final(writer)@ == bytes,
                Err(e) => r == Err::<(), Error>(e),
            },
            match self@.writing {
                Some(_) => r == Err::<(), Error>(Error::NotFinished) && final(writer)@ == old(
                    writer)@,
                None => r is Ok && final(writer)@ == old(writer)@ + self@.central + end_records(
                    self@.names.len() as u64,
                    self@.position,
                    self@.central.len() as u64,
                ),
            },
    {
        let mut raw = self;
        match raw.start_writing() {
            Ok(()) => {},
            Err(e) => return Err(e),
        }
        writer.extend_from_slice(raw.central_headers.as_slice());
        let total: usize = writer.len();
        assert(writer@ =~= old(writer)@ + self@.central);
        let end = raw.end_of_directory();
        writer.extend_from_slice(end.as_slice());
        assert(writer@ =~= old(writer)@ + self@.central + end@);
        Ok(())
    }
}

/// What is known of an entry whose data comes later.
pub open spec fn streamed(options: FileOptions, uncompressed_size: u64, crc32: u32) -> Metadata {
    Metadata {
        compression_method: options.compression_method,
        uncompressed_size,
        crc32,
        typ: FileType::File,
        modified_at: options.modified_at,
    }
}

/// The bytes of an entry with this data, and how far the archive is written then.
pub open spec fn file_written(
    raw: RawView,
    name: Seq<u8>,
    content: Seq<u8>,
    meta: Metadata,
    comment: Seq<u8>,
    windows: bool,
) -> Result<(Seq<u8>, RawView), Error> {
    if comment.len() > MAX_TEXT {
        Err(Error::CommentTooLong)
    } else {
        match begun(raw, name, meta.typ, windows) {
            Ok(s) => {
                let bytes = local_record(s, meta, content.len() as u64, false) + content;
                Ok(
                    (
                        bytes,
                        ended(
                            raw,
                            s,
                            meta,
                            content.len() as u64,
                            false,
                            comment,
                            bytes.len() as u64,
                        ),
                    ),
                )
            },
            Err(e) => Err(e),
        }
    }
}

/// Writes the data of an entry.
///
/// It is necessary to call `finish` when done.
#[derive(Debug)]
pub struct RawFileStreamer<'a> {
    /// Where the entry starts.
    pub start: usize,
    /// Where its data starts.
    pub data_start: usize,
    pub writer: &'a mut Vec<u8>,
    pub file_name: String,
    pub options: FileOptions,
    pub raw: &'a mut RawArchiveWriter,
}

impl<'a> RawFileStreamer<'a> {
    /// The entry lies behind what was written before.
    pub open spec fn wf(self) -> bool {
        &&& self.raw.wf()
        &&& self.raw@.position <= self.start <= self.data_start <= self.writer@.len()
        &&& encode_utf8(self.file_name@).len() <= MAX_TEXT
    }

    /// The length of what precedes the data.
    pub open spec fn header_len(self) -> int {
        self.data_start - self.start
    }

    /// The data that has been written.
    pub open spec fn data(self) -> Seq<u8> {
        self.writer@.skip(self.data_start as int)
    }

    /// Writes some data.
    pub fn write(&mut self, buf: &[u8])
        requires
            old(self).wf(),
        ensures
            final(self).wf(),
            final(self).writer@ == old(self).writer@ + buf@,
            final(self).data() == old(self).data() + buf@,
            *final(self).raw == *old(self).raw,
            final(self).start == old(self).start,
            final(self).data_start == old(self).data_start,
            final(self).file_name == old(self).file_name,
            final(self).options == old(self).options,
            *final(final(self).writer) == *final(old(self).writer),
            *final(final(self).raw) == *final(old(self).raw),
    {
        self.writer.extend_from_slice(buf);
        assert(self.writer@ =~= old(self).writer@ + buf@);
        assert(self.data() =~= old(self).data() + buf@);
    }

    /// Finishes the entry, whose content has this size and this checksum.
    pub fn finish(self, uncompressed_size: u64, crc32: u32, comment: &str) -> (r: Result<(), Error>)
        requires
            self.wf(),
        ensures
            final(self.raw).wf(),
            comment.spec_bytes().len() > MAX_TEXT ==> r == Err::<(), Error>(Error::CommentTooLong)
                && final(self.writer)@ == old(self.writer)@ && final(self.raw)@ == old(self.raw)@,
            comment.spec_bytes().len() <= MAX_TEXT ==> {
                let size = (old(self.writer)@.len() - self.data_start) as u64;
                &&& r is Ok
                &&& final(self.writer)@ == old(self.writer)@ + descriptor(
                    uncompressed_size,
                    size,
                    crc32,
                )
                &&& final(self.raw)@ == ended(
                    old(self.raw)@,
                    encode_utf8(self.file_name@),
                    streamed(self.options, uncompressed_size, crc32),
                    size,
                    true,
                    comment.spec_bytes(),
                    (final(self.writer)@.len() - self.start) as u64,
                )
                &&& final(self.raw)@.position <= final(self.writer)@.len()
            },
    {
        if comment.as_bytes().len() > MAX_TEXT {
            return Err(Error::CommentTooLong);
        }
        let compressed_size: u64 = (self.writer.len() - self.data_start) as u64;
        write_descriptor(self.writer, uncompressed_size, compressed_size, crc32);
        let written: u64 = (self.writer.len() - self.start) as u64;
        let meta = Metadata {
            compression_method: self.options.compression_method,
            uncompressed_size,
            crc32,
            typ: FileType::File,
            modified_at: self.options.modified_at,
        };
        self.raw.end_entry(
            self.file_name.as_str(),
            &meta,
            compressed_size,
            true,
            comment,
            written,
        );
        Ok(())
    }
}

} // verus!
