//! The structure of an archive: its directory and the headers of its entries.
use crate::compression::CompressionMethod;
use crate::error::Error;
use crate::read::metadata;
use crate::read::metadata::{Metadata, MetadataView};
use crate::types::{
    CentralFileHeader, DataDescriptor32, DataDescriptor64, EndOfCentralDirectory,
    EndOfCentralDirectory64, EndOfCentralDirectory64Locator, LocalFileHeader, U32,
};
use crate::utils::text;
use crate::utils::Timestamp;
use vstd::prelude::*;
use vstd::slice::slice_subrange;
use vstd::slice::slice_to_vec;

verus! {

/// What an archive holds.
#[verifier::ext_equal]
pub struct ArchiveView {
    pub entries: Seq<MetadataView>,
    pub comment: Seq<u8>,
}

/// Whether the needle is found at this place.
pub open spec fn occurs(haystack: Seq<u8>, needle: Seq<u8>, at: int) -> bool {
    0 <= at && at + needle.len() <= haystack.len() && haystack.subrange(at, at + needle.len())
        == needle
}

/// The last place, from `from` downwards, where the needle is found.
pub open spec fn last_occurrence(haystack: Seq<u8>, needle: Seq<u8>, from: int) -> Option<int>
    decreases from + 1,
{
    if from < 0 {
        None
    } else if occurs(haystack, needle, from) {
        Some(from)
    } else {
        last_occurrence(haystack, needle, from - 1)
    }
}

/// The last place where the needle is found is pinned down by what is found there and behind it.
proof fn lemma_last_occurrence(haystack: Seq<u8>, needle: Seq<u8>, from: int, at: Option<int>)
    requires
        match at {
            Some(i) => i <= from && occurs(haystack, needle, i) && forall|j: int|
                i < j <= from ==> !#[trigger] occurs(haystack, needle, j),
            None => forall|j: int| 0 <= j <= from ==> !#[trigger] occurs(haystack, needle, j),
        },
    ensures
        last_occurrence(haystack, needle, from) == at,
    decreases from + 1,
{
    if from >= 0 && !occurs(haystack, needle, from) {
        lemma_last_occurrence(haystack, needle, from - 1, at);
    }
}

/// `memchr::memmem::rfind`: the last place where the needle is found.
#[verifier::external_body]
fn rfind(haystack: &[u8], needle: &[u8]) -> (r: Option<usize>)
    requires
        needle@.len() > 0,
    ensures
        match r {
            Some(i) => occurs(haystack@, needle@, i as int) && forall|j: int|
                j > i ==> !#[trigger] occurs(haystack@, needle@, j),
            None => forall|j: int| !#[trigger] occurs(haystack@, needle@, j),
        },
{
    memchr::memmem::rfind(haystack, needle)
}

/// The bytes that an end of central directory starts with.
pub open spec fn eocd_signature() -> Seq<u8> {
    U32::of(EndOfCentralDirectory::SIGNATURE).bytes()
}

/// An end of central directory, where it is, and what follows it.
#[verifier::ext_equal]
pub struct EocdView {
    pub offset: u64,
    pub record: EndOfCentralDirectory,
    pub comment: Seq<u8>,
}

/// An end of central directory, where it is, and what follows it.
#[derive(Debug)]
pub struct Eocd {
    pub offset: u64,
    pub record: EndOfCentralDirectory,
    pub comment: Vec<u8>,
}

impl View for Eocd {
    type V = EocdView;

    open spec fn view(&self) -> EocdView {
        EocdView { offset: self.offset, record: self.record, comment: self.comment@ }
    }
}

/// The last end of central directory in a buffer that starts at this offset. It has to be whole.
pub open spec fn eocd_in(buffer_offset: int, buffer: Seq<u8>) -> Result<Option<EocdView>, Error> {
    match last_occurrence(buffer, eocd_signature(), buffer.len() - 4) {
        Some(i) => if buffer.len() - i < EndOfCentralDirectory::SIZE {
            Err(Error::UnexpectedEof)
        } else {
            Ok(
                Some(
                    EocdView {
                        offset: (buffer_offset + i) as u64,
                        record: EndOfCentralDirectory::parse(buffer.skip(i)),
                        comment: buffer.skip(i + EndOfCentralDirectory::SIZE),
                    },
                ),
            )
        },
        None => Ok(None),
    }
}

/// Finds the last end of central directory in a buffer.
pub fn find_eocd_in_buffer(buffer_offset: u64, buffer: &[u8]) -> (r: Result<Option<Eocd>, Error>)
    requires
        buffer_offset + buffer@.len() <= u64::MAX,
    ensures
        match eocd_in(buffer_offset as int, buffer@) {
            Ok(Some(x)) => r matches Ok(Some(y)) && y@ == x,
            Ok(None) => r matches Ok(None),
            Err(e) => r == Err::<Option<Eocd>, Error>(e),
        },
{
    let mut signature: Vec<u8> = Vec::new();
    U32::set(EndOfCentralDirectory::SIGNATURE).push(&mut signature);
    assert(signature@ =~= eocd_signature());
    match rfind(buffer, signature.as_slice()) {
        Some(i) => {
            proof {
                lemma_last_occurrence(
                    buffer@,
                    eocd_signature(),
                    buffer@.len() - 4,
                    Some(i as int),
                );
            }
            if buffer.len() - i < EndOfCentralDirectory::SIZE {
                return Err(Error::UnexpectedEof);
            }
            let tail = slice_subrange(buffer, i, buffer.len());
            assert(tail@ =~= buffer@.skip(i as int));
            let record = EndOfCentralDirectory::read(tail);
            let comment = slice_subrange(tail, EndOfCentralDirectory::SIZE, tail.len());
            assert(comment@ =~= buffer@.skip(i + EndOfCentralDirectory::SIZE));
            let offset: u64 = buffer_offset + i as u64;
            Ok(Some(Eocd { offset, record, comment: slice_to_vec(comment) }))
        },
        None => {
            proof {
                lemma_last_occurrence(buffer@, eocd_signature(), buffer@.len() - 4, None);
            }
            Ok(None)
        },
    }
}

/// Where the central directory of an archive is.
#[derive(Debug, Clone, Copy, PartialEq, Eq, Structural)]
pub struct CentralDirectory {
    pub offset: u64,
    pub size: u64,
    pub eocd_offset: u64,
    pub entries: u64,
}

impl CentralDirectory {
    /// Whether the central directory ends where its end is, and is large enough for its entries:
    /// each of them has a header and a name.
    pub open spec fn valid_size(self) -> bool {
        &&& (CentralFileHeader::SIZE + 1) * self.entries <= self.size
        &&& self.offset + self.size == self.eocd_offset
    }

    /// Validates that the central directory has a decent size
    pub fn validate_size(&self) -> (r: Option<()>)
        ensures
            r is Some <==> self.valid_size(),
    {
        assert((CentralFileHeader::SIZE + 1) * self.entries == self.entries * (
        CentralFileHeader::SIZE as u64 + 1)) by (nonlinear_arith);
        let min_size: u64 = match self.entries.checked_mul(CentralFileHeader::SIZE as u64 + 1) {
            Some(x) => x,
            None => return None,
        };
        let expected_size: u64 = match self.eocd_offset.checked_sub(self.offset) {
            Some(x) => x,
            None => return None,
        };
        if self.size < min_size || self.size != expected_size {
            return None;
        }
        Some(())
    }
}

/// The central directory that an end of central directory tells of, or nothing where a ZIP64 record
/// tells of it.
pub open spec fn directory_of(offset: u64, record: EndOfCentralDirectory) -> Result<
    Option<CentralDirectory>,
    Error,
> {
    if record.disk_number.value() != 0 || record.disk_with_central_directory.value() != 0 {
        Err(Error::MultiDisk)
    } else if record.total_entries != record.entries_on_this_disk {
        Err(Error::InvalidZip)
    } else if record.total_entries.value() == u16::MAX || record.central_directory_offset.value()
        == u32::MAX {
        Ok(None)
    } else {
        Ok(
            Some(
                CentralDirectory {
                    offset: record.central_directory_offset.value() as u64,
                    size: record.central_directory_size.value() as u64,
                    eocd_offset: offset,
                    entries: record.total_entries.value() as u64,
                },
            ),
        )
    }
}

/// Reads an end of central directory. The result is empty where a ZIP64 record has to be read.
pub fn read_eocd(offset: u64, record: EndOfCentralDirectory) -> (r: Result<
    Option<CentralDirectory>,
    Error,
>)
    ensures
        r == directory_of(offset, record),
{
    if record.disk_number.get() != 0 || record.disk_with_central_directory.get() != 0 {
        return Err(Error::MultiDisk);
    }
    if record.total_entries != record.entries_on_this_disk {
        return Err(Error::InvalidZip);
    }
    if record.total_entries.get() == u16::MAX || record.central_directory_offset.get() == u32::MAX {
        // This is a Zip64
        return Ok(None);
    }
    Ok(
        Some(
            CentralDirectory {
                offset: record.central_directory_offset.get() as u64,
                size: record.central_directory_size.get() as u64,
                eocd_offset: offset,
                entries: record.total_entries.get() as u64,
            },
        ),
    )
}

/// Where the ZIP64 record is that a locator at this offset tells of.
pub open spec fn record_offset(
    locator_offset: u64,
    locator: EndOfCentralDirectory64Locator,
) -> Result<u64, Error> {
    if locator.signature.value() != EndOfCentralDirectory64Locator::SIGNATURE
        || locator.central_directory_64_offset.value() > locator_offset {
        Err(Error::InvalidZip)
    } else if locator.disk_with_central_directory.value() != 0 || locator.total_disks.value() > 1 {
        Err(Error::MultiDisk)
    } else {
        Ok(locator.central_directory_64_offset.value())
    }
}

/// Reads the locator of a ZIP64 record.
pub fn read_locator(locator_offset: u64, locator: EndOfCentralDirectory64Locator) -> (r: Result<
    u64,
    Error,
>)
    ensures
        r == record_offset(locator_offset, locator),
{
    let eocd_offset: u64 = locator.central_directory_64_offset.get();
    if locator.signature.get() != EndOfCentralDirectory64Locator::SIGNATURE || eocd_offset
        > locator_offset {
        return Err(Error::InvalidZip);
    }
    if locator.disk_with_central_directory.get() != 0 || locator.total_disks.get() > 1 {
        return Err(Error::MultiDisk);
    }
    Ok(eocd_offset)
}

/// The central directory that a ZIP64 record tells of. The record has to end where its locator is.
pub open spec fn directory64_of(
    locator_offset: u64,
    eocd_offset: u64,
    record: EndOfCentralDirectory64,
) -> Result<CentralDirectory, Error> {
    if record.disk_with_central_directory.value() != 0 || record.disk_number.value() != 0 {
        Err(Error::MultiDisk)
    } else if record.total_entries != record.entries_on_this_disk || eocd_offset
        + record.record_size.value() + 12 != locator_offset {
        Err(Error::InvalidZip)
    } else {
        Ok(
            CentralDirectory {
                offset: record.central_directory_offset.value(),
                size: record.central_directory_size.value(),
                eocd_offset,
                entries: record.total_entries.value(),
            },
        )
    }
}

/// Reads a ZIP64 record.
pub fn read_eocd64(
    locator_offset: u64,
    eocd_offset: u64,
    record: EndOfCentralDirectory64,
) -> (r: Result<CentralDirectory, Error>)
    ensures
        r == directory64_of(locator_offset, eocd_offset, record),
{
    // Yes, this is the third time that we do that stupid check
    if record.disk_with_central_directory.get() != 0 || record.disk_number.get() != 0 {
        return Err(Error::MultiDisk);
    }
    if record.total_entries != record.entries_on_this_disk {
        return Err(Error::InvalidZip);
    }
    let end: u64 = match eocd_offset.checked_add(record.record_size.get()) {
        Some(x) => match x.checked_add(12) {
            Some(x) => x,
            None => return Err(Error::InvalidZip),
        },
        None => return Err(Error::InvalidZip),
    };
    if end != locator_offset {
        return Err(Error::InvalidZip);
    }
    Ok(
        CentralDirectory {
            offset: record.central_directory_offset.get(),
            size: record.central_directory_size.get(),
            eocd_offset,
            entries: record.total_entries.get(),
        },
    )
}

/// The metadata that a central header gives, with its variable fields one after the other.
#[verifier::opaque]
pub open spec fn central_entry(header: CentralFileHeader, variable: Seq<u8>, windows: bool) -> Option<
    MetadataView,
> {
    let n = header.file_name_length.value() as int;
    let e = header.extra_fields_length.value() as int;
    metadata::central_metadata(
        header,
        variable.subrange(0, n),
        variable.subrange(n, n + e),
        variable.skip(n + e),
        windows,
    )
}

/// The length of the variable fields of a central header.
pub open spec fn central_variable_len(header: CentralFileHeader) -> int {
    header.file_name_length.value() + header.extra_fields_length.value()
        + header.file_comment_length.value()
}

/// Reads the variable fields of a central header.
pub fn read_central_header(header: CentralFileHeader, variable: &[u8], windows: bool) -> (r: Result<
    Metadata,
    Error,
>)
    requires
        variable@.len() == central_variable_len(header),
    ensures
        match central_entry(header, variable@, windows) {
            Some(m) => r is Ok && r->Ok_0@ == m,
            None => r == Err::<Metadata, Error>(Error::InvalidEntry),
        },
{
    proof {
        reveal(central_entry);
    }
    let n: usize = header.file_name_length.get() as usize;
    let e: usize = header.extra_fields_length.get() as usize;
    let file_name = slice_subrange(variable, 0, n);
    let extra_fields = slice_subrange(variable, n, n + e);
    let comment = slice_subrange(variable, n + e, variable.len());
    assert(comment@ =~= variable@.skip(n + e));
    match Metadata::from_central_header(header, file_name, extra_fields, comment, windows) {
        Some(m) => Ok(m),
        None => Err(Error::InvalidEntry),
    }
}

/// The metadata that a local header gives, with its variable fields one after the other.
#[verifier::opaque]
pub open spec fn local_entry(header: LocalFileHeader, variable: Seq<u8>, windows: bool) -> Option<
    MetadataView,
> {
    let n = header.file_name_length.value() as int;
    metadata::local_metadata(header, variable.subrange(0, n), variable.skip(n), windows)
}

/// The length of the variable fields of a local header.
pub open spec fn local_variable_len(header: LocalFileHeader) -> int {
    header.file_name_length.value() + header.extra_fields_length.value()
}

/// Reads the variable fields of a local header.
pub fn read_local_header(header: LocalFileHeader, variable: &[u8], windows: bool) -> (r: Result<
    Metadata,
    Error,
>)
    requires
        variable@.len() == local_variable_len(header),
    ensures
        match local_entry(header, variable@, windows) {
            Some(m) => r is Ok && r->Ok_0@ == m,
            None => r == Err::<Metadata, Error>(Error::InvalidEntry),
        },
{
    proof {
        reveal(local_entry);
    }
    let n: usize = header.file_name_length.get() as usize;
    let file_name = slice_subrange(variable, 0, n);
    let extra_fields = slice_subrange(variable, n, variable.len());
    assert(extra_fields@ =~= variable@.skip(n as int));
    match Metadata::from_local_header(header, file_name, extra_fields, windows) {
        Some(m) => Ok(m),
        None => Err(Error::InvalidEntry),
    }
}

/// The length of the descriptor that follows the data of an entry.
pub open spec fn descriptor_len(local: MetadataView) -> int {
    if local.is_zip64 {
        DataDescriptor64::SIZE as int
    } else {
        DataDescriptor32::SIZE as int
    }
}

/// The metadata of a local header after the descriptor that follows the data.
#[verifier::opaque]
pub open spec fn described(local: MetadataView, s: Seq<u8>) -> Result<MetadataView, Error> {
    if local.is_zip64 {
        let descriptor = DataDescriptor64::parse(s);
        if descriptor.signature.value() != DataDescriptor64::SIGNATURE {
            Err(Error::InvalidEntry)
        } else {
            Ok(
                MetadataView {
                    compressed_size: descriptor.compressed_size.value(),
                    uncompressed_size: descriptor.uncompressed_size.value(),
                    crc32: descriptor.crc32.value(),
                    ..local
                },
            )
        }
    } else {
        let descriptor = DataDescriptor32::parse(s);
        if descriptor.signature.value() != DataDescriptor32::SIGNATURE {
            Err(Error::InvalidEntry)
        } else {
            Ok(
                MetadataView {
                    compressed_size: descriptor.compressed_size.value() as u64,
                    uncompressed_size: descriptor.uncompressed_size.value() as u64,
                    crc32: descriptor.crc32.value(),
                    ..local
                },
            )
        }
    }
}

/// Reads the descriptor that follows the data of an entry.
pub fn read_data_descriptor(meta: &mut Metadata, bytes: &[u8]) -> (r: Result<(), Error>)
    requires
        bytes@.len() == descriptor_len(old(meta)@),
    ensures
        match described(old(meta)@, bytes@) {
            Ok(m) => r is Ok && final(meta)@ == m,
            Err(e) => r == Err::<(), Error>(e),
        },
{
    proof {
        reveal(described);
    }
    if meta.is_zip64 {
        let descriptor = DataDescriptor64::read(bytes);
        if descriptor.signature.get() != DataDescriptor64::SIGNATURE {
            return Err(Error::InvalidEntry);
        }
        meta.compressed_size = descriptor.compressed_size.get();
        meta.uncompressed_size = descriptor.uncompressed_size.get();
        meta.crc32 = descriptor.crc32.get();
    } else {
        let descriptor = DataDescriptor32::read(bytes);
        if descriptor.signature.get() != DataDescriptor32::SIGNATURE {
            return Err(Error::InvalidEntry);
        }
        meta.compressed_size = descriptor.compressed_size.get() as u64;
        meta.uncompressed_size = descriptor.uncompressed_size.get() as u64;
        meta.crc32 = descriptor.crc32.get();
    }
    Ok(())
}

/// Whether the contents are equal if both are there.
pub open spec fn agree(a: Option<Timestamp>, b: Option<Timestamp>) -> bool {
    a is Some && b is Some ==> a == b
}

/// Checks equality between the content of the options if both are `Some`.
pub fn opt_eq(a: &Option<Timestamp>, b: &Option<Timestamp>) -> (r: bool)
    ensures
        r == agree(*a, *b),
{
    match (a, b) {
        (Some(a), Some(b)) => *a == *b,
        _ => true,
    }
}

/// Whether the two headers of an entry say the same.
pub open spec fn consistent(entry: MetadataView, local: MetadataView) -> bool {
    &&& entry.compression_method == local.compression_method
    &&& entry.name == local.name
    &&& entry.compressed_size == local.compressed_size
    &&& entry.uncompressed_size == local.uncompressed_size
    &&& entry.crc32 == local.crc32
    &&& entry.flags == local.flags
    &&& agree(entry.modification_time, local.modification_time)
    &&& agree(entry.access_time, local.access_time)
    &&& agree(entry.creation_time, local.creation_time)
}

/// The metadata of an entry whose headers say the same. What is stored as it is has one size.
#[verifier::opaque]
pub open spec fn merged(entry: MetadataView, local: MetadataView) -> Result<MetadataView, Error> {
    if !consistent(entry, local) {
        Err(Error::InvalidEntry)
    } else if entry.compression_method.0 == CompressionMethod::STORE && entry.compressed_size
        != entry.uncompressed_size && entry.encryption is None {
        Err(Error::InvalidEntry)
    } else {
        Ok(
            MetadataView {
                access_time: if entry.access_time is None {
                    local.access_time
                } else {
                    entry.access_time
                },
                creation_time: if entry.creation_time is None {
                    local.creation_time
                } else {
                    entry.creation_time
                },
                ..entry
            },
        )
    }
}

/// Checks that the two headers of an entry are consistent, and completes the metadata of the
/// entry.
pub fn check_local_entry(entry: &mut Metadata, local: &Metadata) -> (r: Result<(), Error>)
    ensures
        match merged(old(entry)@, local@) {
            Ok(m) => r is Ok && final(entry)@ == m,
            Err(e) => r == Err::<(), Error>(e),
        },
{
    proof {
        reveal(merged);
    }
    // Now we can check that both headers are consistent
    if entry.compression_method != local.compression_method || !text::same_text(
        entry.name.as_str(),
        local.name.as_str(),
    ) || entry.compressed_size != local.compressed_size || entry.uncompressed_size
        != local.uncompressed_size || entry.crc32 != local.crc32 || entry.flags != local.flags
        || !opt_eq(&entry.modification_time, &local.modification_time) || !opt_eq(
        &entry.access_time,
        &local.access_time,
    ) || !opt_eq(&entry.creation_time, &local.creation_time) {
        return Err(Error::InvalidEntry);
    }
    // Bonus consistency check
    if entry.compression_method.0 == CompressionMethod::STORE && entry.compressed_size
        != entry.uncompressed_size && entry.encryption.is_none() {
        return Err(Error::InvalidEntry);
    }
    // Extended timestamp entries usually store creation and access timestamps
    // in local headers only
    if entry.creation_time.is_none() {
        entry.creation_time = local.creation_time;
    }
    if entry.access_time.is_none() {
        entry.access_time = local.access_time;
    }
    Ok(())
}

} // verus!
