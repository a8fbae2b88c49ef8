//! The metadata of an entry, as its headers give it.
use crate::compression;
use crate::compression::CompressionMethod;
use crate::error::Error;
use crate::read::extra_field;
use crate::read::extra_field::{ExtraField, ExtraFields};
use crate::types::{CentralFileHeader, LocalFileHeader, U64};
use crate::utils::crc32;
use crate::utils::crc32::Crc32Checker;
use crate::utils::names;
use crate::utils::text;
use crate::utils::{cp437, FileType, LengthChecker, Timestamp};
use vstd::prelude::*;
use vstd::string::*;
use vstd::utf8::*;

verus! {

/// The method used to encrypt a file.
///
/// The tools to decrypt these files are not provided, but the required metadata is.
#[derive(Debug, Clone, Copy, PartialEq, Eq, Structural)]
#[non_exhaustive]
pub enum EncryptionMethod {
    /// Legacy ZipCrypto encryption.
    ZipCrypto,
    /// PKWARE "Strong Encryption".
    StrongEncryption,
    /// The file is encrypted using AES in CTR mode.
    ///
    /// See <https://www.winzip.com/en/support/aes-encryption/#file-format1> for the format of the
    /// encrypted files.
    Aes {
        /// The size of the AES key. This may be 128, 192 or 256 bits.
        key_size: u16,
        /// Whether to check the CRC32 of the decrypted content.
        check_crc32: bool,
    },
}

/// Whether the flag of this weight is set.
pub open spec fn flag(flags: u16, weight: u16) -> bool {
    (flags / weight) % 2 == 1
}

/// The encryption that the flags of a header announce.
pub open spec fn announced_encryption(flags: u16) -> Option<EncryptionMethod> {
    if !flag(flags, 1) {
        None
    } else if flag(flags, 64) {
        Some(EncryptionMethod::StrongEncryption)
    } else {
        Some(EncryptionMethod::ZipCrypto)
    }
}

/// Returns the encryption that the flags of a header announce.
fn encryption_of(flags: u16) -> (r: Option<EncryptionMethod>)
    ensures
        r == announced_encryption(flags),
{
    if flags % 2 != 1 {
        None
    } else if (flags / 64) % 2 == 1 {
        Some(EncryptionMethod::StrongEncryption)
    } else {
        Some(EncryptionMethod::ZipCrypto)
    }
}

impl FileType {
    /// The type of an entry with these attributes, and with or without a trailing slash in its
    /// name. There is none where the attributes do not go together or with the name.
    pub open spec fn of(attr: u32, trailing_slash: bool) -> Option<FileType> {
        let unix_kind = attr / 0x1000_0000;
        let is_file = (attr / 32) % 2 == 1 || unix_kind == 8;
        let is_dir = (attr / 16) % 2 == 1 || unix_kind == 4;
        let is_symlink = unix_kind == 10;
        if !is_dir && !trailing_slash && !is_symlink {
            Some(FileType::File)
        } else if !is_file && trailing_slash && !is_symlink {
            Some(FileType::Directory)
        } else if !is_file && !is_dir && !trailing_slash && is_symlink {
            Some(FileType::Symlink)
        } else {
            None
        }
    }

    /// Returns the type of an entry with these attributes and this name.
    pub fn test(attr: u32, name: &str) -> (r: Option<FileType>)
        ensures
            r == FileType::of(attr, names::ends_with_slash(name.spec_bytes())),
    {
        let unix_kind: u32 = attr / 0x1000_0000;
        let is_file: bool = (attr / 32) % 2 == 1 || unix_kind == 8;
        let is_dir: bool = (attr / 16) % 2 == 1 || unix_kind == 4;
        let is_symlink: bool = unix_kind == 10;
        let trailing_slash: bool = names::is_directory_name(name);
        match (is_file, is_dir, trailing_slash, is_symlink) {
            (_, false, false, false) => Some(FileType::File),
            (false, _, true, false) => Some(FileType::Directory),
            (false, false, false, true) => Some(FileType::Symlink),
            _ => None,
        }
    }
}

/// The text that the bytes of a header stand for, as UTF-8, and the checksum of the bytes where
/// they were not UTF-8 before.
pub open spec fn text_of(raw: Seq<u8>, force_unicode: bool) -> Option<(Seq<u8>, Option<u32>)> {
    if valid_utf8(raw) {
        Some((raw, None))
    } else if force_unicode {
        None
    } else {
        Some(
            (
                encode_utf8(raw.map_values(|b: u8| cp437::decoded(b))),
                Some(crc32::crc32_of(raw)),
            ),
        )
    }
}

/// Converts the bytes of a header to a text.
pub fn convert_string(raw: &[u8], force_unicode: bool) -> (r: Option<(String, Option<u32>)>)
    ensures
        match text_of(raw@, force_unicode) {
            Some((text, crc)) => r matches Some(x) && encode_utf8(x.0@) == text && x.1 == crc,
            None => r is None,
        },
{
    // MacOS stores the file name as UTF8, but does not use the unicode flag,
    // and everyone seems fine with that, so if we meet UTF8 we'll just pretend
    // that everything is fine.
    match text::from_utf8(raw) {
        Some(name) => return Some((String::from_str(name), None)),
        None => {},
    }
    // If we didn't find UTF8 and it wasn't expected, handle it as CP437.
    if force_unicode {
        None
    } else {
        let name = cp437::convert(raw);
        Some((name, Some(crc32::hash(raw))))
    }
}

/// What the headers of an entry say of it, with its texts as UTF-8 bytes.
#[verifier::ext_equal]
pub struct MetadataView {
    pub header_offset: u64,
    pub data_offset: u64,
    pub compressed_size: u64,
    pub uncompressed_size: u64,
    pub compression_method: CompressionMethod,
    pub crc32: u32,
    pub file_type: FileType,
    pub modification_time: Option<Timestamp>,
    pub access_time: Option<Timestamp>,
    pub creation_time: Option<Timestamp>,
    pub encryption: Option<EncryptionMethod>,
    pub name: Seq<u8>,
    pub comment: Seq<u8>,
    pub is_streaming: bool,
    pub is_zip64: bool,
    pub flags: u16,
}

/// The metadata of a ZIP entry.
#[derive(Debug)]
pub struct Metadata {
    /// Where the local header of the entry is.
    pub header_offset: u64,
    /// Where the data of the entry is.
    pub data_offset: u64,
    /// The size of the data.
    pub compressed_size: u64,
    /// The size of the content.
    pub uncompressed_size: u64,
    /// How the data stands for the content.
    pub compression_method: CompressionMethod,
    /// The checksum of the content.
    pub crc32: u32,
    /// The type of the entry.
    pub file_type: FileType,
    pub modification_time: Option<Timestamp>,
    pub access_time: Option<Timestamp>,
    pub creation_time: Option<Timestamp>,
    /// How the content is encrypted.
    pub encryption: Option<EncryptionMethod>,
    /// The name, in canonical form.
    pub name: String,
    pub comment: String,
    /// Whether a descriptor with the sizes and the checksum follows the data.
    pub is_streaming: bool,
    /// Whether the descriptor has 64-bit sizes.
    pub is_zip64: bool,
    pub flags: u16,
}

impl View for Metadata {
    type V = MetadataView;

    open spec fn view(&self) -> MetadataView {
        MetadataView {
            header_offset: self.header_offset,
            data_offset: self.data_offset,
            compressed_size: self.compressed_size,
            uncompressed_size: self.uncompressed_size,
            compression_method: self.compression_method,
            crc32: self.crc32,
            file_type: self.file_type,
            modification_time: self.modification_time,
            access_time: self.access_time,
            creation_time: self.creation_time,
            encryption: self.encryption,
            name: encode_utf8(self.name@),
            comment: encode_utf8(self.comment@),
            is_streaming: self.is_streaming,
            is_zip64: self.is_zip64,
            flags: self.flags,
        }
    }
}

/// A size or an offset that is kept elsewhere, where it does not fit in 32 bits.
pub const ELSEWHERE: u64 = 0xffff_ffff;

/// The metadata after a ZIP64 field: it holds exactly the sizes and the offset that are kept there.
pub open spec fn with_zip64(m: MetadataView, s: Seq<u8>) -> Option<MetadataView> {
    let u = if m.uncompressed_size == ELSEWHERE {
        8int
    } else {
        0
    };
    let c = if m.compressed_size == ELSEWHERE {
        8int
    } else {
        0
    };
    let h = if m.header_offset == ELSEWHERE {
        8int
    } else {
        0
    };
    if s.len() != u + c + h {
        None
    } else {
        Some(
            MetadataView {
                uncompressed_size: if u == 0 {
                    m.uncompressed_size
                } else {
                    U64::at(s, 0).value()
                },
                compressed_size: if c == 0 {
                    m.compressed_size
                } else {
                    U64::at(s, u).value()
                },
                header_offset: if h == 0 {
                    m.header_offset
                } else {
                    U64::at(s, u + c).value()
                },
                is_zip64: true,
                ..m
            },
        )
    }
}

/// The metadata after an AES field. It has to be announced by the compression method and by the
/// flags of the header, whichever encryption they tell of, and the checksum is kept only where the
/// field says so. No other AES field may come before it.
pub open spec fn with_aes(m: MetadataView, aes: extra_field::Aes) -> Option<MetadataView> {
    if m.compression_method.0 != CompressionMethod::AES || (!aes.spec_check_crc32() && m.crc32 != 0)
        || m.encryption is None || m.encryption->0 is Aes {
        None
    } else {
        Some(
            MetadataView {
                encryption: Some(
                    EncryptionMethod::Aes {
                        key_size: aes.spec_key_size(),
                        check_crc32: aes.spec_check_crc32(),
                    },
                ),
                compression_method: aes.compression,
                ..m
            },
        )
    }
}

/// The metadata after an extra field. The checksums are those of the name and of the comment in
/// the header, where these are not UTF-8.
pub open spec fn with_field(
    m: MetadataView,
    field: extra_field::FieldView,
    name_crc: Option<u32>,
    comment_crc: Option<u32>,
    windows: bool,
) -> Option<MetadataView> {
    match field {
        extra_field::FieldView::Zip64ExtendedInformation(s) => with_zip64(m, s),
        extra_field::FieldView::UnicodeComment { header_comment_crc32, comment } => if Some(
            header_comment_crc32,
        ) == comment_crc {
            Some(MetadataView { comment, ..m })
        } else {
            None
        },
        extra_field::FieldView::UnicodeName { header_name_crc32, name } => if Some(
            header_name_crc32,
        ) == name_crc {
            match names::valid_name(name, windows) {
                Some(name) => Some(MetadataView { name, ..m }),
                None => None,
            }
        } else {
            None
        },
        extra_field::FieldView::Ntfs(Some(times)) => Some(
            MetadataView {
                modification_time: Some(times.mtime),
                access_time: Some(times.atime),
                creation_time: Some(times.ctime),
                ..m
            },
        ),
        extra_field::FieldView::Ntfs(None) => Some(
            MetadataView {
                modification_time: None,
                access_time: None,
                creation_time: None,
                ..m
            },
        ),
        extra_field::FieldView::ExtendedTimestamp(ts) => Some(
            MetadataView {
                modification_time: ts.modification_time,
                access_time: ts.access_time,
                creation_time: ts.creation_time,
                ..m
            },
        ),
        extra_field::FieldView::Aes(aes) => with_aes(m, aes),
        extra_field::FieldView::Invalid(_, _) => None,
        extra_field::FieldView::UnixNew { .. } => Some(m),
        extra_field::FieldView::Unknown(_, _) => Some(m),
    }
}

/// The metadata after all the extra fields. An AES compression method has to be explained by one
/// of them.
pub open spec fn with_fields(
    m: MetadataView,
    fields: Seq<extra_field::FieldView>,
    name_crc: Option<u32>,
    comment_crc: Option<u32>,
    windows: bool,
) -> Option<MetadataView>
    decreases fields.len(),
{
    if fields.len() == 0 {
        if m.compression_method.0 == CompressionMethod::AES {
            None
        } else {
            Some(m)
        }
    } else {
        match with_field(m, fields[0], name_crc, comment_crc, windows) {
            Some(m2) => with_fields(m2, fields.drop_first(), name_crc, comment_crc, windows),
            None => None,
        }
    }
}

/// The metadata that a local header gives, before its extra fields.
pub open spec fn local_base(header: LocalFileHeader, name: Seq<u8>) -> MetadataView {
    MetadataView {
        header_offset: 0,
        data_offset: 0,
        compressed_size: header.compressed_size.value() as u64,
        uncompressed_size: header.uncompressed_size.value() as u64,
        compression_method: CompressionMethod(header.compression_method.value()),
        crc32: header.crc32.value(),
        file_type: FileType::File,
        modification_time: None,
        access_time: None,
        creation_time: None,
        encryption: announced_encryption(header.flags.value()),
        name,
        comment: Seq::empty(),
        is_streaming: flag(header.flags.value(), 8),
        is_zip64: false,
        flags: header.flags.value(),
    }
}

/// The metadata that a local header gives, where it is valid.
#[verifier::opaque]
pub open spec fn local_metadata(
    header: LocalFileHeader,
    file_name: Seq<u8>,
    extra_fields: Seq<u8>,
    windows: bool,
) -> Option<MetadataView> {
    if header.signature.value() != LocalFileHeader::SIGNATURE {
        None
    } else {
        match text_of(file_name, flag(header.flags.value(), 2048)) {
            Some((text, name_crc)) => match names::valid_name(text, windows) {
                Some(name) => with_fields(
                    local_base(header, name),
                    extra_field::fields(extra_fields),
                    name_crc,
                    None,
                    windows,
                ),
                None => None,
            },
            None => None,
        }
    }
}

/// The metadata that a central header gives, before its extra fields.
pub open spec fn central_base(
    header: CentralFileHeader,
    name: Seq<u8>,
    comment: Seq<u8>,
    file_type: FileType,
) -> MetadataView {
    MetadataView {
        header_offset: header.local_header_offset.value() as u64,
        data_offset: 0,
        compressed_size: header.compressed_size.value() as u64,
        uncompressed_size: header.uncompressed_size.value() as u64,
        compression_method: CompressionMethod(header.compression_method.value()),
        crc32: header.crc32.value(),
        file_type,
        modification_time: None,
        access_time: None,
        creation_time: None,
        encryption: announced_encryption(header.flags.value()),
        name,
        comment,
        is_streaming: flag(header.flags.value(), 8),
        is_zip64: false,
        flags: header.flags.value(),
    }
}

/// The metadata that a central header gives, where it is valid.
#[verifier::opaque]
pub open spec fn central_metadata(
    header: CentralFileHeader,
    file_name: Seq<u8>,
    extra_fields: Seq<u8>,
    comment: Seq<u8>,
    windows: bool,
) -> Option<MetadataView> {
    let force_unicode = flag(header.flags.value(), 2048);
    if header.signature.value() != CentralFileHeader::SIGNATURE || header.disk_number.value() != 0 {
        None
    } else {
        match (text_of(comment, force_unicode), text_of(file_name, force_unicode)) {
            (Some((comment, comment_crc)), Some((text, name_crc))) => match names::valid_name(
                text,
                windows,
            ) {
                Some(name) => match FileType::of(
                    header.external_attributes.value(),
                    names::ends_with_slash(name),
                ) {
                    Some(file_type) => with_fields(
                        central_base(header, name, comment, file_type),
                        extra_field::fields(extra_fields),
                        name_crc,
                        comment_crc,
                        windows,
                    ),
                    None => None,
                },
                None => None,
            },
            _ => None,
        }
    }
}

/// The data of an entry in an archive, as far as the archive goes.
pub open spec fn raw_data(m: MetadataView, archive: Seq<u8>) -> Seq<u8> {
    let start = if m.data_offset <= archive.len() {
        m.data_offset as int
    } else {
        archive.len() as int
    };
    let end = if m.data_offset + m.compressed_size <= archive.len() {
        m.data_offset + m.compressed_size
    } else {
        archive.len() as int
    };
    archive.subrange(start, end)
}

/// Whether a content is the one that the metadata is about.
pub open spec fn checked(m: MetadataView, content: Seq<u8>) -> Result<(), Error> {
    if content.len() != m.uncompressed_size {
        Err(Error::BadLength)
    } else if crc32::crc32_of(content) != m.crc32 {
        Err(Error::BadCrc32)
    } else {
        Ok(())
    }
}

/// The number of bytes of a content that have to be seen to tell whether it is too long.
pub open spec fn look_ahead(size: u64) -> u64 {
    if size == u64::MAX {
        size
    } else {
        (size + 1) as u64
    }
}

/// The content that the data of an entry stands for.
pub open spec fn content_of(m: MetadataView, raw: Seq<u8>) -> Result<Seq<u8>, Error> {
    if m.encryption is Some {
        Err(Error::EncryptedFile)
    } else if !m.compression_method.supported() {
        Err(Error::UnsupportedMethod(m.compression_method))
    } else if m.uncompressed_size > usize::MAX {
        Err(Error::OutOfMemory)
    } else {
        match compression::decompressed(
            m.compression_method,
            raw,
            look_ahead(m.uncompressed_size),
        ) {
            Ok(bytes) => match checked(m, bytes) {
                Ok(()) => Ok(bytes),
                Err(e) => Err(e),
            },
            Err(e) => Err(e),
        }
    }
}

/// The content of an entry in an archive.
pub open spec fn content(m: MetadataView, archive: Seq<u8>) -> Result<Seq<u8>, Error> {
    content_of(m, raw_data(m, archive))
}

/// The content of an entry that is stored as it is.
pub open spec fn stored_content(m: MetadataView, archive: Seq<u8>) -> Result<Seq<u8>, Error> {
    if m.encryption is Some {
        Err(Error::EncryptedFile)
    } else if m.compression_method.0 != CompressionMethod::STORE {
        Err(Error::CompressedFile)
    } else if crc32::crc32_of(raw_data(m, archive)) != m.crc32 {
        Err(Error::BadCrc32)
    } else {
        Ok(raw_data(m, archive))
    }
}

/// What extracting an entry comes down to.
#[verifier::ext_equal]
pub enum ExtractionView {
    File { content: Seq<u8>, modified: Option<Timestamp> },
    Directory,
    Symlink { target: Seq<u8> },
}

/// What there is to put at the place of an entry.
#[derive(Debug)]
pub enum Extraction {
    /// A file with this content and, where it is known, this modification time.
    File { content: Vec<u8>, modified: Option<Timestamp> },
    /// A directory.
    Directory,
    /// A symlink to this target.
    Symlink { target: String },
}

impl View for Extraction {
    type V = ExtractionView;

    open spec fn view(&self) -> ExtractionView {
        match *self {
            Extraction::File { content, modified } => ExtractionView::File {
                content: content@,
                modified,
            },
            Extraction::Directory => ExtractionView::Directory,
            Extraction::Symlink { target } => ExtractionView::Symlink {
                target: encode_utf8(target@),
            },
        }
    }
}

/// The target of a symlink whose content this is, where the target is allowed.
pub open spec fn target_of(name: Seq<u8>, content: Seq<u8>, windows: bool) -> Result<
    Seq<u8>,
    Error,
> {
    if !valid_utf8(content) {
        Err(Error::InvalidUtf8)
    } else if !names::valid_symlink(name, content, windows) {
        Err(Error::InvalidSymlink)
    } else {
        Ok(content)
    }
}

/// What extracting an entry of an archive comes down to. The content of a directory is not looked
/// at.
pub open spec fn extraction(m: MetadataView, archive: Seq<u8>, windows: bool) -> Result<
    ExtractionView,
    Error,
> {
    match m.file_type {
        FileType::File => match content(m, archive) {
            Ok(content) => Ok(ExtractionView::File { content, modified: m.modification_time }),
            Err(e) => Err(e),
        },
        FileType::Directory => Ok(ExtractionView::Directory),
        FileType::Symlink => match content(m, archive) {
            Ok(content) => match target_of(m.name, content, windows) {
                Ok(target) => Ok(ExtractionView::Symlink { target }),
                Err(e) => Err(e),
            },
            Err(e) => Err(e),
        },
    }
}

/// What is said of a chunk of a content, behind the bytes seen before it. An empty chunk is the end of
/// the content, which is expected to have this size and this checksum.
pub open spec fn chunk_checked(
    seen: Seq<u8>,
    size: int,
    checksum: u32,
    chunk: Seq<u8>,
) -> Result<(), Error> {
    if chunk.len() == 0 {
        if seen.len() != size {
            Err(Error::BadLength)
        } else if crc32::crc32_of(seen) != checksum {
            Err(Error::BadCrc32)
        } else {
            Ok(())
        }
    } else if seen.len() + chunk.len() > size {
        Err(Error::BadLength)
    } else {
        Ok(())
    }
}

/// Checks that a content that comes in chunks is the one that some metadata is about.
pub struct ContentChecker {
    length: LengthChecker,
    crc: Crc32Checker,
}

impl ContentChecker {
    /// The bytes seen are those that the two checks have seen.
    pub closed spec fn wf(self) -> bool {
        self.crc.wf()
    }

    /// The bytes that have come so far.
    pub closed spec fn seen(self) -> Seq<u8> {
        self.crc.seen()
    }

    /// The length that the content is expected to have.
    pub closed spec fn size(self) -> int {
        self.length.expected + self.crc.seen().len()
    }

    /// The checksum that the content is expected to have.
    pub closed spec fn checksum(self) -> u32 {
        self.crc.spec_expected()
    }

    /// Takes note of a chunk. An empty chunk is the end of the content.
    pub fn read(&mut self, chunk: &[u8]) -> (r: Result<(), Error>)
        requires
            old(self).wf(),
        ensures
            final(self).wf(),
            r == chunk_checked(
                old(self).seen(),
                old(self).size(),
                old(self).checksum(),
                chunk@,
            ),
            final(self).seen() == (if r == Err::<(), Error>(Error::BadLength) {
                old(self).seen()
            } else {
                old(self).seen() + chunk@
            }),
            final(self).size() == old(self).size(),
            final(self).checksum() == old(self).checksum(),
    {
        match self.length.read(chunk.len() as u64) {
            Ok(()) => {},
            Err(e) => return Err(e),
        }
        self.crc.read(chunk)
    }
}

impl Metadata {
    /// Reads a local header.
    pub fn from_local_header(
        header: LocalFileHeader,
        file_name: &[u8],
        extra_fields: &[u8],
        windows: bool,
    ) -> (r: Option<Metadata>)
        ensures
            match local_metadata(header, file_name@, extra_fields@, windows) {
                Some(m) => r is Some && r->0@ == m,
                None => r is None,
            },
    {
        proof {
            reveal(local_metadata);
        }
        let flags: u16 = header.flags.get();
        let is_streaming: bool = (flags / 8) % 2 == 1;
        let is_unicode: bool = (flags / 2048) % 2 == 1;
        if header.signature.get() != LocalFileHeader::SIGNATURE {
            return None;
        }
        let (text, name_crc) = match convert_string(file_name, is_unicode) {
            Some(x) => x,
            None => return None,
        };
        let name = match names::validate_name(text.as_str(), windows) {
            Some(name) => name,
            None => return None,
        };
        let comment = String::new();
        assert(encode_utf8(comment@) =~= Seq::<u8>::empty());
        let mut meta = Metadata {
            crc32: header.crc32.get(),
            encryption: encryption_of(flags),
            header_offset: 0,
            data_offset: 0,
            compressed_size: header.compressed_size.get() as u64,
            uncompressed_size: header.uncompressed_size.get() as u64,
            compression_method: CompressionMethod(header.compression_method.get()),
            file_type: FileType::File,
            modification_time: None,
            access_time: None,
            creation_time: None,
            name,
            comment,
            is_streaming,
            is_zip64: false,
            flags,
        };
        assert(meta@ =~= local_base(header, meta@.name));
        match meta.parse_extra_fields(ExtraFields(extra_fields), name_crc, None, windows) {
            Some(()) => Some(meta),
            None => None,
        }
    }

    /// Reads a central header.
    pub fn from_central_header(
        header: CentralFileHeader,
        file_name: &[u8],
        extra_fields: &[u8],
        comment: &[u8],
        windows: bool,
    ) -> (r: Option<Metadata>)
        ensures
            match central_metadata(header, file_name@, extra_fields@, comment@, windows) {
                Some(m) => r is Some && r->0@ == m,
                None => r is None,
            },
    {
        proof {
            reveal(central_metadata);
        }
        let flags: u16 = header.flags.get();
        let is_streaming: bool = (flags / 8) % 2 == 1;
        let is_unicode: bool = (flags / 2048) % 2 == 1;
        if header.signature.get() != CentralFileHeader::SIGNATURE || header.disk_number.get() != 0 {
            return None;
        }
        let (comment, comment_crc) = match convert_string(comment, is_unicode) {
            Some(x) => x,
            None => return None,
        };
        let (text, name_crc) = match convert_string(file_name, is_unicode) {
            Some(x) => x,
            None => return None,
        };
        let name = match names::validate_name(text.as_str(), windows) {
            Some(name) => name,
            None => return None,
        };
        let file_type = match FileType::test(header.external_attributes.get(), name.as_str()) {
            Some(file_type) => file_type,
            None => return None,
        };
        let mut meta = Metadata {
            crc32: header.crc32.get(),
            encryption: encryption_of(flags),
            header_offset: header.local_header_offset.get() as u64,
            data_offset: 0,
            compressed_size: header.compressed_size.get() as u64,
            uncompressed_size: header.uncompressed_size.get() as u64,
            compression_method: CompressionMethod(header.compression_method.get()),
            file_type,
            modification_time: None,
            access_time: None,
            creation_time: None,
            name,
            comment,
            is_streaming,
            is_zip64: false,
            flags,
        };
        assert(meta@ =~= central_base(header, meta@.name, meta@.comment, file_type));
        match meta.parse_extra_fields(ExtraFields(extra_fields), name_crc, comment_crc, windows) {
            Some(()) => Some(meta),
            None => None,
        }
    }

    /// Takes the extra fields of a header into account.
    pub fn parse_extra_fields(
        &mut self,
        extra_fields: ExtraFields<'_>,
        name_crc: Option<u32>,
        comment_crc: Option<u32>,
        windows: bool,
    ) -> (r: Option<()>)
        ensures
            match with_fields(
                old(self)@,
                extra_field::fields(extra_fields.0@),
                name_crc,
                comment_crc,
                windows,
            ) {
                Some(m) => r is Some && final(self)@ == m,
                None => r is None,
            },
    {
        let ghost result = with_fields(
            self@,
            extra_field::fields(extra_fields.0@),
            name_crc,
            comment_crc,
            windows,
        );
        let mut fields = extra_fields.iter();
        loop
            invariant
                result == with_fields(
                    old(self)@,
                    extra_field::fields(extra_fields.0@),
                    name_crc,
                    comment_crc,
                    windows,
                ),
                with_fields(self@, fields@, name_crc, comment_crc, windows) == result,
            decreases fields@.len(),
        {
            let ghost before = self@;
            let ghost left = fields@;
            let field = match fields.next() {
                Some(field) => field,
                None => {
                    if self.compression_method.0 == CompressionMethod::AES {
                        return None;
                    }
                    return Some(());
                },
            };
            match field {
                ExtraField::Zip64ExtendedInformation(info) => {
                    let mut info = info;
                    let ghost s = info.0.0@;
                    if self.uncompressed_size == ELSEWHERE {
                        match info.next() {
                            Some(x) => self.uncompressed_size = x,
                            None => return None,
                        }
                    }
                    let ghost u: int = if before.uncompressed_size == ELSEWHERE {
                        8
                    } else {
                        0
                    };
                    assert(info.0.0@ =~= s.skip(u));
                    if self.compressed_size == ELSEWHERE {
                        assert(s.len() >= u + 8 ==> U64::at(s.skip(u), 0) == U64::at(s, u));
                        match info.next() {
                            Some(x) => self.compressed_size = x,
                            None => return None,
                        }
                    }
                    let ghost c: int = if before.compressed_size == ELSEWHERE {
                        8
                    } else {
                        0
                    };
                    assert(info.0.0@ =~= s.skip(u + c));
                    if self.header_offset == ELSEWHERE {
                        assert(s.len() >= u + c + 8 ==> U64::at(s.skip(u + c), 0) == U64::at(
                            s,
                            u + c,
                        ));
                        match info.next() {
                            Some(x) => self.header_offset = x,
                            None => return None,
                        }
                    }
                    // The disk number is in the header, where it must be 0
                    if info.end().is_none() {
                        return None;
                    }
                    self.is_zip64 = true;
                },
                ExtraField::UnicodeComment(unicode) => {
                    match comment_crc {
                        Some(crc) => if crc != unicode.header_comment_crc32 {
                            return None;
                        },
                        None => return None,
                    }
                    self.comment = String::from_str(unicode.comment);
                },
                ExtraField::UnicodeName(unicode) => {
                    match name_crc {
                        Some(crc) => if crc != unicode.header_name_crc32 {
                            return None;
                        },
                        None => return None,
                    }
                    match names::validate_name(unicode.name, windows) {
                        Some(name) => self.name = name,
                        None => return None,
                    }
                },
                ExtraField::Ntfs(ntfs) => {
                    match ntfs.times {
                        Some(times) => {
                            self.modification_time = Some(times.mtime);
                            self.access_time = Some(times.atime);
                            self.creation_time = Some(times.ctime);
                        },
                        None => {
                            self.modification_time = None;
                            self.access_time = None;
                            self.creation_time = None;
                        },
                    }
                },
                ExtraField::ExtendedTimestamp(ts) => {
                    self.modification_time = ts.modification_time;
                    self.access_time = ts.access_time;
                    self.creation_time = ts.creation_time;
                },
                ExtraField::Aes(aes) => {
                    if self.compression_method.0 != CompressionMethod::AES || (!aes.check_crc32()
                        && self.crc32 != 0) {
                        return None;
                    }
                    match self.encryption {
                        Some(EncryptionMethod::ZipCrypto) => {},
                        Some(EncryptionMethod::StrongEncryption) => {},
                        _ => return None,
                    }
                    self.encryption = Some(
                        EncryptionMethod::Aes {
                            key_size: aes.key_size(),
                            check_crc32: aes.check_crc32(),
                        },
                    );
                    self.compression_method = aes.compression;
                },
                ExtraField::Invalid(_, _) => return None,
                ExtraField::UnixNew(_) => {},
                ExtraField::Unknown(_, _) => {},
            }
            assert(with_field(before, left[0], name_crc, comment_crc, windows) =~= Some(self@));
        }
    }

    /// Returns `true` if this file is encrypted.
    pub fn is_encrypted(&self) -> (r: bool)
        ensures
            r == (self@.encryption is Some),
            forall|raw: Seq<u8>|
                #[trigger] content_of(self@, raw) == Err::<Seq<u8>, Error>(Error::EncryptedFile)
                    <==> r,
    {
        self.encryption.is_some()
    }

    /// Gets the name of this entry.
    pub fn name(&self) -> (r: &str)
        ensures
            r.spec_bytes() == self@.name,
    {
        self.name.as_str()
    }

    /// Gets the comment of this entry.
    pub fn comment(&self) -> (r: &str)
        ensures
            r.spec_bytes() == self@.comment,
    {
        self.comment.as_str()
    }

    /// Returns the name of the directory that this entry lies in.
    pub fn parent(&self) -> (r: &str)
        ensures
            r.spec_bytes() == names::parent(self@.name),
    {
        names::parent_of(self.name.as_str())
    }

    /// Returns the content of the file.
    ///
    /// Unsupported compression methods and encrypted files will return an error.
    pub fn read(&self, archive: &[u8]) -> (r: Result<Vec<u8>, Error>)
        ensures
            match content(self@, archive@) {
                Ok(content) => r is Ok && r->Ok_0@ == content,
                Err(e) => r == Err::<Vec<u8>, Error>(e),
            },
    {
        self.read_from_raw(self.read_raw(archive))
    }

    /// Returns the content of the file, given its raw, compressed, content.
    pub fn read_from_raw(&self, raw: &[u8]) -> (r: Result<Vec<u8>, Error>)
        ensures
            match content_of(self@, raw@) {
                Ok(content) => r is Ok && r->Ok_0@ == content,
                Err(e) => r == Err::<Vec<u8>, Error>(e),
            },
    {
        if self.encryption.is_some() {
            return Err(Error::EncryptedFile);
        }
        if !self.compression_method.is_supported() {
            return Err(Error::UnsupportedMethod(self.compression_method));
        }
        if self.uncompressed_size > usize::MAX as u64 {
            return Err(Error::OutOfMemory);
        }
        let limit: u64 = if self.uncompressed_size == u64::MAX {
            self.uncompressed_size
        } else {
            self.uncompressed_size + 1
        };
        match compression::decompress(self.compression_method, raw, limit) {
            Ok(content) => match self.check_content(content.as_slice()) {
                Ok(()) => Ok(content),
                Err(e) => Err(e),
            },
            Err(e) => Err(e),
        }
    }

    /// Returns the content of the file.
    ///
    /// Errors if the file is compressed, encrypted or corrupted. It is not
    /// necessary to use `Metadata::content_checker` on the result.
    ///
    /// It is useful if you know that the file is stored as-is and you do not want to copy it.
    pub fn read_stored<'a>(&self, archive: &'a [u8]) -> (r: Result<&'a [u8], Error>)
        ensures
            match stored_content(self@, archive@) {
                Ok(content) => r is Ok && r->Ok_0@ == content,
                Err(e) => r == Err::<&'a [u8], Error>(e),
            },
    {
        // Check CRC beforehand. Length has already been checked.
        let raw = self.read_raw(archive);
        match self.check_stored(crc32::hash(raw)) {
            Ok(()) => Ok(raw),
            Err(e) => Err(e),
        }
    }

    /// Checks that the data of the file is stored as it is, given the checksum of the data.
    pub fn check_stored(&self, crc32: u32) -> (r: Result<(), Error>)
        ensures
            r == (if self@.encryption is Some {
                Err::<(), Error>(Error::EncryptedFile)
            } else if self@.compression_method.0 != CompressionMethod::STORE {
                Err(Error::CompressedFile)
            } else if crc32 != self@.crc32 {
                Err(Error::BadCrc32)
            } else {
                Ok(())
            }),
    {
        if self.encryption.is_some() {
            return Err(Error::EncryptedFile);
        }
        if self.compression_method.0 != CompressionMethod::STORE {
            return Err(Error::CompressedFile);
        }
        if crc32 != self.crc32 {
            return Err(Error::BadCrc32);
        }
        Ok(())
    }

    /// Returns the raw, compressed, content of the file.
    ///
    /// The uncompressed content should be checked with `content_checker`.
    pub fn read_raw<'a>(&self, archive: &'a [u8]) -> (r: &'a [u8])
        ensures
            r@ == raw_data(self@, archive@),
    {
        let len: u64 = archive.len() as u64;
        let start: u64 = if self.data_offset <= len {
            self.data_offset
        } else {
            len
        };
        let end: u64 = if self.compressed_size <= len - start {
            start + self.compressed_size
        } else {
            len
        };
        let r = vstd::slice::slice_subrange(archive, start as usize, end as usize);
        assert(r@ =~= raw_data(self@, archive@));
        r
    }

    /// Returns a check that a content that comes in chunks matches this metadata.
    ///
    /// It is particularly useful in combination with `read_raw`.
    pub fn content_checker(&self) -> (r: ContentChecker)
        ensures
            r.wf(),
            r.seen() == Seq::<u8>::empty(),
            r.size() == self@.uncompressed_size,
            r.checksum() == self@.crc32,
    {
        ContentChecker {
            length: LengthChecker::new(self.uncompressed_size),
            crc: Crc32Checker::new(self.crc32),
        }
    }

    /// Checks that a whole content matches this metadata.
    pub fn check_content(&self, content: &[u8]) -> (r: Result<(), Error>)
        ensures
            r == checked(self@, content@),
    {
        self.check_sums(content.len() as u64, crc32::hash(content))
    }

    /// Checks that the length and the checksum of a content match this metadata.
    pub fn check_sums(&self, length: u64, crc32: u32) -> (r: Result<(), Error>)
        ensures
            r == (if length != self@.uncompressed_size {
                Err::<(), Error>(Error::BadLength)
            } else if crc32 != self@.crc32 {
                Err(Error::BadCrc32)
            } else {
                Ok(())
            }),
    {
        if length != self.uncompressed_size {
            return Err(Error::BadLength);
        }
        if crc32 != self.crc32 {
            return Err(Error::BadCrc32);
        }
        Ok(())
    }

    /// Returns what there is to put at the place of this entry, below the root of the archive.
    ///
    /// A symlink whose target leaves the root returns an error.
    pub fn extract(&self, archive: &[u8], windows: bool) -> (r: Result<Extraction, Error>)
        ensures
            match extraction(self@, archive@, windows) {
                Ok(x) => r is Ok && r->Ok_0@ == x,
                Err(e) => r == Err::<Extraction, Error>(e),
            },
    {
        match self.file_type {
            FileType::File => match self.read(archive) {
                Ok(content) => Ok(Extraction::File { content, modified: self.modification_time }),
                Err(e) => Err(e),
            },
            FileType::Directory => Ok(Extraction::Directory),
            FileType::Symlink => match self.read(archive) {
                Ok(content) => match self.symlink_target(content.as_slice(), windows) {
                    Ok(target) => Ok(Extraction::Symlink { target }),
                    Err(e) => Err(e),
                },
                Err(e) => Err(e),
            },
        }
    }

    /// Returns the target of this symlink, given its content.
    ///
    /// A target that leaves the root of the archive returns an error.
    pub fn symlink_target(&self, content: &[u8], windows: bool) -> (r: Result<String, Error>)
        ensures
            match target_of(self@.name, content@, windows) {
                Ok(target) => r is Ok && encode_utf8(r->Ok_0@) == target,
                Err(e) => r == Err::<String, Error>(e),
            },
    {
        match text::from_utf8(content) {
            Some(target) => {
                if names::validate_symlink(self.name.as_str(), target, windows) {
                    Ok(String::from_str(target))
                } else {
                    Err(Error::InvalidSymlink)
                }
            },
            None => Err(Error::InvalidUtf8),
        }
    }
}

} // verus!
