use eazip::read::metadata::Extraction;
use eazip::read::{EncryptionMethod, RawArchive};
use eazip::{Archive, CompressionMethod, Error, FileType, Timestamp};

/// An archive with a directory, a deflated file, a stored file and a comment.
const MADE_ELSEWHERE: [u8; 359] = [
    0x50, 0x4b, 0x03, 0x04, 0x14, 0x00, 0x00, 0x00, 0x00, 0x00, 0x00, 0x00, 0x21, 0x00, 0x00, 0x00,
    0x00, 0x00, 0x00, 0x00, 0x00, 0x00, 0x00, 0x00, 0x00, 0x00, 0x06, 0x00, 0x00, 0x00, 0x68, 0x65,
    0x6c, 0x6c, 0x6f, 0x2f, 0x50, 0x4b, 0x03, 0x04, 0x14, 0x00, 0x00, 0x08, 0x08, 0x00, 0x00, 0x00,
    0x21, 0x00, 0xb6, 0x6e, 0x8f, 0xb7, 0x0c, 0x00, 0x00, 0x00, 0x8c, 0x00, 0x00, 0x00, 0x11, 0x00,
    0x00, 0x00, 0x68, 0x65, 0x6c, 0x6c, 0x6f, 0x2f, 0x42, 0x65, 0x6e, 0x6f, 0xc3, 0xae, 0x74, 0x2e,
    0x74, 0x78, 0x74, 0xf3, 0x48, 0xcd, 0xc9, 0xc9, 0x57, 0xe4, 0xf2, 0x18, 0x0c, 0x14, 0x00, 0x50,
    0x4b, 0x03, 0x04, 0x14, 0x00, 0x00, 0x00, 0x00, 0x00, 0x00, 0x00, 0x21, 0x00, 0x9e, 0xd8, 0x42,
    0xb0, 0x07, 0x00, 0x00, 0x00, 0x07, 0x00, 0x00, 0x00, 0x0f, 0x00, 0x00, 0x00, 0x68, 0x65, 0x6c,
    0x6c, 0x6f, 0x2f, 0x68, 0x65, 0x6c, 0x6c, 0x6f, 0x2e, 0x74, 0x78, 0x74, 0x48, 0x65, 0x6c, 0x6c,
    0x6f, 0x21, 0x0a, 0x50, 0x4b, 0x01, 0x02, 0x14, 0x03, 0x14, 0x00, 0x00, 0x00, 0x00, 0x00, 0x00,
    0x00, 0x21, 0x00, 0x00, 0x00, 0x00, 0x00, 0x00, 0x00, 0x00, 0x00, 0x00, 0x00, 0x00, 0x00, 0x06,
    0x00, 0x00, 0x00, 0x00, 0x00, 0x00, 0x00, 0x00, 0x00, 0x00, 0x00, 0x80, 0x01, 0x00, 0x00, 0x00,
    0x00, 0x68, 0x65, 0x6c, 0x6c, 0x6f, 0x2f, 0x50, 0x4b, 0x01, 0x02, 0x14, 0x03, 0x14, 0x00, 0x00,
    0x08, 0x08, 0x00, 0x00, 0x00, 0x21, 0x00, 0xb6, 0x6e, 0x8f, 0xb7, 0x0c, 0x00, 0x00, 0x00, 0x8c,
    0x00, 0x00, 0x00, 0x11, 0x00, 0x00, 0x00, 0x00, 0x00, 0x00, 0x00, 0x00, 0x00, 0x00, 0x00, 0x80,
    0x01, 0x24, 0x00, 0x00, 0x00, 0x68, 0x65, 0x6c, 0x6c, 0x6f, 0x2f, 0x42, 0x65, 0x6e, 0x6f, 0xc3,
    0xae, 0x74, 0x2e, 0x74, 0x78, 0x74, 0x50, 0x4b, 0x01, 0x02, 0x14, 0x03, 0x14, 0x00, 0x00, 0x00,
    0x00, 0x00, 0x00, 0x00, 0x21, 0x00, 0x9e, 0xd8, 0x42, 0xb0, 0x07, 0x00, 0x00, 0x00, 0x07, 0x00,
    0x00, 0x00, 0x0f, 0x00, 0x00, 0x00, 0x00, 0x00, 0x00, 0x00, 0x00, 0x00, 0x00, 0x00, 0x80, 0x01,
    0x5f, 0x00, 0x00, 0x00, 0x68, 0x65, 0x6c, 0x6c, 0x6f, 0x2f, 0x68, 0x65, 0x6c, 0x6c, 0x6f, 0x2e,
    0x74, 0x78, 0x74, 0x50, 0x4b, 0x05, 0x06, 0x00, 0x00, 0x00, 0x00, 0x03, 0x00, 0x03, 0x00, 0xb0,
    0x00, 0x00, 0x00, 0x93, 0x00, 0x00, 0x00, 0x0e, 0x00, 0x6d, 0x61, 0x64, 0x65, 0x20, 0x65, 0x6c,
    0x73, 0x65, 0x77, 0x68, 0x65, 0x72, 0x65,
];

fn crc32(data: &[u8]) -> u32 {
    eazip::utils::crc32::hash(data)
}

/// An entry, with each part of its headers open to change.
#[derive(Clone)]
struct Entry {
    flags: u16,
    method: u16,
    crc: u32,
    name: Vec<u8>,
    local_name: Option<Vec<u8>>,
    data: Vec<u8>,
    compressed: u32,
    uncompressed: u32,
    local_extra: Vec<u8>,
    extra: Vec<u8>,
    comment: Vec<u8>,
    attributes: u32,
    disk: u16,
    local_signature: u32,
    signature: u32,
    descriptor: Vec<u8>,
    offset: Option<u32>,
}

fn entry(name: &str, data: &[u8]) -> Entry {
    Entry {
        flags: 0,
        method: 0,
        crc: crc32(data),
        name: name.as_bytes().to_vec(),
        local_name: None,
        data: data.to_vec(),
        compressed: data.len() as u32,
        uncompressed: data.len() as u32,
        local_extra: Vec::new(),
        extra: Vec::new(),
        comment: Vec::new(),
        attributes: if name.ends_with('/') { 0x10 } else { 0x20 },
        disk: 0,
        local_signature: 0x04034b50,
        signature: 0x02014b50,
        descriptor: Vec::new(),
        offset: None,
    }
}

fn field(id: u16, data: &[u8]) -> Vec<u8> {
    let mut f = id.to_le_bytes().to_vec();
    f.extend((data.len() as u16).to_le_bytes());
    f.extend(data);
    f
}

fn local(e: &Entry) -> Vec<u8> {
    let name = e.local_name.as_ref().unwrap_or(&e.name);
    let streaming = e.flags & 8 != 0;
    let mut out = e.local_signature.to_le_bytes().to_vec();
    out.extend(20u16.to_le_bytes());
    out.extend(e.flags.to_le_bytes());
    out.extend(e.method.to_le_bytes());
    out.extend([0; 4]);
    out.extend(if streaming { 0 } else { e.crc }.to_le_bytes());
    out.extend(if streaming { 0 } else { e.compressed }.to_le_bytes());
    out.extend(if streaming { 0 } else { e.uncompressed }.to_le_bytes());
    out.extend((name.len() as u16).to_le_bytes());
    out.extend((e.local_extra.len() as u16).to_le_bytes());
    out.extend(name);
    out.extend(&e.local_extra);
    out.extend(&e.data);
    out.extend(&e.descriptor);
    out
}

fn central(e: &Entry, offset: u32) -> Vec<u8> {
    let mut out = e.signature.to_le_bytes().to_vec();
    out.extend(20u16.to_le_bytes());
    out.extend(20u16.to_le_bytes());
    out.extend(e.flags.to_le_bytes());
    out.extend(e.method.to_le_bytes());
    out.extend([0; 4]);
    out.extend(e.crc.to_le_bytes());
    out.extend(e.compressed.to_le_bytes());
    out.extend(e.uncompressed.to_le_bytes());
    out.extend((e.name.len() as u16).to_le_bytes());
    out.extend((e.extra.len() as u16).to_le_bytes());
    out.extend((e.comment.len() as u16).to_le_bytes());
    out.extend(e.disk.to_le_bytes());
    out.extend([0; 2]);
    out.extend(e.attributes.to_le_bytes());
    out.extend(e.offset.unwrap_or(offset).to_le_bytes());
    out.extend(&e.name);
    out.extend(&e.extra);
    out.extend(&e.comment);
    out
}

/// The end of central directory, with each part open to change.
#[derive(Clone)]
struct End {
    disk: u16,
    central_disk: u16,
    here: u16,
    total: u16,
    size: u32,
    offset: u32,
    comment_length: u16,
    comment: Vec<u8>,
}

fn bytes_of(end: &End) -> Vec<u8> {
    let mut out = 0x06054b50u32.to_le_bytes().to_vec();
    out.extend(end.disk.to_le_bytes());
    out.extend(end.central_disk.to_le_bytes());
    out.extend(end.here.to_le_bytes());
    out.extend(end.total.to_le_bytes());
    out.extend(end.size.to_le_bytes());
    out.extend(end.offset.to_le_bytes());
    out.extend(end.comment_length.to_le_bytes());
    out.extend(&end.comment);
    out
}

/// The entries and the central directory, and the end that goes with them.
fn parts(entries: &[Entry]) -> (Vec<u8>, End) {
    let mut out = Vec::new();
    let mut directory = Vec::new();
    for e in entries {
        directory.extend(central(e, out.len() as u32));
        out.extend(local(e));
    }
    let end = End {
        disk: 0,
        central_disk: 0,
        here: entries.len() as u16,
        total: entries.len() as u16,
        size: directory.len() as u32,
        offset: out.len() as u32,
        comment_length: 0,
        comment: Vec::new(),
    };
    out.extend(directory);
    (out, end)
}

fn build(entries: &[Entry]) -> Vec<u8> {
    let (mut out, end) = parts(entries);
    out.extend(bytes_of(&end));
    out
}

fn error_of(entries: &[Entry]) -> Option<Error> {
    Archive::new(build(entries), false).err()
}

fn open_one(e: Entry) -> eazip::read::Metadata {
    let archive = Archive::new(build(&[e]), false).unwrap();
    let m = archive.entries();
    assert_eq!(m.len(), 1);
    eazip::read::Metadata {
        name: m[0].name.clone(),
        comment: m[0].comment.clone(),
        ..copy(&m[0])
    }
}

fn copy(m: &eazip::read::Metadata) -> eazip::read::Metadata {
    eazip::read::Metadata {
        header_offset: m.header_offset,
        data_offset: m.data_offset,
        compressed_size: m.compressed_size,
        uncompressed_size: m.uncompressed_size,
        compression_method: m.compression_method,
        crc32: m.crc32,
        file_type: m.file_type,
        modification_time: m.modification_time,
        access_time: m.access_time,
        creation_time: m.creation_time,
        encryption: m.encryption,
        name: String::new(),
        comment: String::new(),
        is_streaming: m.is_streaming,
        is_zip64: m.is_zip64,
        flags: m.flags,
    }
}

#[test]
fn an_archive_made_elsewhere() {
    let archive = Archive::new(MADE_ELSEWHERE.to_vec(), false).unwrap();
    assert_eq!(archive.commment(), b"made elsewhere");
    let names: Vec<&str> = archive.entries().iter().map(|e| e.name()).collect();
    assert_eq!(names, ["hello/", "hello/Benoît.txt", "hello/hello.txt"]);
    let types: Vec<FileType> = archive.entries().iter().map(|e| e.file_type).collect();
    assert_eq!(types, [FileType::Directory, FileType::File, FileType::File]);
    let deflated = archive.get_by_name("hello/Benoît.txt").unwrap();
    assert_eq!(deflated.metadata().compression_method, CompressionMethod(CompressionMethod::DEFLATE));
    assert_eq!(deflated.read().unwrap(), "Hello!\n".repeat(20).as_bytes());
    assert_eq!(deflated.read_stored().err(), Some(Error::CompressedFile));
    let stored = archive.get_by_index(2).unwrap();
    assert_eq!(stored.read().unwrap(), b"Hello!\n");
    assert_eq!(stored.read_raw(), b"Hello!\n");
    assert_eq!(stored.read_stored().unwrap(), b"Hello!\n");
    assert_eq!(archive.get_by_index(0).unwrap().into_reader(), &MADE_ELSEWHERE[..]);
    assert_eq!(archive.get_ref(), &MADE_ELSEWHERE[..]);
    assert_eq!(archive.index_of("hello/hello.txt"), Some(2));
    assert_eq!(archive.index_of("hello/hello.txt/"), None);
    assert_eq!(archive.index_of("hello"), None);
    assert_eq!(archive.index_of("hello/"), Some(0));
}

#[test]
fn a_plain_archive() {
    let bytes = build(&[entry("a", b"one"), entry("d/", b""), entry("d/b", b"two")]);
    let raw = RawArchive::new(&bytes, false).unwrap();
    assert_eq!(raw.entries().len(), 3);
    assert_eq!(raw.comment(), b"");
    assert_eq!(raw.entries()[2].parent(), "d");
    assert_eq!(raw.entries()[2].read(&bytes).unwrap(), b"two");
    assert!(!raw.entries()[0].is_encrypted());
    assert_eq!(raw.entries()[0].data_offset, 31);
}

#[test]
fn entries_of_an_archive_do_not_overlap() {
    let bytes = build(&[entry("a", b"one"), entry("d/", b""), entry("d/b", b"second")]);
    let mut archive = Archive::new(bytes.clone(), false).unwrap();
    let mut end = 0;
    for e in archive.entries() {
        assert!(end <= e.data_offset);
        end = e.data_offset + e.compressed_size;
        assert!(end <= bytes.len() as u64);
        assert_eq!(e.read(&bytes).unwrap(), e.read_stored(&bytes).unwrap());
        assert_eq!(e.read_raw(&bytes).len() as u64, e.compressed_size);
    }
    let at = archive.entries()[2].data_offset as usize;
    archive.get_mut()[at] = b'S';
    assert_eq!(archive.get_ref()[at], b'S');
    assert_eq!(archive.get_by_index(2).unwrap().read(), Err(Error::BadCrc32));
}

#[test]
fn files_that_are_no_archives() {
    assert_eq!(Archive::new(Vec::new(), false).err(), Some(Error::NotAZip));
    assert_eq!(Archive::new(vec![0; 21], false).err(), Some(Error::NotAZip));
    assert_eq!(Archive::new(vec![0; 22], false).err(), Some(Error::NotAZip));
    assert_eq!(Archive::new(vec![0; 70_000], false).err(), Some(Error::NotAZip));
    // A signature with less than a record behind it.
    let mut cut = vec![0; 30];
    cut.extend([0x50, 0x4b, 5, 6]);
    assert_eq!(Archive::new(cut, false).err(), Some(Error::UnexpectedEof));
}

#[test]
fn comments_of_archives() {
    let (out, end) = parts(&[entry("a", b"one")]);
    for len in [1usize, 22, 65_535] {
        let mut bytes = out.clone();
        let end = End { comment_length: len as u16, comment: vec![b'c'; len], ..end.clone() };
        bytes.extend(bytes_of(&end));
        let archive = Archive::new(bytes, false).unwrap();
        assert_eq!(archive.commment().len(), len);
    }
    let mut bytes = out.clone();
    bytes.extend(bytes_of(&End { comment_length: 2, comment: vec![b'c'], ..end.clone() }));
    assert_eq!(Archive::new(bytes, false).err(), Some(Error::InvalidZip));
    let mut bytes = out;
    bytes.extend(bytes_of(&end));
    bytes.push(0);
    assert_eq!(Archive::new(bytes, false).err(), Some(Error::InvalidZip));
}

#[test]
fn ends_that_do_not_fit() {
    let (out, end) = parts(&[entry("a", b"one")]);
    let error = |end: End| {
        let mut bytes = out.clone();
        bytes.extend(bytes_of(&end));
        Archive::new(bytes, false).err()
    };
    assert_eq!(error(end.clone()), None);
    assert_eq!(error(End { disk: 1, ..end.clone() }), Some(Error::MultiDisk));
    assert_eq!(error(End { central_disk: 1, ..end.clone() }), Some(Error::MultiDisk));
    assert_eq!(error(End { here: 2, ..end.clone() }), Some(Error::InvalidZip));
    assert_eq!(error(End { here: 2, total: 2, ..end.clone() }), Some(Error::InvalidZip));
    assert_eq!(error(End { size: end.size - 1, ..end.clone() }), Some(Error::InvalidZip));
    assert_eq!(error(End { offset: end.offset + 1, ..end.clone() }), Some(Error::InvalidZip));
    assert_eq!(
        error(End { offset: 0, size: end.size + end.offset, ..end.clone() }),
        Some(Error::UnexpectedEof)
    );
    // No entries are looked at where there are none.
    assert_eq!(error(End { here: 0, total: 0, ..end.clone() }), None);
    // A ZIP64 locator is announced, but there is none.
    assert_eq!(error(End { here: 0xffff, total: 0xffff, ..end.clone() }), Some(Error::InvalidZip));
    let alone = bytes_of(&End { offset: 0xffff_ffff, ..end });
    assert_eq!(Archive::new(alone, false).err(), Some(Error::InvalidZip));
}

#[test]
fn zip64_records_that_do_not_fit() {
    let mut writer = eazip::ArchiveWriter::new(Vec::new());
    writer.add_file("a", b"one", &eazip::write::FileOptions::default(), false).unwrap();
    let bytes = writer.finish().unwrap();
    let locator = bytes.len() - 42;
    let record = locator - 56;
    let error = |at: usize, value: u8| {
        let mut bytes = bytes.clone();
        bytes[at] = value;
        Archive::new(bytes, false).err()
    };
    assert_eq!(error(locator, 0), Some(Error::InvalidZip));
    assert_eq!(error(locator + 4, 1), Some(Error::MultiDisk));
    assert_eq!(error(locator + 16, 2), Some(Error::MultiDisk));
    assert_eq!(error(locator + 16, 0), None);
    assert_eq!(error(locator + 15, 1), Some(Error::InvalidZip));
    assert_eq!(error(locator + 8, bytes[locator + 8] - 1), Some(Error::InvalidZip));
    assert_eq!(error(record + 4, 45), Some(Error::InvalidZip));
    assert_eq!(error(record + 11, 0xff), Some(Error::InvalidZip));
    assert_eq!(error(record + 16, 1), Some(Error::MultiDisk));
    assert_eq!(error(record + 20, 1), Some(Error::MultiDisk));
    assert_eq!(error(record + 24, 2), Some(Error::InvalidZip));
    // The signature of the record itself is not looked at.
    assert_eq!(error(record, 0), None);
    // A record size that wraps around.
    let mut wrapped = bytes.clone();
    for at in 0..8 {
        wrapped[record + 4 + at] = 0xff;
    }
    assert_eq!(Archive::new(wrapped, false).err(), Some(Error::InvalidZip));
}

#[test]
fn headers_that_are_not_valid() {
    let good = entry("a", b"one");
    assert_eq!(error_of(&[good.clone()]), None);
    let bad = Some(Error::InvalidEntry);
    assert_eq!(error_of(&[Entry { signature: 1, ..good.clone() }]), bad);
    assert_eq!(error_of(&[Entry { local_signature: 1, ..good.clone() }]), bad);
    assert_eq!(error_of(&[Entry { disk: 1, ..good.clone() }]), bad);
    assert_eq!(error_of(&[Entry { attributes: 0x10, ..good.clone() }]), bad);
    assert_eq!(error_of(&[Entry { name: b"../a".to_vec(), ..good.clone() }]), bad);
    assert_eq!(error_of(&[Entry { name: b"\xff".to_vec(), flags: 2048, ..good.clone() }]), bad);
    assert_eq!(error_of(&[Entry { comment: b"\xff".to_vec(), flags: 2048, ..good.clone() }]), bad);
    assert_eq!(error_of(&[Entry { local_name: Some(b"b".to_vec()), ..good.clone() }]), bad);
    assert_eq!(error_of(&[Entry { method: 99, ..good.clone() }]), bad);
    assert_eq!(error_of(&[Entry { uncompressed: 4, ..good.clone() }]), bad);
    assert_eq!(error_of(&[entry("d/", b"full")]), bad);
    assert_eq!(error_of(&[Entry { extra: field(0x5455, &[1]), ..good.clone() }]), bad);
    assert_eq!(Archive::new(build(&[entry("C:a", b"")]), true).err(), bad);
}

#[test]
fn entries_that_do_not_follow_each_other() {
    let a = entry("a", b"one");
    let b = entry("b", b"two");
    // The first entry does not start where the file says.
    assert_eq!(
        error_of(&[Entry { offset: Some(1_000_000), ..a.clone() }]),
        Some(Error::UnexpectedEof)
    );
    // A gap behind the entries.
    let (out, end) = parts(&[a.clone(), b.clone()]);
    let at = end.offset as usize;
    let mut bytes = out[..at].to_vec();
    bytes.push(0);
    bytes.extend(&out[at..]);
    bytes.extend(bytes_of(&End { offset: end.offset + 1, ..end }));
    assert_eq!(Archive::new(bytes, false).err(), Some(Error::InvalidZip));
    // Data that is longer than the file.
    let size = 0xffff_fff0;
    assert_eq!(
        error_of(&[Entry { compressed: size, uncompressed: size, ..a.clone() }]),
        Some(Error::InvalidZip)
    );
    let mut sizes = Vec::new();
    sizes.extend(u64::MAX.to_le_bytes());
    sizes.extend(u64::MAX.to_le_bytes());
    let huge = Entry {
        compressed: 0xffff_ffff,
        uncompressed: 0xffff_ffff,
        local_extra: field(1, &sizes),
        extra: field(1, &sizes),
        ..a.clone()
    };
    assert_eq!(error_of(&[huge]), Some(Error::SeekOutOfRange));
    assert_eq!(error_of(&[a.clone(), a.clone()]), Some(Error::DuplicatedName));
    assert_eq!(error_of(&[entry("a/", b""), a]), Some(Error::DuplicatedName));
}

#[test]
fn entries_with_descriptors() {
    let data = b"streamed";
    let mut descriptor = 0x08074b50u32.to_le_bytes().to_vec();
    descriptor.extend(crc32(data).to_le_bytes());
    descriptor.extend(8u32.to_le_bytes());
    descriptor.extend(8u32.to_le_bytes());
    let good = Entry { flags: 8, descriptor: descriptor.clone(), ..entry("a", data) };
    let archive = Archive::new(build(&[good.clone()]), false).unwrap();
    assert_eq!(archive.get_by_name("a").unwrap().read().unwrap(), data);
    descriptor[0] = 0;
    assert_eq!(
        error_of(&[Entry { descriptor: descriptor.clone(), ..good.clone() }]),
        Some(Error::InvalidEntry)
    );
    descriptor[0] = 0x50;
    descriptor[8] = 9;
    assert_eq!(error_of(&[Entry { descriptor, ..good }]), Some(Error::InvalidEntry));
}

#[test]
fn names_that_are_not_unicode() {
    let m = open_one(Entry { name: vec![0x80, b'/', 0xe1, 0xff], ..entry("", b"") });
    assert_eq!(m.name(), "Ç/ß\u{a0}");
    let unicode = |crc: u32, text: &[u8]| {
        let mut data = vec![1];
        data.extend(crc.to_le_bytes());
        data.extend(text);
        data
    };
    let raw = vec![0x82];
    let base = Entry { name: raw.clone(), comment: raw.clone(), attributes: 0, ..entry("", b"") };
    let m = open_one(base.clone());
    assert_eq!((m.name(), m.comment()), ("é", "é"));
    let name = field(0x7075, &unicode(crc32(&raw), "名".as_bytes()));
    let comment = field(0x6375, &unicode(crc32(&raw), "注".as_bytes()));
    let mut both = name.clone();
    both.extend(comment.clone());
    let m = open_one(Entry { local_extra: name.clone(), extra: both, ..base.clone() });
    assert_eq!((m.name(), m.comment()), ("名", "注"));
    // The checksum is not that of the name, or the name is Unicode already.
    let wrong = field(0x7075, &unicode(1, "名".as_bytes()));
    assert_eq!(
        error_of(&[Entry { local_extra: wrong.clone(), extra: wrong, ..base.clone() }]),
        Some(Error::InvalidEntry)
    );
    assert_eq!(
        error_of(&[Entry { extra: name, ..entry("a", b"") }]),
        Some(Error::InvalidEntry)
    );
    assert_eq!(
        error_of(&[Entry { extra: comment, ..entry("a", b"") }]),
        Some(Error::InvalidEntry)
    );
}

#[test]
fn times_of_entries() {
    let times = |flags: u8, ts: &[u32]| {
        let mut data = vec![flags];
        for t in ts {
            data.extend(t.to_le_bytes());
        }
        field(0x5455, &data)
    };
    // The access and creation times are often in the local header only.
    let m = open_one(Entry {
        local_extra: times(7, &[10, 20, 30]),
        extra: times(7, &[10]),
        ..entry("a", b"")
    });
    assert_eq!(m.modification_time, Some(Timestamp(10)));
    assert_eq!(m.access_time, Some(Timestamp(20)));
    assert_eq!(m.creation_time, Some(Timestamp(30)));
    assert_eq!(
        error_of(&[Entry {
            local_extra: times(1, &[10]),
            extra: times(1, &[11]),
            ..entry("a", b"")
        }]),
        Some(Error::InvalidEntry)
    );
    assert_eq!(
        error_of(&[Entry {
            local_extra: times(4, &[10]),
            extra: times(4, &[11]),
            ..entry("a", b"")
        }]),
        Some(Error::InvalidEntry)
    );
    let mut ntfs = vec![0; 4];
    ntfs.extend([1, 0, 24, 0]);
    for seconds in [1u64, 2, 3] {
        ntfs.extend(((11_644_473_600 + seconds) * 10_000_000 + 9).to_le_bytes());
    }
    let m = open_one(Entry { extra: field(0x000a, &ntfs), ..entry("a", b"") });
    assert_eq!(m.modification_time, Some(Timestamp(1)));
    assert_eq!(m.access_time, Some(Timestamp(2)));
    assert_eq!(m.creation_time, Some(Timestamp(3)));
}

#[test]
fn encrypted_entries() {
    let m = open_one(Entry { flags: 1, ..entry("a", b"secret") });
    assert_eq!(m.encryption, Some(EncryptionMethod::ZipCrypto));
    assert!(m.is_encrypted());
    assert_eq!(m.read(b"").err(), Some(Error::EncryptedFile));
    assert_eq!(m.read_stored(b"").err(), Some(Error::EncryptedFile));
    let m = open_one(Entry { flags: 65, ..entry("a", b"secret") });
    assert_eq!(m.encryption, Some(EncryptionMethod::StrongEncryption));
    let aes = field(0x9901, &[1, 0, b'A', b'E', 3, 8, 0]);
    let encrypted = Entry {
        flags: 1,
        method: 99,
        local_extra: aes.clone(),
        extra: aes.clone(),
        uncompressed: 3,
        ..entry("a", b"secret")
    };
    let m = open_one(encrypted.clone());
    assert_eq!(m.encryption, Some(EncryptionMethod::Aes { key_size: 256, check_crc32: true }));
    assert_eq!(m.compression_method, CompressionMethod(CompressionMethod::DEFLATE));
    // Whichever encryption the flags announce, the field tells of AES. It cannot be there twice.
    let m = open_one(Entry { flags: 65, ..encrypted.clone() });
    assert_eq!(m.encryption, Some(EncryptionMethod::Aes { key_size: 256, check_crc32: true }));
    let nested = field(0x9901, &[1, 0, b'A', b'E', 3, 99, 0]);
    let twice = [nested, aes].concat();
    let twice = Entry { local_extra: twice.clone(), extra: twice, ..encrypted.clone() };
    assert_eq!(error_of(&[twice]), Some(Error::InvalidEntry));
    // The second version keeps no checksum.
    let aes2 = field(0x9901, &[2, 0, b'A', b'E', 1, 0, 0]);
    let second = Entry { local_extra: aes2.clone(), extra: aes2, ..encrypted.clone() };
    assert_eq!(error_of(&[second.clone()]), Some(Error::InvalidEntry));
    let m = open_one(Entry { crc: 0, ..second });
    assert_eq!(m.encryption, Some(EncryptionMethod::Aes { key_size: 128, check_crc32: false }));
    // The flags or the method do not announce the encryption.
    assert_eq!(error_of(&[Entry { flags: 0, ..encrypted.clone() }]), Some(Error::InvalidEntry));
    assert_eq!(error_of(&[Entry { method: 0, ..encrypted }]), Some(Error::InvalidEntry));
}

#[test]
fn contents_that_do_not_match() {
    let bytes = build(&[entry("a", b"content")]);
    let archive = Archive::new(bytes.clone(), false).unwrap();
    let m = &archive.entries()[0];
    assert_eq!(m.read(&bytes).unwrap(), b"content");
    let mut changed = bytes.clone();
    changed[m.data_offset as usize] ^= 1;
    assert_eq!(m.read(&changed), Err(Error::BadCrc32));
    assert_eq!(m.read_stored(&changed), Err(Error::BadCrc32));
    assert_eq!(m.read(&bytes[..35]), Err(Error::BadLength));
    assert_eq!(m.read(b""), Err(Error::BadLength));
    assert_eq!(m.read_raw(&bytes[..35]), b"cont");
    assert_eq!(m.check_content(b"content"), Ok(()));
    assert_eq!(m.check_content(b"contents"), Err(Error::BadLength));
    assert_eq!(m.check_content(b"Content"), Err(Error::BadCrc32));
    assert_eq!(m.check_sums(7, m.crc32), Ok(()));
    assert_eq!(m.check_sums(7, !m.crc32), Err(Error::BadCrc32));
    assert_eq!(m.check_stored(!m.crc32), Err(Error::BadCrc32));

    // Compressed contents that are too long, too short, or corrupted.
    let mut writer = eazip::ArchiveWriter::new(Vec::new());
    for (name, method) in [("d", CompressionMethod::DEFLATE), ("z", CompressionMethod::ZSTD)] {
        let mut options = eazip::write::FileOptions::default();
        options.compression_method = CompressionMethod(method);
        writer.add_file(name, &b"abc".repeat(1000), &options, false).unwrap();
    }
    let bytes = writer.finish().unwrap();
    let archive = Archive::new(bytes.clone(), false).unwrap();
    for m in archive.entries() {
        let longer = eazip::read::Metadata { uncompressed_size: 3001, ..copy(m) };
        assert_eq!(longer.read(&bytes), Err(Error::BadLength));
        let shorter = eazip::read::Metadata { uncompressed_size: 2999, ..copy(m) };
        assert_eq!(shorter.read(&bytes), Err(Error::BadLength));
        let cut = eazip::read::Metadata { compressed_size: m.compressed_size - 2, ..copy(m) };
        assert_eq!(
            cut.read(&bytes),
            Err(Error::CorruptedContent(eazip::ErrorKind::UnexpectedEof))
        );
        let unknown = eazip::read::Metadata {
            compression_method: CompressionMethod(CompressionMethod::XZ),
            ..copy(m)
        };
        assert_eq!(
            unknown.read(&bytes),
            Err(Error::UnsupportedMethod(CompressionMethod(CompressionMethod::XZ)))
        );
    }
}

#[test]
fn contents_are_checked_in_chunks() {
    let bytes = build(&[entry("a", b"content")]);
    let archive = Archive::new(bytes, false).unwrap();
    let m = &archive.entries()[0];
    for size in 1..8 {
        let mut checker = m.content_checker();
        for chunk in b"content".chunks(size) {
            assert_eq!(checker.read(chunk), Ok(()));
        }
        assert_eq!(checker.read(b""), Ok(()));
    }
    let mut checker = m.content_checker();
    assert_eq!(checker.read(b"con"), Ok(()));
    assert_eq!(checker.read(b""), Err(Error::BadLength));
    assert_eq!(checker.read(b"tents"), Err(Error::BadLength));
    assert_eq!(checker.read(b"tenT"), Ok(()));
    assert_eq!(checker.read(b""), Err(Error::BadCrc32));
}

#[test]
fn extracting_entries() {
    let link = |name: &str, target: &[u8]| Entry { attributes: 0xa1ff_0000, ..entry(name, target) };
    let bytes = build(&[entry("d/", b""), entry("d/f", b"text"), link("d/l", b"../d/f")]);
    let archive = Archive::new(bytes, false).unwrap();
    let all = archive.extract(false).unwrap();
    assert_eq!(all.len(), 3);
    assert!(matches!(&all[0], Extraction::Directory));
    assert!(matches!(&all[1], Extraction::File { content, modified: None } if content == b"text"));
    assert!(matches!(&all[2], Extraction::Symlink { target } if target == "../d/f"));
    for (target, error) in [
        (&b"../../x"[..], Error::InvalidSymlink),
        (b"/x", Error::InvalidSymlink),
        (b"\xff", Error::InvalidUtf8),
    ] {
        let archive = Archive::new(build(&[link("d/l", target)]), false).unwrap();
        assert_eq!(archive.extract(false).err(), Some(error));
    }
    let archive = Archive::new(build(&[link("d/l", b"c:x")]), false).unwrap();
    assert!(archive.extract(false).is_ok());
    assert_eq!(archive.extract(true).err(), Some(Error::InvalidSymlink));
}

#[test]
fn types_of_entries() {
    assert_eq!(FileType::test(0, "a"), Some(FileType::File));
    assert_eq!(FileType::test(0, "a/"), Some(FileType::Directory));
    assert_eq!(FileType::test(0x20, "a"), Some(FileType::File));
    assert_eq!(FileType::test(0x20, "a/"), None);
    assert_eq!(FileType::test(0x10, "a"), None);
    assert_eq!(FileType::test(0x10, "a/"), Some(FileType::Directory));
    assert_eq!(FileType::test(8 << 28, "a"), Some(FileType::File));
    assert_eq!(FileType::test(4 << 28, "a/"), Some(FileType::Directory));
    assert_eq!(FileType::test(10 << 28, "a"), Some(FileType::Symlink));
    assert_eq!(FileType::test(10 << 28, "a/"), None);
    assert_eq!(FileType::test(10 << 28 | 0x20, "a"), None);
    assert!(FileType::File.is_file() && !FileType::File.is_directory());
    assert!(FileType::Symlink.is_symlink());
}
