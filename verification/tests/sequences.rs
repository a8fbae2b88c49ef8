use eazip::read::scanner::{Scanner, Step};
use eazip::read::stream::ZipArchive;
use eazip::read::RawArchive;
use eazip::write::raw::{self, RawArchiveWriter};
use eazip::write::FileOptions;
use eazip::{Archive, ArchiveWriter, CompressionMethod, Error, FileType, Timestamp};

/// Reads an archive piece by piece, and counts the pieces.
fn scan(bytes: &[u8]) -> Result<(RawArchive, usize), Error> {
    let mut scanner = Scanner::new(bytes.len() as u64, false)?;
    let mut pieces = 0;
    loop {
        let (offset, len) = scanner.request();
        let piece =
            bytes.get(offset as usize..offset as usize + len).ok_or(Error::UnexpectedEof)?;
        pieces += 1;
        match scanner.feed(piece)? {
            Step::More(next) => scanner = next,
            Step::Done(archive) => return Ok((archive, pieces)),
        }
    }
}

#[test]
fn an_archive_is_read_in_pieces() {
    let options = FileOptions::default();
    let mut writer = ArchiveWriter::new(Vec::new());
    writer.add_file("a", b"one", &options, false).unwrap();
    writer.add_directory("d/", false).unwrap();
    let mut file = writer.stream_file("d/b", &options, false).unwrap();
    file.write(b"two");
    file.finish().unwrap();
    let bytes = writer.finish().unwrap();

    let (archive, pieces) = scan(&bytes).unwrap();
    // The end, its locator and its record; two for each header; a descriptor.
    assert_eq!(pieces, 3 + 6 + 6 + 1);
    let names: Vec<&str> = archive.entries().iter().map(|e| e.name()).collect();
    assert_eq!(names, ["a", "d/", "d/b"]);
    let whole = RawArchive::new(&bytes, false).unwrap();
    assert_eq!(whole.entries().len(), 3);
    assert_eq!(whole.entries()[2].data_offset, archive.entries()[2].data_offset);

    assert_eq!(scan(&bytes[..10]).err(), Some(Error::NotAZip));
    assert_eq!(scan(&bytes[1..]).err(), RawArchive::new(&bytes[1..], false).err());
    for at in 0..bytes.len() {
        let mut changed = bytes.clone();
        changed[at] ^= 0x10;
        let (a, b) = (scan(&changed), RawArchive::new(&changed, false));
        assert_eq!(a.as_ref().err(), b.as_ref().err(), "{at}");
    }
}

#[test]
fn entries_are_read_one_after_the_other() {
    let mut options = FileOptions::default();
    options.compression_method = CompressionMethod(CompressionMethod::DEFLATE);
    options.modified_at = Timestamp(99);
    let mut writer = ArchiveWriter::new(Vec::new());
    writer.add_file("a", &b"one".repeat(50), &options, false).unwrap();
    writer.add_symlink("l", "a", false).unwrap();
    let bytes = writer.finish().unwrap();

    let mut archive = ZipArchive::new(&bytes);
    let first = archive.next_file(false).unwrap().unwrap();
    assert_eq!(first.metadata().name(), "a");
    assert_eq!(first.metadata().modification_time, Some(Timestamp(99)));
    assert_eq!(first.reader().unwrap(), b"one".repeat(50));
    assert_eq!(first.raw_reader().len() as u64, first.metadata().compressed_size);
    let second = archive.next_file(false).unwrap().unwrap();
    assert_eq!(second.metadata().name(), "l");
    assert_eq!(second.reader().unwrap(), b"a");
    assert!(archive.next_file(false).unwrap().is_none());
}

#[test]
fn errors_of_sequential_reading() {
    let options = FileOptions::default();
    let mut writer = ArchiveWriter::new(Vec::new());
    writer.add_file("a", b"content", &options, false).unwrap();
    let bytes = writer.finish().unwrap();
    let data_end = 30 + 1 + 20 + 7;

    assert_eq!(ZipArchive::new(&bytes[..29]).next_file(false).err(), Some(Error::UnexpectedEof));
    assert_eq!(ZipArchive::new(&bytes[..40]).next_file(false).err(), Some(Error::UnexpectedEof));
    assert_eq!(ZipArchive::new(&bytes[1..]).next_file(false).err(), Some(Error::UnknownSignature));
    let mut short = ZipArchive::new(&bytes[..data_end - 1]);
    let file = short.next_file(false).unwrap().unwrap();
    assert_eq!(file.raw_reader(), b"conten");
    assert_eq!(file.reader(), Err(Error::BadLength));
    assert_eq!(short.next_file(false).err(), Some(Error::UnexpectedEof));
    assert_eq!(short.next_file(false).err(), Some(Error::UnexpectedEof));
    let mut invalid = bytes.clone();
    invalid[30] = b'/';
    assert_eq!(ZipArchive::new(&invalid).next_file(false).err(), Some(Error::InvalidEntry));

    let mut writer = ArchiveWriter::new(Vec::new());
    let mut file = writer.stream_file("a", &options, false).unwrap();
    file.write(b"content");
    file.finish().unwrap();
    let bytes = writer.finish().unwrap();
    assert_eq!(ZipArchive::new(&bytes).next_file(false).err(), Some(Error::LengthUnavailable));

    let bytes = ArchiveWriter::new(Vec::new()).finish().unwrap();
    assert_eq!(ZipArchive::new(&bytes).next_file(false).err(), Some(Error::UnknownSignature));
}

#[test]
fn an_archive_is_written_in_pieces() {
    let mut out = Vec::new();
    let mut raw = RawArchiveWriter::new();
    let meta = raw::Metadata {
        compression_method: CompressionMethod(CompressionMethod::STORE),
        uncompressed_size: 3,
        crc32: eazip::utils::crc32::hash(b"one"),
        typ: FileType::File,
        modified_at: Timestamp(7),
    };
    let name = raw.begin_entry("./a", FileType::File, false).unwrap();
    assert_eq!(name, "a");
    assert_eq!(raw.unfinished(), Some(0));
    assert_eq!(raw.start_writing(), Err(Error::NotFinished));
    raw::write_local_header(&mut out, &name, &meta, 3, false);
    out.extend(b"one");
    raw.end_entry(&name, &meta, 3, false, "comment", out.len() as u64);
    assert_eq!(raw.unfinished(), None);
    assert_eq!(raw.position(), out.len() as u64);
    assert_eq!(
        raw.check_name("a/", FileType::Directory, false),
        Err(Error::DuplicatedFileName)
    );

    let options = FileOptions::default();
    let mut file = raw.start_stream_raw(&mut out, "b", &options, false).unwrap();
    file.write(b"tw");
    file.write(b"o");
    file.finish(3, eazip::utils::crc32::hash(b"two"), "").unwrap();
    raw.write_file_raw(&mut out, "c", b"one", &meta, "third", false).unwrap();

    let mut whole = out.clone();
    whole.extend(raw.central_directory());
    whole.extend(raw.end_of_directory());
    raw.finish(&mut out).unwrap();
    assert_eq!(out, whole);

    let archive = Archive::new(out, false).unwrap();
    let entries: Vec<(&str, &str)> =
        archive.entries().iter().map(|e| (e.name(), e.comment())).collect();
    assert_eq!(entries, [("a", "comment"), ("b", ""), ("c", "third")]);
    assert_eq!(archive.get_by_name("b").unwrap().read().unwrap(), b"two");
    assert_eq!(archive.get_by_name("c").unwrap().read().unwrap(), b"one");
}

#[test]
fn recovering_a_raw_writer() {
    let mut raw = RawArchiveWriter::new();
    raw.recover();
    assert_eq!(raw.unfinished(), None);
    raw.begin_entry("a", FileType::File, false).unwrap();
    assert_eq!(raw.begin_entry("b", FileType::File, false), Err(Error::NotFinished));
    raw.recover();
    assert_eq!((raw.unfinished(), raw.position()), (None, 0));
    // The name of an entry that was not finished is free again.
    raw.begin_entry("a", FileType::File, false).unwrap();
    let mut out = Vec::new();
    assert_eq!(raw.finish(&mut out), Err(Error::NotFinished));
    assert!(out.is_empty());
}
