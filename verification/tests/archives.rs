use eazip::write::FileOptions;
use eazip::{Archive, ArchiveWriter, CompressionMethod, Error, FileType, Timestamp};

fn test_one(bytes: Vec<u8>) {
    let ar = eazip::ArchiveReader::new(bytes, false).unwrap();

    let len = ar.entries().len();
    assert_eq!(5, len);

    for i in 0..len {
        let file = ar.get_by_index(i).unwrap();

        let content = String::from_utf8(file.read().unwrap()).unwrap();
        let meta = file.metadata();

        match meta.name() {
            "hello/" => {
                assert_eq!(meta.compression_method, CompressionMethod(CompressionMethod::STORE));
                assert_eq!(content, "");
                assert_eq!(meta.file_type, FileType::Directory);
            }
            "hello/Benoît.txt" => {
                assert!(content.is_empty() || content == "Hello!\n");
                assert_eq!(meta.file_type, FileType::File);
            }
            "hello/hello.txt" => {
                assert_eq!(content, "Hello!\n");
                assert_eq!(meta.file_type, FileType::File);
            }
            "hello/symlink" => match meta.file_type {
                FileType::File => assert_eq!(content, "Hello!\n"),
                FileType::Symlink => assert_eq!(content, "hello.txt"),
                FileType::Directory => panic!(),
            },
            "hello/你好.txt" => {
                assert_eq!(content, "Hello!\n");
                assert_eq!(meta.file_type, FileType::File);
            }
            name => panic!("{name:?}"),
        }
    }
}

#[test]
fn self_test() {
    let mut options = FileOptions::default();
    let data = b"Hello!\n".as_slice();

    let mut writer = ArchiveWriter::new(Vec::new());
    writer.add_directory("hello/", false).unwrap();
    writer.add_file("hello/Benoît.txt", data, &options, false).unwrap();
    writer.add_file("hello/hello.txt", data, &options, false).unwrap();
    writer.add_symlink("hello/symlink", "hello.txt", false).unwrap();

    options.modified_at = Timestamp::from_unix(1_700_000_000);
    let mut file = writer.stream_file("hello/你好.txt", &options, false).unwrap();
    file.write(data);
    file.finish().unwrap();

    let bytes = writer.finish().unwrap();

    test_one(bytes.clone());

    let archive = Archive::new(bytes, false).unwrap();
    let times: Vec<Option<Timestamp>> =
        archive.entries().iter().map(|e| e.modification_time).collect();
    assert_eq!(times, [None, None, None, None, Some(Timestamp(1_700_000_000))]);
}

#[test]
fn write_invalid_names() {
    let mut archive = ArchiveWriter::new(Vec::new());
    let options = FileOptions::default();

    archive.add_file("trailing slash/", &[], &options, false).unwrap_err();

    archive.add_file("duplicated", &[], &options, false).unwrap();
    archive.add_file("duplicated", &[], &options, false).unwrap_err();
    archive.add_file("./duplicated", &[], &options, false).unwrap_err();
    archive.add_directory("duplicated/", false).unwrap_err();

    archive.add_file("/absolute", &[], &options, false).unwrap_err();
    archive.add_file("C:/absolute", &[], &options, true).unwrap_err();

    archive.add_file("test/../../../oops", &[], &options, false).unwrap_err();
    assert!(archive.stream_file("dir\\file.txt", &options, false).is_err());
    archive.add_file("", &[], &options, false).unwrap_err();

    archive.add_directory("no trailing slash", false).unwrap_err();

    archive.add_file("still valid", &[], &options, false).unwrap();
}

fn with_method(method: u16) -> FileOptions {
    let mut options = FileOptions::default();
    options.compression_method = CompressionMethod(method);
    options
}

#[test]
fn contents_come_back_with_every_method() {
    let long: Vec<u8> = (0..100_000u32).map(|i| (i / 7 % 251) as u8).collect();
    for method in [CompressionMethod::STORE, CompressionMethod::DEFLATE, CompressionMethod::ZSTD] {
        let options = with_method(method);
        let mut writer = ArchiveWriter::new(Vec::new());
        writer.add_file("long", &long, &options, false).unwrap();
        writer.add_file("empty", &[], &options, false).unwrap();
        let mut streamed = writer.stream_file("streamed", &options, false).unwrap();
        for chunk in long.chunks(999) {
            streamed.write(chunk);
        }
        streamed.finish_with_comment("in chunks").unwrap();

        let archive = Archive::new(writer.finish().unwrap(), false).unwrap();
        assert_eq!(archive.entries().len(), 3);
        assert_eq!(archive.get_by_name("long").unwrap().read().unwrap(), long);
        assert_eq!(archive.get_by_name("empty").unwrap().read().unwrap(), b"");
        let file = archive.get_by_name("streamed").unwrap();
        assert_eq!(file.read().unwrap(), long);
        assert_eq!(file.metadata().comment(), "in chunks");
        assert_eq!(file.metadata().uncompressed_size, 100_000);
        if method != CompressionMethod::STORE {
            assert!(file.metadata().compressed_size < 50_000);
            assert_ne!(file.read_raw(), &long[..]);
        }
    }
}

#[test]
fn unsupported_methods() {
    let options = with_method(CompressionMethod::LZMA);
    let mut writer = ArchiveWriter::new(Vec::new());
    let unsupported = Error::UnsupportedMethod(CompressionMethod(CompressionMethod::LZMA));
    assert_eq!(writer.add_file("a", b"a", &options, false), Err(unsupported));
    writer.add_file("a", b"a", &FileOptions::default(), false).unwrap();
    assert_eq!(writer.stream_file("b", &options, false).err(), Some(unsupported));
    // The header of the stream is written: the writer has to recover.
    assert_eq!(
        writer.add_file("c", b"c", &FileOptions::default(), false),
        Err(Error::NotFinished)
    );
    writer.recover();
    writer.add_file("b", b"b", &FileOptions::default(), false).unwrap();
    let archive = Archive::new(writer.finish().unwrap(), false).unwrap();
    assert_eq!(archive.entries().len(), 2);
    assert_eq!(archive.get_by_name("b").unwrap().read().unwrap(), b"b");
}

#[test]
fn an_unfinished_stream_blocks_the_writer() {
    let options = FileOptions::default();
    let mut writer = ArchiveWriter::new(Vec::new());
    writer.add_file("first", b"first", &options, false).unwrap();
    let before = writer.get_ref().clone();
    let mut file = writer.stream_file("second", &options, false).unwrap();
    file.write(b"lost");
    drop(file);
    assert_eq!(writer.add_directory("dir/", false), Err(Error::NotFinished));
    assert_eq!(writer.add_symlink("link", "first", false), Err(Error::NotFinished));
    assert_eq!(writer.stream_file("third", &options, false).err(), Some(Error::NotFinished));
    writer.recover();
    assert_eq!(writer.get_ref(), &before);
    writer.recover();
    assert_eq!(writer.get_ref(), &before);
    writer.add_file("second", b"found", &options, false).unwrap();
    writer.flush().unwrap();
    let archive = Archive::new(writer.finish().unwrap(), false).unwrap();
    assert_eq!(archive.get_by_name("first").unwrap().read().unwrap(), b"first");
    assert_eq!(archive.get_by_name("second").unwrap().read().unwrap(), b"found");

    let mut writer = ArchiveWriter::new(Vec::new());
    drop(writer.stream_file("a", &options, false));
    assert_eq!(writer.finish().err(), Some(Error::NotFinished));
}

#[test]
fn errors_of_the_writer() {
    let options = FileOptions::default();
    let mut writer = ArchiveWriter::new(Vec::new());
    let long = "a".repeat(65_535);
    let too_long = "a".repeat(65_536);
    assert_eq!(writer.add_file(&too_long, &[], &options, false), Err(Error::FileNameTooLong));
    writer.add_file(&long, &[], &options, false).unwrap();
    assert_eq!(writer.add_file(&long, &[], &options, false), Err(Error::DuplicatedFileName));
    assert_eq!(writer.add_file("/b", &[], &options, false), Err(Error::InvalidFileName));
    assert_eq!(writer.add_file("b/", &[], &options, false), Err(Error::InvalidFileName));
    assert_eq!(writer.add_symlink("b/", "a", false), Err(Error::InvalidFileName));

    let file = writer.stream_file("c", &options, false).unwrap();
    assert_eq!(file.finish_with_comment(&too_long), Err(Error::CommentTooLong));
    writer.recover();
    let file = writer.stream_file("c", &options, false).unwrap();
    file.finish_with_comment(&long).unwrap();

    let archive = Archive::new(writer.finish().unwrap(), false).unwrap();
    assert_eq!(archive.index_of(&long), Some(0));
    assert_eq!(archive.index_of("c"), Some(1));
    assert_eq!(archive.get_by_name("c").unwrap().metadata().comment(), long);
}

#[test]
fn an_empty_archive() {
    let bytes = ArchiveWriter::new(Vec::new()).finish().unwrap();
    assert_eq!(bytes.len(), 56 + 20 + 22);
    let archive = Archive::new(bytes, false).unwrap();
    assert_eq!(archive.entries().len(), 0);
    assert_eq!(archive.commment(), b"");
    assert!(archive.get_by_index(0).is_none());
    assert!(archive.get_by_name("a").is_none());
}

#[test]
fn the_bytes_of_an_archive() {
    let mut writer = ArchiveWriter::new(Vec::new());
    writer.add_file("a", b"xyz", &FileOptions::default(), false).unwrap();
    let bytes = writer.finish().unwrap();
    let crc: [u8; 4] = [0x67, 0xba, 0x8e, 0xeb];
    let mut expected: Vec<u8> = Vec::new();
    expected.extend([0x50, 0x4b, 3, 4, 45, 0, 0, 8, 0, 0, 0, 0, 0, 0]);
    expected.extend(crc);
    expected.extend([0xff; 8]);
    expected.extend([1, 0, 20, 0, b'a', 1, 0, 16, 0]);
    expected.extend([3, 0, 0, 0, 0, 0, 0, 0, 3, 0, 0, 0, 0, 0, 0, 0]);
    expected.extend(b"xyz");
    let offset = expected.len();
    expected.extend([0x50, 0x4b, 1, 2, 0, 3, 45, 0, 0, 8, 0, 0, 0, 0, 0, 0]);
    expected.extend(crc);
    expected.extend([0xff; 8]);
    expected.extend([1, 0, 28, 0, 0, 0, 0, 0, 1, 0, 0x20, 0, 0, 0x80, 0xff, 0xff, 0xff, 0xff]);
    expected.extend([b'a', 1, 0, 24, 0]);
    expected.extend([3, 0, 0, 0, 0, 0, 0, 0, 3, 0, 0, 0, 0, 0, 0, 0, 0, 0, 0, 0, 0, 0, 0, 0]);
    assert_eq!(offset, 54);
    assert_eq!(expected.len() - offset, 75);
    expected.extend([0x50, 0x4b, 6, 6, 44, 0, 0, 0, 0, 0, 0, 0, 0, 3, 45, 0]);
    expected.extend([0; 8]);
    expected.extend([1, 0, 0, 0, 0, 0, 0, 0, 1, 0, 0, 0, 0, 0, 0, 0]);
    expected.extend([75, 0, 0, 0, 0, 0, 0, 0, 54, 0, 0, 0, 0, 0, 0, 0]);
    expected.extend([0x50, 0x4b, 6, 7, 0, 0, 0, 0, 129, 0, 0, 0, 0, 0, 0, 0, 1, 0, 0, 0]);
    expected.extend([0x50, 0x4b, 5, 6, 0, 0, 0, 0]);
    expected.extend([0xff; 12]);
    expected.extend([0, 0]);
    assert_eq!(bytes, expected);
}

#[test]
fn bytes_behind_a_writer() {
    let mut writer = ArchiveWriter::new(Vec::new());
    writer.add_directory("a/", false).unwrap();
    let len = writer.get_ref().len();
    writer.get_mut().push(7);
    assert_eq!(writer.get_ref().len(), len + 1);
}

#[test]
fn every_kind_of_entry_comes_back() {
    let options = FileOptions::default();
    let mut writer = ArchiveWriter::new(Vec::new());
    writer.add_directory("hello/", false).unwrap();
    writer.add_file("hello/hello.txt", b"Hello!\n", &options, false).unwrap();
    writer.add_symlink("hello/symlink", "hello.txt", false).unwrap();
    let bytes = writer.finish().unwrap();

    let expected: [(&str, FileType, &[u8]); 3] = [
        ("hello/", FileType::Directory, b""),
        ("hello/hello.txt", FileType::File, b"Hello!\n"),
        ("hello/symlink", FileType::Symlink, b"hello.txt"),
    ];
    let archive = Archive::new(bytes.clone(), false).unwrap();
    assert_eq!(archive.entries().len(), 3);
    let mut sequence = eazip::read::stream::ZipArchive::new(&bytes);
    for (i, (name, file_type, content)) in expected.into_iter().enumerate() {
        let file = archive.get_by_index(i).unwrap();
        let meta = file.metadata();
        assert_eq!(meta.name(), name);
        assert_eq!(meta.file_type, file_type);
        assert_eq!(meta.compression_method, CompressionMethod(CompressionMethod::STORE));
        assert_eq!(file.read().unwrap(), content);
        let file = sequence.next_file(false).unwrap().unwrap();
        assert_eq!(file.metadata().name(), name);
        assert_eq!(file.reader().unwrap(), content);
    }
    assert!(sequence.next_file(false).unwrap().is_none());
    assert_eq!(archive.entries()[0].crc32, 0);
}

#[test]
fn a_file_comes_back_under_its_canonical_name() {
    for method in [CompressionMethod::STORE, CompressionMethod::DEFLATE, CompressionMethod::ZSTD] {
        let mut writer = ArchiveWriter::new(Vec::new());
        writer.add_file("./dir//a.txt", b"123456789", &with_method(method), false).unwrap();
        let archive = Archive::new(writer.finish().unwrap(), false).unwrap();
        assert_eq!(archive.entries().len(), 1);
        assert!(archive.get_by_name("./dir//a.txt").is_none());
        let file = archive.get_by_name("dir/a.txt").unwrap();
        assert_eq!(file.read().unwrap(), b"123456789");
        let meta = file.metadata();
        assert_eq!(meta.file_type, FileType::File);
        assert_eq!(meta.uncompressed_size, 9);
        assert_eq!(meta.crc32, 0xcbf4_3926);
        assert_eq!(meta.compression_method, CompressionMethod(method));
        assert!(meta.encryption.is_none());
    }
}

#[test]
fn times_come_back() {
    let latest = eazip::write::raw::LATEST_TIME;
    assert_eq!(latest, 1_833_029_933_770);
    let short = u32::MAX as u64;
    for time in [0, 1, 1_700_000_000, short, short + 1, 5_000_000_000, latest, latest + 1, u64::MAX] {
        let read = if time == 0 || time > latest { None } else { Some(Timestamp(time)) };
        let mut options = FileOptions::default();
        options.modified_at = Timestamp::from_unix(time);
        let mut writer = ArchiveWriter::new(Vec::new());
        writer.add_file("a", b"", &options, false).unwrap();
        let mut streamed = writer.stream_file("b", &options, false).unwrap();
        streamed.write(b"content");
        streamed.finish().unwrap();
        let archive = Archive::new(writer.finish().unwrap(), false).unwrap();
        for entry in archive.entries() {
            assert_eq!(entry.modification_time, read);
            // The field for late times cannot leave the other ones out.
            let other = if read.is_some() && time > short { Some(Timestamp(0)) } else { None };
            assert_eq!(entry.access_time, other);
            assert_eq!(entry.creation_time, other);
        }
        assert_eq!(archive.get_by_name("b").unwrap().read().unwrap(), b"content");
    }
}
