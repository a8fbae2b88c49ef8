use eazip::compression::{compress, decompress};
use eazip::error::ErrorKind;
use eazip::read::extra_field::{
    Aes, AesMode, AesVersion, DataParser, ExtendedTimestamp, ExtraField, ExtraFields, Ntfs,
    UnicodeComment, UnicodeName, UnixNew,
};
use eazip::read::metadata::convert_string;
use eazip::read::raw::{find_eocd_in_buffer, opt_eq, CentralDirectory};
use eazip::types::{
    CentralFileHeader, DataDescriptor32, DataDescriptor64, EndOfCentralDirectory,
    EndOfCentralDirectory64, EndOfCentralDirectory64Locator, LocalFileHeader, U16, U32, U64,
};
use eazip::utils::crc32::{hash, Crc32Checker, Crc32Writer};
use eazip::utils::name_table::NameTable;
use eazip::utils::{cp437, Counter, LengthChecker};
use eazip::{CompressionMethod, Error, Timestamp};

#[test]
fn integers_are_little_endian() {
    assert_eq!(U16(0x34, 0x12).get(), 0x1234);
    assert_eq!(U16::set(0x1234), U16(0x34, 0x12));
    assert_eq!(U32(0x78, 0x56, 0x34, 0x12).get(), 0x1234_5678);
    assert_eq!(U32::set(u32::MAX), U32(255, 255, 255, 255));
    assert_eq!(U64::set(0x0102_0304_0506_0708), U64(8, 7, 6, 5, 4, 3, 2, 1));
    assert_eq!(U64(8, 7, 6, 5, 4, 3, 2, 1).get(), 0x0102_0304_0506_0708);
    assert_eq!(U64::set(u64::MAX).get(), u64::MAX);
}

#[test]
fn records_are_written_as_they_are_read() {
    let bytes: Vec<u8> = (1..=60).collect();
    let mut out = Vec::new();
    LocalFileHeader::read(&bytes).push(&mut out);
    assert_eq!(out, &bytes[..LocalFileHeader::SIZE]);
    out.clear();
    DataDescriptor32::read(&bytes).push(&mut out);
    assert_eq!(out, &bytes[..DataDescriptor32::SIZE]);
    out.clear();
    DataDescriptor64::read(&bytes).push(&mut out);
    assert_eq!(out, &bytes[..DataDescriptor64::SIZE]);
    out.clear();
    CentralFileHeader::read(&bytes).push(&mut out);
    assert_eq!(out, &bytes[..CentralFileHeader::SIZE]);
    out.clear();
    EndOfCentralDirectory64::read(&bytes).push(&mut out);
    assert_eq!(out, &bytes[..EndOfCentralDirectory64::SIZE]);
    out.clear();
    EndOfCentralDirectory64Locator::read(&bytes).push(&mut out);
    assert_eq!(out, &bytes[..EndOfCentralDirectory64Locator::SIZE]);
    out.clear();
    EndOfCentralDirectory::read(&bytes).push(&mut out);
    assert_eq!(out, &bytes[..EndOfCentralDirectory::SIZE]);
}

#[test]
fn timestamps() {
    assert_eq!(Timestamp::from_unix(5).to_unix(), 5);
    assert_eq!(Timestamp::default(), Timestamp(Timestamp::UNIX_EPOCH));
    assert_eq!(Timestamp::from_ntfs(0), Timestamp(0));
    assert_eq!(Timestamp::from_ntfs(116_444_736_000_000_000), Timestamp(0));
    assert_eq!(Timestamp::from_ntfs(116_444_736_009_999_999), Timestamp(0));
    assert_eq!(Timestamp::from_ntfs(116_444_736_010_000_000), Timestamp(1));
    assert_eq!(Timestamp::from_ntfs(u64::MAX), Timestamp(1_833_029_933_770));
    assert!(Timestamp(1) < Timestamp(2));
}

#[test]
fn compression_methods() {
    let names = [
        (0, "store"),
        (8, "deflate"),
        (9, "deflate64"),
        (12, "bzip2"),
        (14, "lzma"),
        (20, "zstd (deprecated)"),
        (93, "zstd"),
        (95, "xz"),
        (99, "aes"),
        (1, "unknown (1)"),
        (10, "unknown (10)"),
        (65535, "unknown (65535)"),
    ];
    for (n, name) in names {
        assert_eq!(CompressionMethod(n).describe(), name);
        assert_eq!(CompressionMethod(n).is_supported(), [0, 8, 93].contains(&n));
    }
    assert_eq!(CompressionMethod::default(), CompressionMethod(CompressionMethod::STORE));
}

#[test]
fn compressing_and_decompressing() {
    let content = b"content ".repeat(100);
    for n in [0, 8, 93] {
        let method = CompressionMethod(n);
        let data = compress(method, None, &content).unwrap();
        assert_eq!(data == content, n == 0);
        assert_eq!(decompress(method, &data, 801).unwrap(), content);
        assert_eq!(decompress(method, &data, 800).unwrap(), content);
        assert_eq!(decompress(method, &data, 10).unwrap(), &content[..10]);
        assert_eq!(decompress(method, &data, 0).unwrap(), b"");
        let empty = compress(method, Some(3), b"").unwrap();
        assert_eq!(decompress(method, &empty, 1).unwrap(), b"");
    }
    // Corrupted data and data that ends too early have the category that the decoder gives.
    let deflate = CompressionMethod(8);
    let corrupted = Error::CorruptedContent(ErrorKind::InvalidInput);
    assert_eq!(decompress(deflate, &[0xff; 10], 10), Err(corrupted));
    assert_eq!(corrupted.kind(), ErrorKind::InvalidInput);
    assert_eq!(corrupted.message(), "corrupted compressed content");
    let zstd = CompressionMethod(93);
    let corrupted = Error::CorruptedContent(ErrorKind::Other);
    assert_eq!(decompress(zstd, &[0xff; 10], 10), Err(corrupted));
    assert_eq!(corrupted.kind(), ErrorKind::Other);
    for method in [deflate, zstd] {
        let data = compress(method, None, &content).unwrap();
        let cut = Error::CorruptedContent(ErrorKind::UnexpectedEof);
        assert_eq!(decompress(method, &data[..data.len() - 1], 801), Err(cut));
        assert_eq!(cut.kind(), ErrorKind::UnexpectedEof);
    }
    let unknown = CompressionMethod(7);
    assert_eq!(decompress(unknown, b"", 1), Err(Error::UnsupportedMethod(unknown)));
    assert_eq!(compress(unknown, None, b""), Err(Error::UnsupportedMethod(unknown)));
}

#[test]
fn error_texts() {
    assert_eq!(Error::NotAZip.message(), "not a zip archive");
    assert_eq!(Error::NotAZip.kind(), ErrorKind::InvalidData);
    assert_eq!(Error::MultiDisk.message(), "multi-disk archives are not supported");
    assert_eq!(Error::MultiDisk.kind(), ErrorKind::Unsupported);
    assert_eq!(Error::UnexpectedEof.kind(), ErrorKind::UnexpectedEof);
    assert_eq!(Error::SeekOutOfRange.kind(), ErrorKind::InvalidInput);
    assert_eq!(Error::OutOfMemory.kind(), ErrorKind::OutOfMemory);
    assert_eq!(Error::NotFinished.kind(), ErrorKind::Other);
    assert_eq!(
        Error::NotFinished.message(),
        "A non-recoverable error occurred or a file was not `finish`ed"
    );
    let unsupported = Error::UnsupportedMethod(CompressionMethod(14));
    assert_eq!(unsupported.message(), "Unsupported compression method: lzma");
    assert_eq!(unsupported.kind(), ErrorKind::Unsupported);
    assert_eq!(Error::BadCrc32.message(), "invalid CRC32 check: data was corrupted");
    assert_eq!(Error::DuplicatedFileName.message(), "duplicated file name");
    assert_eq!(Error::DuplicatedFileName.kind(), ErrorKind::InvalidInput);
}

#[test]
fn checksums() {
    assert_eq!(hash(b""), 0);
    assert_eq!(hash(b"123456789"), 0xcbf4_3926);
    // The checksum bit by bit, on contents of every length up to some blocks.
    let data: Vec<u8> = (0..300u32).map(|i| (i * i / 3) as u8).collect();
    for n in 0..data.len() {
        let mut rem = !0u32;
        for byte in &data[..n] {
            rem ^= *byte as u32;
            for _ in 0..8 {
                rem = if rem & 1 == 1 { (rem >> 1) ^ 0xedb8_8320 } else { rem >> 1 };
            }
        }
        assert_eq!(hash(&data[..n]), !rem);
    }
    let mut writer = Crc32Writer::new();
    assert_eq!(writer.result(), 0);
    writer.write(b"1234");
    writer.write(b"");
    writer.write(b"56789");
    assert_eq!(writer.result(), 0xcbf4_3926);
    let mut checker = Crc32Checker::new(0xcbf4_3926);
    assert_eq!(checker.read(b"12345"), Ok(()));
    assert_eq!(checker.read(b""), Err(Error::BadCrc32));
    assert_eq!(checker.read(b"6789"), Ok(()));
    assert_eq!(checker.read(b""), Ok(()));
}

#[test]
fn lengths() {
    let mut checker = LengthChecker::new(3);
    assert_eq!(checker.read(0), Err(Error::BadLength));
    assert_eq!(checker.read(4), Err(Error::BadLength));
    assert_eq!(checker.read(2), Ok(()));
    assert_eq!(checker.read(1), Ok(()));
    assert_eq!(checker.read(0), Ok(()));
    assert_eq!(checker.read(1), Err(Error::BadLength));
}

#[test]
fn positions() {
    let mut counter = Counter::new(7);
    assert_eq!(counter.advance(3), Ok(()));
    assert_eq!(counter.amt, 10);
    assert_eq!(counter.advance(i64::MAX as u64 + 1), Err(Error::SeekOutOfRange));
    assert_eq!(counter.advance(i64::MAX as u64), Ok(()));
    assert_eq!(counter.advance(i64::MAX as u64), Err(Error::SeekOutOfRange));
    assert_eq!(counter.amt, 10 + i64::MAX as u64);
}

#[test]
fn legacy_characters() {
    assert_eq!(cp437::convert(b"plain"), "plain");
    assert_eq!(cp437::convert(&[0x80, 0xa5, 0xb0, 0xe3, 0xfe, 0xff]), "ÇÑ░π■\u{a0}");
    let all: Vec<u8> = (0..=255).collect();
    assert_eq!(cp437::convert(&all).chars().count(), 256);
}

#[test]
fn texts_of_headers() {
    assert_eq!(convert_string("é".as_bytes(), true), Some(("é".to_string(), None)));
    assert_eq!(convert_string("é".as_bytes(), false), Some(("é".to_string(), None)));
    assert_eq!(convert_string(&[0x82], false), Some(("é".to_string(), Some(hash(&[0x82])))));
    assert_eq!(convert_string(&[0x82], true), None);
}

#[test]
fn tables_of_names() {
    let mut table = NameTable::new();
    for i in 0..1000u32 {
        assert!(table.insert(i.to_string().into_bytes()));
    }
    assert_eq!(table.len(), 1000);
    for i in 0..1000u32 {
        assert!(!table.insert(i.to_string().into_bytes()));
        assert_eq!(table.index_of(i.to_string().as_bytes()), Some(i as usize));
    }
    assert_eq!(table.index_of(b"1000"), None);
    assert_eq!(table.index_of(b""), None);

    // Names that come in order, in reverse order, and that start alike.
    let mut table = NameTable::new();
    let name = |i: usize| [vec![b'x'; i % 7], format!("{i:05}").into_bytes()].concat();
    for i in (0..3000).map(|i| if i % 2 == 0 { i } else { 3000 - i }) {
        assert!(table.insert(name(i)));
    }
    for i in 0..3000 {
        let found = table.index_of(&name(i)).unwrap();
        assert_eq!(if found % 2 == 0 { found } else { 3000 - found }, i);
        assert!(!table.insert(name(i)));
    }
    assert!(table.insert(Vec::new()));
    assert_eq!(table.index_of(b""), Some(3000));
    assert_eq!(table.index_of(b"x"), None);
    assert_eq!(table.len(), 3001);
}

#[test]
fn extra_fields_in_order() {
    let mut bytes = vec![0x34, 0x12, 2, 0, 7, 8];
    bytes.extend([1, 0, 8, 0, 5, 0, 0, 0, 0, 0, 0, 0]);
    bytes.extend([0x55, 0x54, 1, 0, 1]);
    bytes.extend([0x34, 0x12, 3, 0, 1]);
    let mut fields = ExtraFields(&bytes).iter();
    assert!(matches!(fields.next(), Some(ExtraField::Unknown(0x1234, [7, 8]))));
    match fields.next() {
        Some(ExtraField::Zip64ExtendedInformation(mut info)) => {
            assert_eq!(info.next(), Some(5));
            assert_eq!(info.next(), None);
            assert_eq!(info.end(), Some(()));
        }
        _ => panic!(),
    }
    assert!(matches!(fields.next(), Some(ExtraField::Invalid(0x5455, [1]))));
    // The last field is cut.
    assert!(fields.next().is_none());
    assert!(fields.next().is_none());
}

#[test]
fn extended_timestamps() {
    let parse = |data: &[u8]| ExtendedTimestamp::parse(DataParser(data));
    let times = |m: Option<u64>, a: Option<u64>, c: Option<u64>| {
        Some(ExtendedTimestamp {
            modification_time: m.map(Timestamp),
            access_time: a.map(Timestamp),
            creation_time: c.map(Timestamp),
        })
    };
    assert_eq!(parse(&[]), None);
    assert_eq!(parse(&[0]), times(None, None, None));
    assert_eq!(parse(&[1, 9, 0, 0, 0]), times(Some(9), None, None));
    assert_eq!(parse(&[2, 9, 0, 0, 0]), times(None, Some(9), None));
    assert_eq!(parse(&[4, 9, 0, 0, 0]), times(None, None, Some(9)));
    assert_eq!(parse(&[3, 9, 0, 0, 0]), times(Some(9), None, None));
    assert_eq!(parse(&[0, 9, 0, 0, 0]), times(Some(9), None, None));
    assert_eq!(parse(&[8, 9, 0, 0, 0]), None);
    assert_eq!(parse(&[6, 9, 0, 0, 0, 8, 0, 0, 0]), times(None, Some(9), Some(8)));
    assert_eq!(
        parse(&[7, 9, 0, 0, 0, 8, 0, 0, 0, 7, 0, 0, 0x80]),
        times(Some(9), Some(8), Some(0x8000_0007))
    );
    assert_eq!(parse(&[7, 9, 0, 0, 0, 8, 0, 0, 0]), None);
    assert_eq!(parse(&[1, 9, 0, 0, 0, 8]), None);
}

#[test]
fn ntfs_fields() {
    let parse = |data: &[u8]| Ntfs::parse(DataParser(data));
    assert!(parse(&[0; 3]).is_none());
    assert!(parse(&[0; 4]).unwrap().times.is_none());
    assert!(parse(&[0, 0, 0, 0, 2, 0, 1, 0, 5]).unwrap().times.is_none());
    assert!(parse(&[0, 0, 0, 0, 2, 0, 2, 0, 5]).is_none());
    assert!(parse(&[0, 0, 0, 0, 1, 0, 0, 0]).is_none());
    let mut data = vec![0, 0, 0, 0, 1, 0, 25, 0];
    for time in [116_444_736_050_000_000u64, 0, 116_444_736_070_000_000] {
        data.extend(time.to_le_bytes());
    }
    data.push(0);
    let times = parse(&data).unwrap().times.unwrap();
    assert_eq!((times.mtime.0, times.atime.0, times.ctime.0), (5, 0, 7));
}

#[test]
fn unicode_fields() {
    let data = [1, 4, 3, 2, 1, 0xc3, 0xa9];
    let name = UnicodeName::parse(DataParser(&data)).unwrap();
    assert_eq!((name.version, name.header_name_crc32, name.name), (1, 0x01020304, "é"));
    let comment = UnicodeComment::parse(DataParser(&data)).unwrap();
    assert_eq!((comment.header_comment_crc32, comment.comment), (0x01020304, "é"));
    assert!(UnicodeName::parse(DataParser(&[2, 4, 3, 2, 1])).is_none());
    assert!(UnicodeName::parse(DataParser(&[1, 4, 3, 2])).is_none());
    assert!(UnicodeComment::parse(DataParser(&[1, 4, 3, 2, 1, 0xc3])).is_none());
    assert_eq!(UnicodeName::parse(DataParser(&[1, 4, 3, 2, 1])).unwrap().name, "");
}

#[test]
fn owners() {
    let parse = |data: &'static [u8]| UnixNew::parse(DataParser(data));
    let owner = parse(&[1, 2, 5, 6, 1, 7]).unwrap();
    assert_eq!((owner.version, owner.uid, owner.gid), (1, &[5u8, 6][..], &[7u8][..]));
    assert!(parse(&[1, 0, 0]).is_some());
    assert!(parse(&[1, 2, 5, 6, 1]).is_none());
    assert!(parse(&[1, 2, 5, 6, 1, 7, 8]).is_none());
    assert!(parse(&[1, 2, 5]).is_none());
    assert!(parse(&[1]).is_none());
}

#[test]
fn aes_fields() {
    let parse = |data: &[u8]| Aes::parse(DataParser(data));
    let aes = parse(&[1, 0, b'A', b'E', 2, 93, 0]).unwrap();
    assert_eq!((aes.version, aes.mode), (AesVersion::Ae1, AesMode::Aes192));
    assert_eq!(aes.compression, CompressionMethod(93));
    assert_eq!((aes.key_size(), aes.check_crc32()), (192, true));
    let aes = parse(&[2, 0, b'A', b'E', 1, 0, 0]).unwrap();
    assert_eq!((aes.key_size(), aes.check_crc32()), (128, false));
    assert!(parse(&[3, 0, b'A', b'E', 1, 0, 0]).is_none());
    assert!(parse(&[1, 0, b'E', b'A', 1, 0, 0]).is_none());
    assert!(parse(&[1, 0, b'A', b'E', 4, 0, 0]).is_none());
    assert!(parse(&[1, 0, b'A', b'E', 0, 0, 0]).is_none());
    assert!(parse(&[1, 0, b'A', b'E', 1, 0]).is_none());
    assert!(parse(&[1, 0, b'A', b'E', 1, 0, 0, 0]).is_none());
}

#[test]
fn the_last_end_of_a_buffer() {
    let mut buffer = vec![0x50, 0x4b, 5, 6];
    buffer.extend([1; 18]);
    buffer.extend([0x50, 0x4b, 5, 6]);
    buffer.extend([2; 18]);
    buffer.extend(b"tail");
    let found = find_eocd_in_buffer(1000, &buffer).unwrap().unwrap();
    assert_eq!(found.offset, 1022);
    assert_eq!(found.record.comment_length.get(), 0x0202);
    assert_eq!(found.comment, b"tail");
    assert!(find_eocd_in_buffer(0, &buffer[1..22]).unwrap().is_none());
    assert_eq!(find_eocd_in_buffer(0, &buffer[..30]).err(), Some(Error::UnexpectedEof));
}

#[test]
fn sizes_of_directories() {
    let good = CentralDirectory { offset: 100, size: 94, eocd_offset: 194, entries: 2 };
    assert_eq!(good.validate_size(), Some(()));
    assert_eq!(CentralDirectory { entries: 3, ..good }.validate_size(), None);
    assert_eq!(CentralDirectory { size: 95, ..good }.validate_size(), None);
    assert_eq!(CentralDirectory { offset: 200, ..good }.validate_size(), None);
    assert_eq!(CentralDirectory { entries: u64::MAX, ..good }.validate_size(), None);
}

#[test]
fn equality_of_options() {
    assert!(opt_eq(&Some(Timestamp(1)), &Some(Timestamp(1))));
    assert!(!opt_eq(&Some(Timestamp(1)), &Some(Timestamp(2))));
    assert!(opt_eq(&None, &Some(Timestamp(2))));
    assert!(opt_eq(&Some(Timestamp(1)), &None));
    assert!(opt_eq(&None, &None));
}
