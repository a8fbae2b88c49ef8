//! What numbers, checksums, characters and messages stand for.
use crate::compression;
use crate::compression::CompressionMethod;
use crate::error::{Error, ErrorKind};
use crate::read::metadata;
use crate::read::metadata::MetadataView;
use crate::utils::cp437;
use crate::utils::crc32;
use vstd::prelude::*;

verus! {

/// Contents can be compressed with methods 0, 8 and 93: as they are, by the deflate encoder and by
/// the zstd encoder. Any other method is refused.
pub proof fn lemma_compressed(method: u16, content: Seq<u8>)
    ensures
        CompressionMethod(method).supported() <==> method == 0 || method == 8 || method == 93,
        compression::compressed(CompressionMethod(method), content) == (if method == 0 {
            Ok::<Seq<u8>, Error>(content)
        } else if method == 8 {
            Ok(compression::deflated(content))
        } else if method == 93 {
            Ok(compression::zstd_encoded(content))
        } else {
            Err(Error::UnsupportedMethod(CompressionMethod(method)))
        }),
{
}

/// Data is decompressed as far as is asked: method 0 gives its first bytes, and methods 8 and 93 what
/// their decoders give. An error of a decoder keeps its category, and any other method is refused.
pub proof fn lemma_decompressed(method: u16, data: Seq<u8>, limit: u64)
    ensures
        ({
            let r = compression::decompressed(CompressionMethod(method), data, limit);
            let decoded = if method == 8 {
                compression::inflated(data, limit)
            } else {
                compression::zstd_decoded(data, limit)
            };
            if method == 0 {
                &&& r matches Ok(content)
                &&& content.len() == (if data.len() < limit {
                    data.len() as int
                } else {
                    limit as int
                })
                &&& forall|i: int| 0 <= i < content.len() ==> content[i] == data[i]
            } else if method != 8 && method != 93 {
                r == Err::<Seq<u8>, Error>(Error::UnsupportedMethod(CompressionMethod(method)))
            } else {
                match decoded {
                    Ok(content) => r == Ok::<Seq<u8>, Error>(content),
                    Err(kind) => r matches Err(e) && e == Error::CorruptedContent(kind)
                        && e.spec_kind() == kind,
                }
            }
        }),
{
}

/// What is compressed comes back with the same method, where it is stored as it is.
pub proof fn lemma_stored_stands(content: Seq<u8>)
    ensures
        compression::stands_for(CompressionMethod(0), content, content),
{
}

/// The number that decimal digits stand for.
pub open spec fn number(s: Seq<char>) -> int
    decreases s.len(),
{
    if s.len() == 0 {
        0
    } else {
        10 * number(s.drop_last()) + (s.last() as int - 48)
    }
}

/// A number is written in decimal digits that stand for it, without leading zeros.
pub proof fn lemma_decimal(n: nat)
    ensures
        number(compression::decimal(n)) == n,
        compression::decimal(n).len() > 0,
        compression::decimal(n)[0] as int == 48 ==> n == 0,
        forall|i: int|
            0 <= i < compression::decimal(n).len() ==> 48 <= #[trigger] compression::decimal(n)[i]
                as int <= 57,
    decreases n,
{
    reveal_with_fuel(number, 2);
    let s = compression::decimal(n);
    if n < 10 {
        assert(s.drop_last() =~= Seq::<char>::empty());
    } else {
        lemma_decimal(n / 10);
        assert(s.drop_last() =~= compression::decimal(n / 10));
        assert forall|i: int| 0 <= i < s.len() implies 48 <= #[trigger] s[i] as int <= 57 by {
            if i < s.len() - 1 {
                assert(s[i] == compression::decimal(n / 10)[i]);
            }
        }
        assert(s[0] == compression::decimal(n / 10)[0]);
    }
}

/// The names of the methods, by their numbers. A method without a name is told by its number.
pub proof fn lemma_method_names(method: u16)
    ensures
        ({
            let text = CompressionMethod(method).text();
            &&& method == 0 ==> text == "store"@
            &&& method == 8 ==> text == "deflate"@
            &&& method == 9 ==> text == "deflate64"@
            &&& method == 12 ==> text == "bzip2"@
            &&& method == 14 ==> text == "lzma"@
            &&& method == 20 ==> text == "zstd (deprecated)"@
            &&& method == 93 ==> text == "zstd"@
            &&& method == 95 ==> text == "xz"@
            &&& method == 99 ==> text == "aes"@
            &&& method != 0 && method != 8 && method != 9 && method != 12 && method != 14 && method
                != 20 && method != 93 && method != 95 && method != 99 ==> text == "unknown ("@
                + compression::decimal(method as nat) + ")"@
            &&& Error::UnsupportedMethod(CompressionMethod(method)).text()
                == "Unsupported compression method: "@ + text
        }),
{
}

/// The category of an error: what is wrong with an archive, with an argument of a call, with neither
/// of them, or just not supported. An error of a decoder keeps its own.
pub proof fn lemma_categories(e: Error)
    ensures
        e matches Error::CorruptedContent(kind) ==> e.spec_kind() == kind,
        !(e is CorruptedContent) ==> {
            &&& e.spec_kind() == ErrorKind::Unsupported <==> e is MultiDisk || e is EncryptedFile
                || e is CompressedFile || e is UnsupportedMethod
            &&& e.spec_kind() == ErrorKind::InvalidInput <==> e is SeekOutOfRange
                || e is FileNameTooLong || e is DuplicatedFileName || e is InvalidFileName
                || e is CommentTooLong
            &&& e.spec_kind() == ErrorKind::UnexpectedEof <==> e is UnexpectedEof
            &&& e.spec_kind() == ErrorKind::OutOfMemory <==> e is OutOfMemory
            &&& e.spec_kind() == ErrorKind::Other <==> e is CompressionFailed || e is NotFinished
        },
{
}

/// The messages of the errors, and that of a decoder, whatever its category.
pub proof fn lemma_messages(kind: ErrorKind)
    ensures
        Error::NotAZip.text() == "not a zip archive"@,
        Error::InvalidZip.text() == "invalid zip archive"@,
        Error::InvalidEntry.text() == "invalid entry"@,
        Error::MultiDisk.text() == "multi-disk archives are not supported"@,
        Error::DuplicatedName.text() == "duplicated name in archive"@,
        Error::UnexpectedEof.text() == "failed to fill whole buffer"@,
        Error::SeekOutOfRange.text() == "seek out of range"@,
        Error::EncryptedFile.text() == "encrypted file"@,
        Error::CompressedFile.text() == "compressed file"@,
        Error::BadLength.text() == "unexpected file length"@,
        Error::BadCrc32.text() == "invalid CRC32 check: data was corrupted"@,
        Error::OutOfMemory.text() == "out of memory"@,
        Error::CompressionFailed.text() == "compression failed"@,
        Error::FileNameTooLong.text() == "file name too long"@,
        Error::DuplicatedFileName.text() == "duplicated file name"@,
        Error::InvalidFileName.text() == "invalid file name"@,
        Error::CommentTooLong.text() == "comment too long"@,
        Error::NotFinished.text()
            == "A non-recoverable error occurred or a file was not `finish`ed"@,
        Error::InvalidSymlink.text() == "invalid symlink target"@,
        Error::InvalidUtf8.text() == "stream did not contain valid UTF-8"@,
        Error::UnknownSignature.text() == "unknown signature"@,
        Error::LengthUnavailable.text() == "file length unavailable in local header"@,
        Error::CorruptedContent(kind).text() == "corrupted compressed content"@,
{
}

/// The code points of the bytes from 0x80 on, in the code page 437.
pub open spec fn code_points() -> Seq<u32> {
    seq![
        0x00c7u32, 0x00fcu32, 0x00e9u32, 0x00e2u32, 0x00e4u32, 0x00e0u32, 0x00e5u32, 0x00e7u32,
        0x00eau32, 0x00ebu32, 0x00e8u32, 0x00efu32, 0x00eeu32, 0x00ecu32, 0x00c4u32, 0x00c5u32,
        0x00c9u32, 0x00e6u32, 0x00c6u32, 0x00f4u32, 0x00f6u32, 0x00f2u32, 0x00fbu32, 0x00f9u32,
        0x00ffu32, 0x00d6u32, 0x00dcu32, 0x00a2u32, 0x00a3u32, 0x00a5u32, 0x20a7u32, 0x0192u32,
        0x00e1u32, 0x00edu32, 0x00f3u32, 0x00fau32, 0x00f1u32, 0x00d1u32, 0x00aau32, 0x00bau32,
        0x00bfu32, 0x2310u32, 0x00acu32, 0x00bdu32, 0x00bcu32, 0x00a1u32, 0x00abu32, 0x00bbu32,
        0x2591u32, 0x2592u32, 0x2593u32, 0x2502u32, 0x2524u32, 0x2561u32, 0x2562u32, 0x2556u32,
        0x2555u32, 0x2563u32, 0x2551u32, 0x2557u32, 0x255du32, 0x255cu32, 0x255bu32, 0x2510u32,
        0x2514u32, 0x2534u32, 0x252cu32, 0x251cu32, 0x2500u32, 0x253cu32, 0x255eu32, 0x255fu32,
        0x255au32, 0x2554u32, 0x2569u32, 0x2566u32, 0x2560u32, 0x2550u32, 0x256cu32, 0x2567u32,
        0x2568u32, 0x2564u32, 0x2565u32, 0x2559u32, 0x2558u32, 0x2552u32, 0x2553u32, 0x256bu32,
        0x256au32, 0x2518u32, 0x250cu32, 0x2588u32, 0x2584u32, 0x258cu32, 0x2590u32, 0x2580u32,
        0x03b1u32, 0x00dfu32, 0x0393u32, 0x03c0u32, 0x03a3u32, 0x03c3u32, 0x00b5u32, 0x03c4u32,
        0x03a6u32, 0x0398u32, 0x03a9u32, 0x03b4u32, 0x221eu32, 0x03c6u32, 0x03b5u32, 0x2229u32,
        0x2261u32, 0x00b1u32, 0x2265u32, 0x2264u32, 0x2320u32, 0x2321u32, 0x00f7u32, 0x2248u32,
        0x00b0u32, 0x2219u32, 0x00b7u32, 0x221au32, 0x207fu32, 0x00b2u32, 0x25a0u32, 0x00a0u32,
    ]
}

/// A byte of a text that is not Unicode is an ASCII character, or the character that the code page
/// 437 has at its place.
pub proof fn lemma_characters(b: u8)
    ensures
        b < 0x80 ==> cp437::decoded(b) as u32 == b,
        b >= 0x80 ==> cp437::decoded(b) as u32 == code_points()[b - 0x80],
{
    reveal_strlit(
        "ÇüéâäàåçêëèïîìÄÅÉæÆôöòûùÿÖÜ¢£¥₧ƒáíóúñÑªº¿⌐¬½¼¡«»░▒▓│┤╡╢╖╕╣║╗╝╜╛┐└┴┬├─┼╞╟╚╔╩╦╠═╬╧╨╤╥╙╘╒╓╫╪┘┌█▄▌▐▀αßΓπΣσµτΦΘΩδ∞φε∩≡±≥≤⌠⌡÷≈°∙·√ⁿ²■\u{a0}",
    );
}

/// The bits of a word in the other order.
pub open spec fn reflected(x: u32) -> u32 {
    let a = ((x >> 1) & 0x5555_5555) | ((x & 0x5555_5555) << 1);
    let b = ((a >> 2) & 0x3333_3333) | ((a & 0x3333_3333) << 2);
    let c = ((b >> 4) & 0x0f0f_0f0f) | ((b & 0x0f0f_0f0f) << 4);
    let d = ((c >> 8) & 0x00ff_00ff) | ((c & 0x00ff_00ff) << 8);
    (d >> 16) | (d << 16)
}

/// A checksum moves on by one bit as a polynomial is multiplied by x modulo the polynomial 0x04c11db7,
/// with the highest coefficient in the lowest bit.
pub proof fn lemma_polynomial(rem: u32)
    ensures
        reflected(crc32::bit_step(rem)) == (if reflected(rem) & 0x8000_0000 != 0 {
            (reflected(rem) << 1) ^ 0x04c1_1db7
        } else {
            reflected(rem) << 1
        }),
{
    assert(reflected(crc32::bit_step(rem)) == (if reflected(rem) & 0x8000_0000 != 0 {
        (reflected(rem) << 1) ^ 0x04c1_1db7
    } else {
        reflected(rem) << 1
    })) by (bit_vector);
}

/// A checksum starts as 0, and one more byte moves its complement on by eight bits, from where the
/// byte is added.
pub proof fn lemma_checksum(data: Seq<u8>, b: u8)
    ensures
        crc32::crc32_of(Seq::empty()) == 0,
        ({
            let x = !crc32::crc32_of(data) ^ (b as u32);
            !crc32::crc32_of(data.push(b)) == crc32::bit_step(
                crc32::bit_step(
                    crc32::bit_step(
                        crc32::bit_step(
                            crc32::bit_step(
                                crc32::bit_step(crc32::bit_step(crc32::bit_step(x))),
                            ),
                        ),
                    ),
                ),
            )
        }),
{
    crc32::lemma_empty(0);
    reveal(crc32::crc32_from);
    reveal_with_fuel(crc32::bit_steps, 9);
    assert(data.push(b).drop_last() =~= data);
    let p = crc32::remainder(!0u32, data);
    let q = crc32::remainder(!0u32, data.push(b));
    assert(!!p == p && !!q == q) by (bit_vector);
}

/// What is said of a content in chunks, up to the first error, when a last, empty, chunk ends it.
pub open spec fn said(
    seen: Seq<u8>,
    size: int,
    checksum: u32,
    chunks: Seq<Seq<u8>>,
) -> Result<(), Error>
    decreases chunks.len(),
{
    if chunks.len() == 0 {
        metadata::chunk_checked(seen, size, checksum, Seq::empty())
    } else {
        match metadata::chunk_checked(seen, size, checksum, chunks[0]) {
            Ok(()) => said(seen + chunks[0], size, checksum, chunks.drop_first()),
            Err(e) => Err(e),
        }
    }
}

/// Checking the rest of a content chunk by chunk is checking the whole content.
proof fn lemma_said(m: MetadataView, seen: Seq<u8>, chunks: Seq<Seq<u8>>)
    requires
        seen.len() <= m.uncompressed_size,
        forall|i: int| 0 <= i < chunks.len() ==> (#[trigger] chunks[i]).len() > 0,
    ensures
        said(seen, m.uncompressed_size as int, m.crc32, chunks) == metadata::checked(
            m,
            seen + chunks.flatten(),
        ),
    decreases chunks.len(),
{
    if chunks.len() == 0 {
        assert(seen + chunks.flatten() =~= seen);
    } else {
        let rest = chunks.drop_first();
        assert(seen + chunks.flatten() =~= (seen + chunks[0]) + rest.flatten());
        assert(chunks[0].len() > 0);
        if seen.len() + chunks[0].len() <= m.uncompressed_size {
            assert forall|i: int| 0 <= i < rest.len() implies (#[trigger] rest[i]).len() > 0 by {
                assert(rest[i] == chunks[i + 1]);
            }
            lemma_said(m, seen + chunks[0], rest);
        }
    }
}

/// Checking a content chunk by chunk says the same as checking it as a whole, however it is cut.
pub proof fn lemma_chunks(m: MetadataView, chunks: Seq<Seq<u8>>)
    requires
        forall|i: int| 0 <= i < chunks.len() ==> (#[trigger] chunks[i]).len() > 0,
    ensures
        said(Seq::empty(), m.uncompressed_size as int, m.crc32, chunks) == metadata::checked(
            m,
            chunks.flatten(),
        ),
{
    lemma_said(m, Seq::empty(), chunks);
    assert(Seq::<u8>::empty() + chunks.flatten() =~= chunks.flatten());
}

/// A content is the one of an entry exactly where it has the length and the checksum that are told.
/// A wrong length is noticed first.
pub proof fn lemma_checked(m: MetadataView, content: Seq<u8>)
    ensures
        ({
            let r = metadata::checked(m, content);
            &&& r is Ok <==> content.len() == m.uncompressed_size && crc32::crc32_of(content)
                == m.crc32
            &&& r == Err::<(), Error>(Error::BadLength) <==> content.len() != m.uncompressed_size
            &&& r is Err ==> r == Err::<(), Error>(Error::BadLength) || r == Err::<(), Error>(
                Error::BadCrc32,
            )
        }),
{
}

} // verus!
