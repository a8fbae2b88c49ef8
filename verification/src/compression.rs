//! Compression methods, and the compression and decompression of whole contents.
use crate::error::{Error, ErrorKind};
use vstd::prelude::*;

verus! {

/// What the decoder gives for a deflate stream when it is read to its end or to `limit` bytes: the
/// first bytes of the content, or the category of its error. The decoder works ahead of what is
/// read, so that the error can lie behind the limit.
pub uninterp spec fn inflated(data: Seq<u8>, limit: u64) -> Result<Seq<u8>, ErrorKind>;

/// The deflate stream that the encoder makes of a content, at the default level.
pub uninterp spec fn deflated(content: Seq<u8>) -> Seq<u8>;

/// What the decoder gives for a zstd stream when it is read to its end or to `limit` bytes: the
/// first bytes of the content, or the category of its error. The decoder works ahead of what is
/// read, so that the error can lie behind the limit.
pub uninterp spec fn zstd_decoded(data: Seq<u8>, limit: u64) -> Result<Seq<u8>, ErrorKind>;

/// The zstd stream that the encoder makes of a content, at the default level.
pub uninterp spec fn zstd_encoded(content: Seq<u8>) -> Seq<u8>;

/// The bytes that a decoder gives, or the category of its error.
pub open spec fn outcome_of(v: Result<Vec<u8>, ErrorKind>) -> Result<Seq<u8>, ErrorKind> {
    match v {
        Ok(v) => Ok(v@),
        Err(kind) => Err(kind),
    }
}

/// `flate2::bufread::DeflateDecoder` over the data, read to its end or to the limit. The result is
/// a function of the data and the limit, and never longer than the limit. Where the decoder fails,
/// the result is the category of its error. Which bytes come out, on which data the decoder fails
/// and with which category, is left unsaid.
#[verifier::external_body]
fn inflate(data: &[u8], limit: u64) -> (r: Result<Vec<u8>, ErrorKind>)
    ensures
        outcome_of(r) == inflated(data@, limit),
        r is Ok ==> r->Ok_0@.len() <= limit,
{
    let mut out = Vec::new();
    let decoder = flate2::bufread::DeflateDecoder::new(data);
    let read = std::io::Read::read_to_end(&mut std::io::Read::take(decoder, limit), &mut out);
    match read.as_ref().map_err(std::io::Error::kind) {
        Ok(_) => Ok(out),
        Err(std::io::ErrorKind::UnexpectedEof) => Err(ErrorKind::UnexpectedEof),
        Err(std::io::ErrorKind::InvalidInput) => Err(ErrorKind::InvalidInput),
        Err(std::io::ErrorKind::InvalidData) => Err(ErrorKind::InvalidData),
        Err(std::io::ErrorKind::OutOfMemory) => Err(ErrorKind::OutOfMemory),
        Err(_) => Err(ErrorKind::Other),
    }
}

/// `flate2::write::DeflateEncoder` at the default level, fed with the content and finished. It
/// succeeds: it is not misused, and bytes in memory take all that is written to them. The result is
/// a function of the content, and a decoder with room for more than the content gives the content
/// back. Which bytes come out is left unsaid.
#[verifier::external_body]
fn deflate(content: &[u8]) -> (r: Option<Vec<u8>>)
    ensures
        r is Some,
        r->0@ == deflated(content@),
        r is Some ==> forall|limit: u64|
            limit > content@.len() ==> ((#[trigger] inflated(r->0@, limit)) matches Ok(c) && c
                == content@),
{
    let level = flate2::Compression::default();
    let mut encoder = flate2::write::DeflateEncoder::new(Vec::new(), level);
    std::io::Write::write_all(&mut encoder, content).ok()?;
    encoder.finish().ok()
}

/// `zstd::Decoder` over the data, read to its end or to the limit. The result is a function of the
/// data and the limit, and never longer than the limit. Where the decoder fails, the result is the
/// category of its error. Which bytes come out, on which data the decoder fails and with which
/// category, is left unsaid.
#[verifier::external_body]
fn zstd_decode(data: &[u8], limit: u64) -> (r: Result<Vec<u8>, ErrorKind>)
    ensures
        outcome_of(r) == zstd_decoded(data@, limit),
        r is Ok ==> r->Ok_0@.len() <= limit,
{
    let mut out = Vec::new();
    let read = match zstd::Decoder::with_buffer(data) {
        Ok(d) => std::io::Read::read_to_end(&mut std::io::Read::take(d, limit), &mut out),
        Err(e) => Err(e),
    };
    match read.as_ref().map_err(std::io::Error::kind) {
        Ok(_) => Ok(out),
        Err(std::io::ErrorKind::UnexpectedEof) => Err(ErrorKind::UnexpectedEof),
        Err(std::io::ErrorKind::InvalidInput) => Err(ErrorKind::InvalidInput),
        Err(std::io::ErrorKind::InvalidData) => Err(ErrorKind::InvalidData),
        Err(std::io::ErrorKind::OutOfMemory) => Err(ErrorKind::OutOfMemory),
        Err(_) => Err(ErrorKind::Other),
    }
}

/// `zstd::Encoder` at the default level, fed with the content and finished. It succeeds: the level
/// is allowed, and bytes in memory take all that is written to them. That it can fail for want of
/// memory, as any allocation can, is left out of account. The result is a function of the content,
/// and a decoder with room for more than the content gives the content back. Which bytes come out is
/// left unsaid.
#[verifier::external_body]
fn zstd_encode(content: &[u8]) -> (r: Option<Vec<u8>>)
    ensures
        r is Some,
        r->0@ == zstd_encoded(content@),
        r is Some ==> forall|limit: u64|
            limit > content@.len() ==> ((#[trigger] zstd_decoded(r->0@, limit)) matches Ok(c) && c
                == content@),
{
    let mut encoder = zstd::Encoder::new(Vec::new(), 0).ok()?;
    std::io::Write::write_all(&mut encoder, content).ok()?;
    encoder.finish().ok()
}

/// A compression method, as it is numbered in a ZIP file.
#[derive(Debug, Clone, Copy, PartialEq, Eq, Structural)]
pub struct CompressionMethod(pub u16);

impl CompressionMethod {
    pub const STORE: u16 = 0;

    pub const DEFLATE: u16 = 8;

    pub const DEFLATE64: u16 = 9;

    pub const BZIP2: u16 = 12;

    pub const LZMA: u16 = 14;

    pub const ZSTD_DEPRECATED: u16 = 20;

    pub const ZSTD: u16 = 93;

    pub const XZ: u16 = 95;

    pub const AES: u16 = 99;

    /// Whether contents can be compressed and decompressed with this method.
    pub open spec fn supported(self) -> bool {
        self.0 == CompressionMethod::STORE || self.0 == CompressionMethod::DEFLATE || self.0
            == CompressionMethod::ZSTD
    }

    /// The name of the method, or its number where it has no name here.
    pub open spec fn text(self) -> Seq<char> {
        if self.0 == CompressionMethod::STORE {
            "store"@
        } else if self.0 == CompressionMethod::DEFLATE {
            "deflate"@
        } else if self.0 == CompressionMethod::DEFLATE64 {
            "deflate64"@
        } else if self.0 == CompressionMethod::BZIP2 {
            "bzip2"@
        } else if self.0 == CompressionMethod::LZMA {
            "lzma"@
        } else if self.0 == CompressionMethod::ZSTD_DEPRECATED {
            "zstd (deprecated)"@
        } else if self.0 == CompressionMethod::ZSTD {
            "zstd"@
        } else if self.0 == CompressionMethod::XZ {
            "xz"@
        } else if self.0 == CompressionMethod::AES {
            "aes"@
        } else {
            "unknown ("@ + decimal(self.0 as nat) + ")"@
        }
    }

    /// Returns whether contents can be compressed and decompressed with this method.
    pub fn is_supported(self) -> (r: bool)
        ensures
            r == self.supported(),
    {
        self.0 == CompressionMethod::STORE || self.0 == CompressionMethod::DEFLATE || self.0
            == CompressionMethod::ZSTD
    }

    /// Returns the name of the method, or its number where it has no name here.
    pub fn describe(self) -> (r: String)
        ensures
            r@ == self.text(),
    {
        if self.0 == CompressionMethod::STORE {
            String::from_str("store")
        } else if self.0 == CompressionMethod::DEFLATE {
            String::from_str("deflate")
        } else if self.0 == CompressionMethod::DEFLATE64 {
            String::from_str("deflate64")
        } else if self.0 == CompressionMethod::BZIP2 {
            String::from_str("bzip2")
        } else if self.0 == CompressionMethod::LZMA {
            String::from_str("lzma")
        } else if self.0 == CompressionMethod::ZSTD_DEPRECATED {
            String::from_str("zstd (deprecated)")
        } else if self.0 == CompressionMethod::ZSTD {
            String::from_str("zstd")
        } else if self.0 == CompressionMethod::XZ {
            String::from_str("xz")
        } else if self.0 == CompressionMethod::AES {
            String::from_str("aes")
        } else {
            let mut r = String::from_str("unknown (");
            push_decimal(&mut r, self.0);
            r.append(")");
            r
        }
    }
}

impl Default for CompressionMethod {
    /// Contents are stored as they are.
    fn default() -> (r: CompressionMethod)
        ensures
            r.0 == CompressionMethod::STORE,
    {
        CompressionMethod(CompressionMethod::STORE)
    }
}

/// The first `limit` bytes, or all of them.
pub open spec fn cut(data: Seq<u8>, limit: u64) -> Seq<u8> {
    if data.len() <= limit {
        data
    } else {
        data.take(limit as int)
    }
}

/// What data that is compressed with the method stands for, cut after `limit` bytes.
pub open spec fn decompressed(
    method: CompressionMethod,
    data: Seq<u8>,
    limit: u64,
) -> Result<Seq<u8>, Error> {
    if method.0 == CompressionMethod::STORE {
        Ok(cut(data, limit))
    } else if method.0 == CompressionMethod::DEFLATE {
        match inflated(data, limit) {
            Ok(content) => Ok(content),
            Err(kind) => Err(Error::CorruptedContent(kind)),
        }
    } else if method.0 == CompressionMethod::ZSTD {
        match zstd_decoded(data, limit) {
            Ok(content) => Ok(content),
            Err(kind) => Err(Error::CorruptedContent(kind)),
        }
    } else {
        Err(Error::UnsupportedMethod(method))
    }
}

/// The data that stands for a content when it is compressed with the method.
pub open spec fn compressed(method: CompressionMethod, content: Seq<u8>) -> Result<
    Seq<u8>,
    Error,
> {
    if method.0 == CompressionMethod::STORE {
        Ok(content)
    } else if method.0 == CompressionMethod::DEFLATE {
        Ok(deflated(content))
    } else if method.0 == CompressionMethod::ZSTD {
        Ok(zstd_encoded(content))
    } else {
        Err(Error::UnsupportedMethod(method))
    }
}

/// Whether the data gives the content back when it is decompressed with room for more.
pub open spec fn stands_for(method: CompressionMethod, data: Seq<u8>, content: Seq<u8>) -> bool {
    forall|limit: u64|
        limit > content.len() ==> #[trigger] decompressed(method, data, limit) == Ok::<
            Seq<u8>,
            Error,
        >(content)
}

/// Decompresses data, up to `limit` bytes.
pub fn decompress(method: CompressionMethod, data: &[u8], limit: u64) -> (r: Result<
    Vec<u8>,
    Error,
>)
    ensures
        match decompressed(method, data@, limit) {
            Ok(content) => r is Ok && r->Ok_0@ == content && content.len() <= limit,
            Err(e) => r == Err::<Vec<u8>, Error>(e),
        },
{
    if method.0 == CompressionMethod::STORE {
        let n: usize = if (data.len() as u64) <= limit {
            data.len()
        } else {
            limit as usize
        };
        let part = vstd::slice::slice_subrange(data, 0, n);
        assert(part@ =~= cut(data@, limit));
        Ok(vstd::slice::slice_to_vec(part))
    } else if method.0 == CompressionMethod::DEFLATE {
        match inflate(data, limit) {
            Ok(content) => Ok(content),
            Err(kind) => Err(Error::CorruptedContent(kind)),
        }
    } else if method.0 == CompressionMethod::ZSTD {
        match zstd_decode(data, limit) {
            Ok(content) => Ok(content),
            Err(kind) => Err(Error::CorruptedContent(kind)),
        }
    } else {
        Err(Error::UnsupportedMethod(method))
    }
}

/// Compresses a content. The level is not used yet.
pub fn compress(method: CompressionMethod, level: Option<i32>, content: &[u8]) -> (r: Result<
    Vec<u8>,
    Error,
>)
    ensures
        match compressed(method, content@) {
            Ok(data) => r is Ok && r->Ok_0@ == data && stands_for(method, data, content@),
            Err(e) => r == Err::<Vec<u8>, Error>(e),
        },
        r is Ok <==> method.supported(),
{
    let _ = level;
    if method.0 == CompressionMethod::STORE {
        Ok(vstd::slice::slice_to_vec(content))
    } else if method.0 == CompressionMethod::DEFLATE {
        match deflate(content) {
            Some(data) => Ok(data),
            None => Err(Error::CompressionFailed),
        }
    } else if method.0 == CompressionMethod::ZSTD {
        match zstd_encode(content) {
            Some(data) => Ok(data),
            None => Err(Error::CompressionFailed),
        }
    } else {
        Err(Error::UnsupportedMethod(method))
    }
}

/// The decimal digits of `n`, without leading zeros.
pub open spec fn decimal(n: nat) -> Seq<char>
    decreases n,
{
    if n < 10 {
        seq![(48 + n) as char]
    } else {
        decimal(n / 10).push((48 + n % 10) as char)
    }
}

/// Appends the decimal digits of `n`.
fn push_decimal(out: &mut String, n: u16)
    ensures
        final(out)@ == old(out)@ + decimal(n as nat),
    decreases n,
{
    if n >= 10 {
        push_decimal(out, n / 10);
    }
    let digit: u16 = n % 10;
    proof {
        reveal_strlit("0");
        reveal_strlit("1");
        reveal_strlit("2");
        reveal_strlit("3");
        reveal_strlit("4");
        reveal_strlit("5");
        reveal_strlit("6");
        reveal_strlit("7");
        reveal_strlit("8");
        reveal_strlit("9");
    }
    let text = if digit == 0 {
        "0"
    } else if digit == 1 {
        "1"
    } else if digit == 2 {
        "2"
    } else if digit == 3 {
        "3"
    } else if digit == 4 {
        "4"
    } else if digit == 5 {
        "5"
    } else if digit == 6 {
        "6"
    } else if digit == 7 {
        "7"
    } else if digit == 8 {
        "8"
    } else {
        "9"
    };
    assert(text@ =~= seq![(48 + digit) as char]);
    out.append(text);
    assert(out@ =~= old(out)@ + decimal(n as nat));
}

} // verus!
