//! The fixed-size records of the ZIP format, as they lie in a file.
//!
//! Every integer of a record is stored in little-endian order.
use vstd::prelude::*;

verus! {

/// A 16-bit integer in the byte order of a ZIP file, lowest byte first.
#[derive(Debug, Clone, Copy, PartialEq, Eq, Structural)]
pub struct U16(pub u8, pub u8);

/// A 32-bit integer in the byte order of a ZIP file, lowest byte first.
#[derive(Debug, Clone, Copy, PartialEq, Eq, Structural)]
pub struct U32(pub u8, pub u8, pub u8, pub u8);

/// A 64-bit integer in the byte order of a ZIP file, lowest byte first.
#[derive(Debug, Clone, Copy, PartialEq, Eq, Structural)]
pub struct U64(pub u8, pub u8, pub u8, pub u8, pub u8, pub u8, pub u8, pub u8);

/// Two 16-bit halves can be told apart in the 32-bit integer made of them.
proof fn lemma_halves_16(lo: u16, hi: u16)
    ensures
        (lo + 0x1_0000 * hi) % 0x1_0000 == lo,
        (lo + 0x1_0000 * hi) / 0x1_0000 == hi,
{
}

/// Two 32-bit halves can be told apart in the 64-bit integer made of them.
proof fn lemma_halves_32(lo: u32, hi: u32)
    ensures
        (lo + 0x1_0000_0000 * hi) % 0x1_0000_0000 == lo,
        (lo + 0x1_0000_0000 * hi) / 0x1_0000_0000 == hi,
{
}

impl U16 {
    /// The integer that the bytes stand for.
    #[verifier::opaque]
    pub open spec fn value(self) -> u16 {
        (self.0 + 0x100 * self.1) as u16
    }

    /// The bytes that stand for `x`.
    #[verifier::opaque]
    pub open spec fn of(x: u16) -> U16 {
        U16((x % 256) as u8, ((x / 0x100) % 256) as u8)
    }

    /// The bytes in file order.
    pub open spec fn bytes(self) -> Seq<u8> {
        seq![self.0, self.1]
    }

    /// The integer whose bytes start at `at`.
    pub open spec fn at(s: Seq<u8>, at: int) -> U16 {
        U16(s[at], s[at + 1])
    }

    /// The integer that the bytes stand for.
    pub fn get(self) -> (x: u16)
        ensures
            x == self.value(),
    {
        proof {
            reveal(U16::value);
        }
        self.0 as u16 + 0x100 * (self.1 as u16)
    }

    /// The bytes that stand for `x`.
    pub fn set(x: u16) -> (r: U16)
        ensures
            r == U16::of(x),
            r.value() == x,
    {
        proof {
            U16::lemma_value_of(x);
            reveal(U16::of);
        }
        U16((x % 256) as u8, ((x / 0x100) % 256) as u8)
    }

    /// Reads the integer whose bytes start at `at`.
    pub fn read(s: &[u8], at: usize) -> (r: U16)
        requires
            at + 2 <= s@.len(),
        ensures
            r == U16::at(s@, at as int),
    {
        U16(s[at], s[at + 1])
    }

    /// Appends the bytes to `out`.
    pub fn push(self, out: &mut Vec<u8>)
        ensures
            final(out)@ == old(out)@ + self.bytes(),
    {
        out.push(self.0);
        out.push(self.1);
        assert(out@ =~= old(out)@ + self.bytes());
    }

    /// Storing an integer and loading it again gives the integer back.
    pub proof fn lemma_value_of(x: u16)
        ensures
            U16::of(x).value() == x,
    {
        reveal(U16::value);
        reveal(U16::of);
    }

    /// Loading the bytes of an integer and storing them again gives the bytes back.
    pub proof fn lemma_of_value(self)
        ensures
            U16::of(self.value()) == self,
    {
        reveal(U16::value);
        reveal(U16::of);
    }
}

impl U32 {
    /// The integer that the bytes stand for.
    #[verifier::opaque]
    pub open spec fn value(self) -> u32 {
        (U16(self.0, self.1).value() + 0x1_0000 * U16(self.2, self.3).value()) as u32
    }

    /// The bytes that stand for `x`.
    #[verifier::opaque]
    pub open spec fn of(x: u32) -> U32 {
        let lo = U16::of((x % 0x1_0000) as u16);
        let hi = U16::of((x / 0x1_0000) as u16);
        U32(lo.0, lo.1, hi.0, hi.1)
    }

    /// The bytes in file order.
    pub open spec fn bytes(self) -> Seq<u8> {
        seq![self.0, self.1, self.2, self.3]
    }

    /// The integer whose bytes start at `at`.
    pub open spec fn at(s: Seq<u8>, at: int) -> U32 {
        U32(s[at], s[at + 1], s[at + 2], s[at + 3])
    }

    /// The integer that the bytes stand for.
    pub fn get(self) -> (x: u32)
        ensures
            x == self.value(),
    {
        proof {
            reveal(U32::value);
        }
        (U16(self.0, self.1).get() as u32) + 0x1_0000 * (U16(self.2, self.3).get() as u32)
    }

    /// The bytes that stand for `x`.
    pub fn set(x: u32) -> (r: U32)
        ensures
            r == U32::of(x),
            r.value() == x,
    {
        proof {
            U32::lemma_value_of(x);
            reveal(U32::of);
        }
        let lo: U16 = U16::set((x % 0x1_0000) as u16);
        let hi: U16 = U16::set((x / 0x1_0000) as u16);
        U32(lo.0, lo.1, hi.0, hi.1)
    }

    /// Reads the integer whose bytes start at `at`.
    pub fn read(s: &[u8], at: usize) -> (r: U32)
        requires
            at + 4 <= s@.len(),
        ensures
            r == U32::at(s@, at as int),
    {
        U32(s[at], s[at + 1], s[at + 2], s[at + 3])
    }

    /// Appends the bytes to `out`.
    pub fn push(self, out: &mut Vec<u8>)
        ensures
            final(out)@ == old(out)@ + self.bytes(),
    {
        out.push(self.0);
        out.push(self.1);
        out.push(self.2);
        out.push(self.3);
        assert(out@ =~= old(out)@ + self.bytes());
    }

    /// Storing an integer and loading it again gives the integer back.
    pub proof fn lemma_value_of(x: u32)
        ensures
            U32::of(x).value() == x,
    {
        reveal(U32::value);
        reveal(U32::of);
        U16::lemma_value_of((x % 0x1_0000) as u16);
        U16::lemma_value_of((x / 0x1_0000) as u16);
    }

    /// Loading the bytes of an integer and storing them again gives the bytes back.
    pub proof fn lemma_of_value(self)
        ensures
            U32::of(self.value()) == self,
    {
        reveal(U32::value);
        reveal(U32::of);
        let lo = U16(self.0, self.1);
        let hi = U16(self.2, self.3);
        lo.lemma_of_value();
        hi.lemma_of_value();
        lemma_halves_16(lo.value(), hi.value());
    }
}

impl U64 {
    /// The integer that the bytes stand for.
    #[verifier::opaque]
    pub open spec fn value(self) -> u64 {
        (U32(self.0, self.1, self.2, self.3).value() + 0x1_0000_0000 * U32(self.4, self.5, self.6, self.7).value()) as u64
    }

    /// The bytes that stand for `x`.
    #[verifier::opaque]
    pub open spec fn of(x: u64) -> U64 {
        let lo = U32::of((x % 0x1_0000_0000) as u32);
        let hi = U32::of((x / 0x1_0000_0000) as u32);
        U64(lo.0, lo.1, lo.2, lo.3, hi.0, hi.1, hi.2, hi.3)
    }

    /// The bytes in file order.
    pub open spec fn bytes(self) -> Seq<u8> {
        seq![self.0, self.1, self.2, self.3, self.4, self.5, self.6, self.7]
    }

    /// The integer whose bytes start at `at`.
    pub open spec fn at(s: Seq<u8>, at: int) -> U64 {
        U64(s[at], s[at + 1], s[at + 2], s[at + 3], s[at + 4], s[at + 5], s[at + 6], s[at + 7])
    }

    /// The integer that the bytes stand for.
    pub fn get(self) -> (x: u64)
        ensures
            x == self.value(),
    {
        proof {
            reveal(U64::value);
        }
        (U32(self.0, self.1, self.2, self.3).get() as u64) + 0x1_0000_0000 * (U32(self.4, self.5, self.6, self.7).get() as u64)
    }

    /// The bytes that stand for `x`.
    pub fn set(x: u64) -> (r: U64)
        ensures
            r == U64::of(x),
            r.value() == x,
    {
        proof {
            U64::lemma_value_of(x);
            reveal(U64::of);
        }
        let lo: U32 = U32::set((x % 0x1_0000_0000) as u32);
        let hi: U32 = U32::set((x / 0x1_0000_0000) as u32);
        U64(lo.0, lo.1, lo.2, lo.3, hi.0, hi.1, hi.2, hi.3)
    }

    /// Reads the integer whose bytes start at `at`.
    pub fn read(s: &[u8], at: usize) -> (r: U64)
        requires
            at + 8 <= s@.len(),
        ensures
            r == U64::at(s@, at as int),
    {
        U64(s[at], s[at + 1], s[at + 2], s[at + 3], s[at + 4], s[at + 5], s[at + 6], s[at + 7])
    }

    /// Appends the bytes to `out`.
    pub fn push(self, out: &mut Vec<u8>)
        ensures
            final(out)@ == old(out)@ + self.bytes(),
    {
        out.push(self.0);
        out.push(self.1);
        out.push(self.2);
        out.push(self.3);
        out.push(self.4);
        out.push(self.5);
        out.push(self.6);
        out.push(self.7);
        assert(out@ =~= old(out)@ + self.bytes());
    }

    /// Storing an integer and loading it again gives the integer back.
    pub proof fn lemma_value_of(x: u64)
        ensures
            U64::of(x).value() == x,
    {
        reveal(U64::value);
        reveal(U64::of);
        U32::lemma_value_of((x % 0x1_0000_0000) as u32);
        U32::lemma_value_of((x / 0x1_0000_0000) as u32);
    }

    /// Loading the bytes of an integer and storing them again gives the bytes back.
    pub proof fn lemma_of_value(self)
        ensures
            U64::of(self.value()) == self,
    {
        reveal(U64::value);
        reveal(U64::of);
        let lo = U32(self.0, self.1, self.2, self.3);
        let hi = U32(self.4, self.5, self.6, self.7);
        lo.lemma_of_value();
        hi.lemma_of_value();
        lemma_halves_32(lo.value(), hi.value());
    }
}

/// The header that precedes the data of each entry.
#[derive(Debug, Clone, Copy, PartialEq, Eq, Structural)]
pub struct LocalFileHeader {
    pub signature: U32,
    pub required_version: U16,
    pub flags: U16,
    pub compression_method: U16,
    pub last_modified_time: U16,
    pub last_modified_date: U16,
    pub crc32: U32,
    pub compressed_size: U32,
    pub uncompressed_size: U32,
    pub file_name_length: U16,
    pub extra_fields_length: U16,
}

impl LocalFileHeader {
    /// The value of `signature` in every such record.
    pub const SIGNATURE: u32 = 0x04034b50;

    /// The length of the record in bytes.
    pub const SIZE: usize = 30;

    /// The record as it lies in a file.
    #[verifier::opaque]
    pub open spec fn bytes(self) -> Seq<u8> {
        self.signature.bytes()
            + self.required_version.bytes()
            + self.flags.bytes()
            + self.compression_method.bytes()
            + self.last_modified_time.bytes()
            + self.last_modified_date.bytes()
            + self.crc32.bytes()
            + self.compressed_size.bytes()
            + self.uncompressed_size.bytes()
            + self.file_name_length.bytes()
            + self.extra_fields_length.bytes()
    }

    /// The record that starts `s`.
    pub open spec fn parse(s: Seq<u8>) -> LocalFileHeader {
        LocalFileHeader {
            signature: U32::at(s, 0),
            required_version: U16::at(s, 4),
            flags: U16::at(s, 6),
            compression_method: U16::at(s, 8),
            last_modified_time: U16::at(s, 10),
            last_modified_date: U16::at(s, 12),
            crc32: U32::at(s, 14),
            compressed_size: U32::at(s, 18),
            uncompressed_size: U32::at(s, 22),
            file_name_length: U16::at(s, 26),
            extra_fields_length: U16::at(s, 28),
        }
    }

    /// Reads the record that starts `s`.
    pub fn read(s: &[u8]) -> (r: LocalFileHeader)
        requires
            s@.len() >= 30,
        ensures
            r == LocalFileHeader::parse(s@),
    {
        LocalFileHeader {
            signature: U32::read(s, 0),
            required_version: U16::read(s, 4),
            flags: U16::read(s, 6),
            compression_method: U16::read(s, 8),
            last_modified_time: U16::read(s, 10),
            last_modified_date: U16::read(s, 12),
            crc32: U32::read(s, 14),
            compressed_size: U32::read(s, 18),
            uncompressed_size: U32::read(s, 22),
            file_name_length: U16::read(s, 26),
            extra_fields_length: U16::read(s, 28),
        }
    }

    /// Appends the record to `out`.
    pub fn push(&self, out: &mut Vec<u8>)
        ensures
            final(out)@ == old(out)@ + self.bytes(),
    {
        proof {
            reveal(LocalFileHeader::bytes);
        }
        self.signature.push(out);
        self.required_version.push(out);
        self.flags.push(out);
        self.compression_method.push(out);
        self.last_modified_time.push(out);
        self.last_modified_date.push(out);
        self.crc32.push(out);
        self.compressed_size.push(out);
        self.uncompressed_size.push(out);
        self.file_name_length.push(out);
        self.extra_fields_length.push(out);
        assert(out@ =~= old(out)@ + self.bytes());
    }

    /// A written record has the length of such a record and reads as itself, whatever follows it.
    pub proof fn lemma_parse_bytes(self, rest: Seq<u8>)
        ensures
            self.bytes().len() == 30,
            LocalFileHeader::parse(self.bytes() + rest) == self,
    {
        reveal(LocalFileHeader::bytes);
        let s0 = self.signature.bytes();
        let s1 = s0 + self.required_version.bytes();
        assert(s1.len() == 6);
        let s2 = s1 + self.flags.bytes();
        assert(s2.len() == 8);
        let s3 = s2 + self.compression_method.bytes();
        assert(s3.len() == 10);
        let s4 = s3 + self.last_modified_time.bytes();
        assert(s4.len() == 12);
        let s5 = s4 + self.last_modified_date.bytes();
        assert(s5.len() == 14);
        let s6 = s5 + self.crc32.bytes();
        assert(s6.len() == 18);
        let s7 = s6 + self.compressed_size.bytes();
        assert(s7.len() == 22);
        let s8 = s7 + self.uncompressed_size.bytes();
        assert(s8.len() == 26);
        let s9 = s8 + self.file_name_length.bytes();
        assert(s9.len() == 28);
        let s10 = s9 + self.extra_fields_length.bytes();
        assert(s10.len() == 30);
        assert(self.bytes() == s10);
    }

    /// A record that was read is written as the bytes it was read from.
    pub proof fn lemma_bytes_parse(s: Seq<u8>)
        requires
            s.len() >= 30,
        ensures
            LocalFileHeader::parse(s).bytes() == s.take(30),
    {
        reveal(LocalFileHeader::bytes);
        assert(LocalFileHeader::parse(s).bytes() =~= s.take(30));
    }
}

/// The record that follows the data of a streamed entry, with 32-bit sizes.
#[derive(Debug, Clone, Copy, PartialEq, Eq, Structural)]
pub struct DataDescriptor32 {
    pub signature: U32,
    pub crc32: U32,
    pub compressed_size: U32,
    pub uncompressed_size: U32,
}

impl DataDescriptor32 {
    /// The value of `signature` in every such record.
    pub const SIGNATURE: u32 = 0x08074b50;

    /// The length of the record in bytes.
    pub const SIZE: usize = 16;

    /// The record as it lies in a file.
    #[verifier::opaque]
    pub open spec fn bytes(self) -> Seq<u8> {
        self.signature.bytes()
            + self.crc32.bytes()
            + self.compressed_size.bytes()
            + self.uncompressed_size.bytes()
    }

    /// The record that starts `s`.
    pub open spec fn parse(s: Seq<u8>) -> DataDescriptor32 {
        DataDescriptor32 {
            signature: U32::at(s, 0),
            crc32: U32::at(s, 4),
            compressed_size: U32::at(s, 8),
            uncompressed_size: U32::at(s, 12),
        }
    }

    /// Reads the record that starts `s`.
    pub fn read(s: &[u8]) -> (r: DataDescriptor32)
        requires
            s@.len() >= 16,
        ensures
            r == DataDescriptor32::parse(s@),
    {
        DataDescriptor32 {
            signature: U32::read(s, 0),
            crc32: U32::read(s, 4),
            compressed_size: U32::read(s, 8),
            uncompressed_size: U32::read(s, 12),
        }
    }

    /// Appends the record to `out`.
    pub fn push(&self, out: &mut Vec<u8>)
        ensures
            final(out)@ == old(out)@ + self.bytes(),
    {
        proof {
            reveal(DataDescriptor32::bytes);
        }
        self.signature.push(out);
        self.crc32.push(out);
        self.compressed_size.push(out);
        self.uncompressed_size.push(out);
        assert(out@ =~= old(out)@ + self.bytes());
    }

    /// A written record has the length of such a record and reads as itself, whatever follows it.
    pub proof fn lemma_parse_bytes(self, rest: Seq<u8>)
        ensures
            self.bytes().len() == 16,
            DataDescriptor32::parse(self.bytes() + rest) == self,
    {
        reveal(DataDescriptor32::bytes);
    }

    /// A record that was read is written as the bytes it was read from.
    pub proof fn lemma_bytes_parse(s: Seq<u8>)
        requires
            s.len() >= 16,
        ensures
            DataDescriptor32::parse(s).bytes() == s.take(16),
    {
        reveal(DataDescriptor32::bytes);
        assert(DataDescriptor32::parse(s).bytes() =~= s.take(16));
    }
}

/// The record that follows the data of a streamed entry, with 64-bit sizes.
#[derive(Debug, Clone, Copy, PartialEq, Eq, Structural)]
pub struct DataDescriptor64 {
    pub signature: U32,
    pub crc32: U32,
    pub compressed_size: U64,
    pub uncompressed_size: U64,
}

impl DataDescriptor64 {
    /// The value of `signature` in every such record.
    pub const SIGNATURE: u32 = 0x08074b50;

    /// The length of the record in bytes.
    pub const SIZE: usize = 24;

    /// The record as it lies in a file.
    #[verifier::opaque]
    pub open spec fn bytes(self) -> Seq<u8> {
        self.signature.bytes()
            + self.crc32.bytes()
            + self.compressed_size.bytes()
            + self.uncompressed_size.bytes()
    }

    /// The record that starts `s`.
    pub open spec fn parse(s: Seq<u8>) -> DataDescriptor64 {
        DataDescriptor64 {
            signature: U32::at(s, 0),
            crc32: U32::at(s, 4),
            compressed_size: U64::at(s, 8),
            uncompressed_size: U64::at(s, 16),
        }
    }

    /// Reads the record that starts `s`.
    pub fn read(s: &[u8]) -> (r: DataDescriptor64)
        requires
            s@.len() >= 24,
        ensures
            r == DataDescriptor64::parse(s@),
    {
        DataDescriptor64 {
            signature: U32::read(s, 0),
            crc32: U32::read(s, 4),
            compressed_size: U64::read(s, 8),
            uncompressed_size: U64::read(s, 16),
        }
    }

    /// Appends the record to `out`.
    pub fn push(&self, out: &mut Vec<u8>)
        ensures
            final(out)@ == old(out)@ + self.bytes(),
    {
        proof {
            reveal(DataDescriptor64::bytes);
        }
        self.signature.push(out);
        self.crc32.push(out);
        self.compressed_size.push(out);
        self.uncompressed_size.push(out);
        assert(out@ =~= old(out)@ + self.bytes());
    }

    /// A written record has the length of such a record and reads as itself, whatever follows it.
    pub proof fn lemma_parse_bytes(self, rest: Seq<u8>)
        ensures
            self.bytes().len() == 24,
            DataDescriptor64::parse(self.bytes() + rest) == self,
    {
        reveal(DataDescriptor64::bytes);
    }

    /// A record that was read is written as the bytes it was read from.
    pub proof fn lemma_bytes_parse(s: Seq<u8>)
        requires
            s.len() >= 24,
        ensures
            DataDescriptor64::parse(s).bytes() == s.take(24),
    {
        reveal(DataDescriptor64::bytes);
        assert(DataDescriptor64::parse(s).bytes() =~= s.take(24));
    }
}

/// The header of an entry in the central directory.
#[derive(Debug, Clone, Copy, PartialEq, Eq, Structural)]
pub struct CentralFileHeader {
    pub signature: U32,
    pub made_by: U16,
    pub version_needed: U16,
    pub flags: U16,
    pub compression_method: U16,
    pub last_modified_time: U16,
    pub last_modified_date: U16,
    pub crc32: U32,
    pub compressed_size: U32,
    pub uncompressed_size: U32,
    pub file_name_length: U16,
    pub extra_fields_length: U16,
    pub file_comment_length: U16,
    pub disk_number: U16,
    pub internal_attributes: U16,
    pub external_attributes: U32,
    pub local_header_offset: U32,
}

impl CentralFileHeader {
    /// The value of `signature` in every such record.
    pub const SIGNATURE: u32 = 0x02014b50;

    /// The length of the record in bytes.
    pub const SIZE: usize = 46;

    /// The record as it lies in a file.
    #[verifier::opaque]
    pub open spec fn bytes(self) -> Seq<u8> {
        self.signature.bytes()
            + self.made_by.bytes()
            + self.version_needed.bytes()
            + self.flags.bytes()
            + self.compression_method.bytes()
            + self.last_modified_time.bytes()
            + self.last_modified_date.bytes()
            + self.crc32.bytes()
            + self.compressed_size.bytes()
            + self.uncompressed_size.bytes()
            + self.file_name_length.bytes()
            + self.extra_fields_length.bytes()
            + self.file_comment_length.bytes()
            + self.disk_number.bytes()
            + self.internal_attributes.bytes()
            + self.external_attributes.bytes()
            + self.local_header_offset.bytes()
    }

    /// The record that starts `s`.
    pub open spec fn parse(s: Seq<u8>) -> CentralFileHeader {
        CentralFileHeader {
            signature: U32::at(s, 0),
            made_by: U16::at(s, 4),
            version_needed: U16::at(s, 6),
            flags: U16::at(s, 8),
            compression_method: U16::at(s, 10),
            last_modified_time: U16::at(s, 12),
            last_modified_date: U16::at(s, 14),
            crc32: U32::at(s, 16),
            compressed_size: U32::at(s, 20),
            uncompressed_size: U32::at(s, 24),
            file_name_length: U16::at(s, 28),
            extra_fields_length: U16::at(s, 30),
            file_comment_length: U16::at(s, 32),
            disk_number: U16::at(s, 34),
            internal_attributes: U16::at(s, 36),
            external_attributes: U32::at(s, 38),
            local_header_offset: U32::at(s, 42),
        }
    }

    /// Reads the record that starts `s`.
    pub fn read(s: &[u8]) -> (r: CentralFileHeader)
        requires
            s@.len() >= 46,
        ensures
            r == CentralFileHeader::parse(s@),
    {
        CentralFileHeader {
            signature: U32::read(s, 0),
            made_by: U16::read(s, 4),
            version_needed: U16::read(s, 6),
            flags: U16::read(s, 8),
            compression_method: U16::read(s, 10),
            last_modified_time: U16::read(s, 12),
            last_modified_date: U16::read(s, 14),
            crc32: U32::read(s, 16),
            compressed_size: U32::read(s, 20),
            uncompressed_size: U32::read(s, 24),
            file_name_length: U16::read(s, 28),
            extra_fields_length: U16::read(s, 30),
            file_comment_length: U16::read(s, 32),
            disk_number: U16::read(s, 34),
            internal_attributes: U16::read(s, 36),
            external_attributes: U32::read(s, 38),
            local_header_offset: U32::read(s, 42),
        }
    }

    /// Appends the record to `out`.
    pub fn push(&self, out: &mut Vec<u8>)
        ensures
            final(out)@ == old(out)@ + self.bytes(),
    {
        proof {
            reveal(CentralFileHeader::bytes);
        }
        self.signature.push(out);
        self.made_by.push(out);
        self.version_needed.push(out);
        self.flags.push(out);
        self.compression_method.push(out);
        self.last_modified_time.push(out);
        self.last_modified_date.push(out);
        self.crc32.push(out);
        self.compressed_size.push(out);
        self.uncompressed_size.push(out);
        self.file_name_length.push(out);
        self.extra_fields_length.push(out);
        self.file_comment_length.push(out);
        self.disk_number.push(out);
        self.internal_attributes.push(out);
        self.external_attributes.push(out);
        self.local_header_offset.push(out);
        assert(out@ =~= old(out)@ + self.bytes());
    }

    /// A written record has the length of such a record and reads as itself, whatever follows it.
    pub proof fn lemma_parse_bytes(self, rest: Seq<u8>)
        ensures
            self.bytes().len() == 46,
            CentralFileHeader::parse(self.bytes() + rest) == self,
    {
        reveal(CentralFileHeader::bytes);
        let s0 = self.signature.bytes();
        let s1 = s0 + self.made_by.bytes();
        assert(s1.len() == 6);
        let s2 = s1 + self.version_needed.bytes();
        assert(s2.len() == 8);
        let s3 = s2 + self.flags.bytes();
        assert(s3.len() == 10);
        let s4 = s3 + self.compression_method.bytes();
        assert(s4.len() == 12);
        let s5 = s4 + self.last_modified_time.bytes();
        assert(s5.len() == 14);
        let s6 = s5 + self.last_modified_date.bytes();
        assert(s6.len() == 16);
        let s7 = s6 + self.crc32.bytes();
        assert(s7.len() == 20);
        let s8 = s7 + self.compressed_size.bytes();
        assert(s8.len() == 24);
        let s9 = s8 + self.uncompressed_size.bytes();
        assert(s9.len() == 28);
        let s10 = s9 + self.file_name_length.bytes();
        assert(s10.len() == 30);
        let s11 = s10 + self.extra_fields_length.bytes();
        assert(s11.len() == 32);
        let s12 = s11 + self.file_comment_length.bytes();
        assert(s12.len() == 34);
        let s13 = s12 + self.disk_number.bytes();
        assert(s13.len() == 36);
        let s14 = s13 + self.internal_attributes.bytes();
        assert(s14.len() == 38);
        let s15 = s14 + self.external_attributes.bytes();
        assert(s15.len() == 42);
        let s16 = s15 + self.local_header_offset.bytes();
        assert(s16.len() == 46);
        assert(self.bytes() == s16);
    }

    /// A record that was read is written as the bytes it was read from.
    pub proof fn lemma_bytes_parse(s: Seq<u8>)
        requires
            s.len() >= 46,
        ensures
            CentralFileHeader::parse(s).bytes() == s.take(46),
    {
        reveal(CentralFileHeader::bytes);
        assert(CentralFileHeader::parse(s).bytes() =~= s.take(46));
    }
}

/// The 64-bit record that ends the central directory.
#[derive(Debug, Clone, Copy, PartialEq, Eq, Structural)]
pub struct EndOfCentralDirectory64 {
    pub signature: U32,
    pub record_size: U64,
    pub made_by: U16,
    pub version_needed: U16,
    pub disk_number: U32,
    pub disk_with_central_directory: U32,
    pub entries_on_this_disk: U64,
    pub total_entries: U64,
    pub central_directory_size: U64,
    pub central_directory_offset: U64,
}

impl EndOfCentralDirectory64 {
    /// The value of `signature` in every such record.
    pub const SIGNATURE: u32 = 0x06064b50;

    /// The length of the record in bytes.
    pub const SIZE: usize = 56;

    /// The record as it lies in a file.
    #[verifier::opaque]
    pub open spec fn bytes(self) -> Seq<u8> {
        self.signature.bytes()
            + self.record_size.bytes()
            + self.made_by.bytes()
            + self.version_needed.bytes()
            + self.disk_number.bytes()
            + self.disk_with_central_directory.bytes()
            + self.entries_on_this_disk.bytes()
            + self.total_entries.bytes()
            + self.central_directory_size.bytes()
            + self.central_directory_offset.bytes()
    }

    /// The record that starts `s`.
    pub open spec fn parse(s: Seq<u8>) -> EndOfCentralDirectory64 {
        EndOfCentralDirectory64 {
            signature: U32::at(s, 0),
            record_size: U64::at(s, 4),
            made_by: U16::at(s, 12),
            version_needed: U16::at(s, 14),
            disk_number: U32::at(s, 16),
            disk_with_central_directory: U32::at(s, 20),
            entries_on_this_disk: U64::at(s, 24),
            total_entries: U64::at(s, 32),
            central_directory_size: U64::at(s, 40),
            central_directory_offset: U64::at(s, 48),
        }
    }

    /// Reads the record that starts `s`.
    pub fn read(s: &[u8]) -> (r: EndOfCentralDirectory64)
        requires
            s@.len() >= 56,
        ensures
            r == EndOfCentralDirectory64::parse(s@),
    {
        EndOfCentralDirectory64 {
            signature: U32::read(s, 0),
            record_size: U64::read(s, 4),
            made_by: U16::read(s, 12),
            version_needed: U16::read(s, 14),
            disk_number: U32::read(s, 16),
            disk_with_central_directory: U32::read(s, 20),
            entries_on_this_disk: U64::read(s, 24),
            total_entries: U64::read(s, 32),
            central_directory_size: U64::read(s, 40),
            central_directory_offset: U64::read(s, 48),
        }
    }

    /// Appends the record to `out`.
    pub fn push(&self, out: &mut Vec<u8>)
        ensures
            final(out)@ == old(out)@ + self.bytes(),
    {
        proof {
            reveal(EndOfCentralDirectory64::bytes);
        }
        self.signature.push(out);
        self.record_size.push(out);
        self.made_by.push(out);
        self.version_needed.push(out);
        self.disk_number.push(out);
        self.disk_with_central_directory.push(out);
        self.entries_on_this_disk.push(out);
        self.total_entries.push(out);
        self.central_directory_size.push(out);
        self.central_directory_offset.push(out);
        assert(out@ =~= old(out)@ + self.bytes());
    }

    /// A written record has the length of such a record and reads as itself, whatever follows it.
    pub proof fn lemma_parse_bytes(self, rest: Seq<u8>)
        ensures
            self.bytes().len() == 56,
            EndOfCentralDirectory64::parse(self.bytes() + rest) == self,
    {
        reveal(EndOfCentralDirectory64::bytes);
        let s0 = self.signature.bytes();
        let s1 = s0 + self.record_size.bytes();
        assert(s1.len() == 12);
        let s2 = s1 + self.made_by.bytes();
        assert(s2.len() == 14);
        let s3 = s2 + self.version_needed.bytes();
        assert(s3.len() == 16);
        let s4 = s3 + self.disk_number.bytes();
        assert(s4.len() == 20);
        let s5 = s4 + self.disk_with_central_directory.bytes();
        assert(s5.len() == 24);
        let s6 = s5 + self.entries_on_this_disk.bytes();
        assert(s6.len() == 32);
        let s7 = s6 + self.total_entries.bytes();
        assert(s7.len() == 40);
        let s8 = s7 + self.central_directory_size.bytes();
        assert(s8.len() == 48);
        let s9 = s8 + self.central_directory_offset.bytes();
        assert(s9.len() == 56);
        assert(self.bytes() == s9);
    }

    /// A record that was read is written as the bytes it was read from.
    pub proof fn lemma_bytes_parse(s: Seq<u8>)
        requires
            s.len() >= 56,
        ensures
            EndOfCentralDirectory64::parse(s).bytes() == s.take(56),
    {
        reveal(EndOfCentralDirectory64::bytes);
        assert(EndOfCentralDirectory64::parse(s).bytes() =~= s.take(56));
    }
}

/// The record that tells where an [`EndOfCentralDirectory64`] starts.
#[derive(Debug, Clone, Copy, PartialEq, Eq, Structural)]
pub struct EndOfCentralDirectory64Locator {
    pub signature: U32,
    pub disk_with_central_directory: U32,
    pub central_directory_64_offset: U64,
    pub total_disks: U32,
}

impl EndOfCentralDirectory64Locator {
    /// The value of `signature` in every such record.
    pub const SIGNATURE: u32 = 0x07064b50;

    /// The length of the record in bytes.
    pub const SIZE: usize = 20;

    /// The record as it lies in a file.
    #[verifier::opaque]
    pub open spec fn bytes(self) -> Seq<u8> {
        self.signature.bytes()
            + self.disk_with_central_directory.bytes()
            + self.central_directory_64_offset.bytes()
            + self.total_disks.bytes()
    }

    /// The record that starts `s`.
    pub open spec fn parse(s: Seq<u8>) -> EndOfCentralDirectory64Locator {
        EndOfCentralDirectory64Locator {
            signature: U32::at(s, 0),
            disk_with_central_directory: U32::at(s, 4),
            central_directory_64_offset: U64::at(s, 8),
            total_disks: U32::at(s, 16),
        }
    }

    /// Reads the record that starts `s`.
    pub fn read(s: &[u8]) -> (r: EndOfCentralDirectory64Locator)
        requires
            s@.len() >= 20,
        ensures
            r == EndOfCentralDirectory64Locator::parse(s@),
    {
        EndOfCentralDirectory64Locator {
            signature: U32::read(s, 0),
            disk_with_central_directory: U32::read(s, 4),
            central_directory_64_offset: U64::read(s, 8),
            total_disks: U32::read(s, 16),
        }
    }

    /// Appends the record to `out`.
    pub fn push(&self, out: &mut Vec<u8>)
        ensures
            final(out)@ == old(out)@ + self.bytes(),
    {
        proof {
            reveal(EndOfCentralDirectory64Locator::bytes);
        }
        self.signature.push(out);
        self.disk_with_central_directory.push(out);
        self.central_directory_64_offset.push(out);
        self.total_disks.push(out);
        assert(out@ =~= old(out)@ + self.bytes());
    }

    /// A written record has the length of such a record and reads as itself, whatever follows it.
    pub proof fn lemma_parse_bytes(self, rest: Seq<u8>)
        ensures
            self.bytes().len() == 20,
            EndOfCentralDirectory64Locator::parse(self.bytes() + rest) == self,
    {
        reveal(EndOfCentralDirectory64Locator::bytes);
    }

    /// A record that was read is written as the bytes it was read from.
    pub proof fn lemma_bytes_parse(s: Seq<u8>)
        requires
            s.len() >= 20,
        ensures
            EndOfCentralDirectory64Locator::parse(s).bytes() == s.take(20),
    {
        reveal(EndOfCentralDirectory64Locator::bytes);
        assert(EndOfCentralDirectory64Locator::parse(s).bytes() =~= s.take(20));
    }
}

/// The last record of an archive; only the archive comment follows it.
#[derive(Debug, Clone, Copy, PartialEq, Eq, Structural)]
pub struct EndOfCentralDirectory {
    pub signature: U32,
    pub disk_number: U16,
    pub disk_with_central_directory: U16,
    pub entries_on_this_disk: U16,
    pub total_entries: U16,
    pub central_directory_size: U32,
    pub central_directory_offset: U32,
    pub comment_length: U16,
}

impl EndOfCentralDirectory {
    /// The value of `signature` in every such record.
    pub const SIGNATURE: u32 = 0x06054b50;

    /// The length of the record in bytes.
    pub const SIZE: usize = 22;

    /// The record as it lies in a file.
    #[verifier::opaque]
    pub open spec fn bytes(self) -> Seq<u8> {
        self.signature.bytes()
            + self.disk_number.bytes()
            + self.disk_with_central_directory.bytes()
            + self.entries_on_this_disk.bytes()
            + self.total_entries.bytes()
            + self.central_directory_size.bytes()
            + self.central_directory_offset.bytes()
            + self.comment_length.bytes()
    }

    /// The record that starts `s`.
    pub open spec fn parse(s: Seq<u8>) -> EndOfCentralDirectory {
        EndOfCentralDirectory {
            signature: U32::at(s, 0),
            disk_number: U16::at(s, 4),
            disk_with_central_directory: U16::at(s, 6),
            entries_on_this_disk: U16::at(s, 8),
            total_entries: U16::at(s, 10),
            central_directory_size: U32::at(s, 12),
            central_directory_offset: U32::at(s, 16),
            comment_length: U16::at(s, 20),
        }
    }

    /// Reads the record that starts `s`.
    pub fn read(s: &[u8]) -> (r: EndOfCentralDirectory)
        requires
            s@.len() >= 22,
        ensures
            r == EndOfCentralDirectory::parse(s@),
    {
        EndOfCentralDirectory {
            signature: U32::read(s, 0),
            disk_number: U16::read(s, 4),
            disk_with_central_directory: U16::read(s, 6),
            entries_on_this_disk: U16::read(s, 8),
            total_entries: U16::read(s, 10),
            central_directory_size: U32::read(s, 12),
            central_directory_offset: U32::read(s, 16),
            comment_length: U16::read(s, 20),
        }
    }

    /// Appends the record to `out`.
    pub fn push(&self, out: &mut Vec<u8>)
        ensures
            final(out)@ == old(out)@ + self.bytes(),
    {
        proof {
            reveal(EndOfCentralDirectory::bytes);
        }
        self.signature.push(out);
        self.disk_number.push(out);
        self.disk_with_central_directory.push(out);
        self.entries_on_this_disk.push(out);
        self.total_entries.push(out);
        self.central_directory_size.push(out);
        self.central_directory_offset.push(out);
        self.comment_length.push(out);
        assert(out@ =~= old(out)@ + self.bytes());
    }

    /// A written record has the length of such a record and reads as itself, whatever follows it.
    pub proof fn lemma_parse_bytes(self, rest: Seq<u8>)
        ensures
            self.bytes().len() == 22,
            EndOfCentralDirectory::parse(self.bytes() + rest) == self,
    {
        reveal(EndOfCentralDirectory::bytes);
    }

    /// A record that was read is written as the bytes it was read from.
    pub proof fn lemma_bytes_parse(s: Seq<u8>)
        requires
            s.len() >= 22,
        ensures
            EndOfCentralDirectory::parse(s).bytes() == s.take(22),
    {
        reveal(EndOfCentralDirectory::bytes);
        assert(EndOfCentralDirectory::parse(s).bytes() =~= s.take(22));
    }
}

} // verus!
