//! Extra fields parsing
use crate::compression::CompressionMethod;
use crate::types::{U16, U32, U64};
use crate::utils::text;
use crate::utils::Timestamp;
use vstd::prelude::*;
use vstd::slice::slice_subrange;
use vstd::string::*;
use vstd::utf8::*;

verus! {

/// The value of an extra field.
#[verifier::ext_equal]
pub enum FieldView {
    /// The 64-bit integers of the field, one after the other.
    Zip64ExtendedInformation(Seq<u8>),
    Ntfs(Option<NtfsTimes>),
    ExtendedTimestamp(ExtendedTimestamp),
    UnicodeComment { header_comment_crc32: u32, comment: Seq<u8> },
    UnicodeName { header_name_crc32: u32, name: Seq<u8> },
    UnixNew { version: u8, uid: Seq<u8>, gid: Seq<u8> },
    Aes(Aes),
    Invalid(u16, Seq<u8>),
    Unknown(u16, Seq<u8>),
}

/// The bytes of a field that are still to be parsed.
#[derive(Debug)]
pub struct DataParser<'a>(pub &'a [u8]);

impl<'a> DataParser<'a> {
    /// Takes the next byte.
    pub fn read_u8(&mut self) -> (r: Option<u8>)
        ensures
            old(self).0@.len() >= 1 ==> r == Some(old(self).0@[0]) && final(self).0@ == old(
                self).0@.skip(1),
            old(self).0@.len() < 1 ==> r is None && *final(self) == *old(self),
    {
        if self.0.len() < 1 {
            return None;
        }
        let x: u8 = self.0[0];
        let ghost s = self.0@;
        self.0 = slice_subrange(self.0, 1, self.0.len());
        assert(self.0@ =~= s.skip(1));
        Some(x)
    }

    /// Takes the next 16-bit integer.
    pub fn read_u16(&mut self) -> (r: Option<u16>)
        ensures
            old(self).0@.len() >= 2 ==> r == Some(U16::at(old(self).0@, 0).value()) && final(
                self).0@ == old(self).0@.skip(2),
            old(self).0@.len() < 2 ==> r is None && *final(self) == *old(self),
    {
        if self.0.len() < 2 {
            return None;
        }
        let x: u16 = U16::read(self.0, 0).get();
        let ghost s = self.0@;
        self.0 = slice_subrange(self.0, 2, self.0.len());
        assert(self.0@ =~= s.skip(2));
        Some(x)
    }

    /// Takes the next 32-bit integer.
    pub fn read_u32(&mut self) -> (r: Option<u32>)
        ensures
            old(self).0@.len() >= 4 ==> r == Some(U32::at(old(self).0@, 0).value()) && final(
                self).0@ == old(self).0@.skip(4),
            old(self).0@.len() < 4 ==> r is None && *final(self) == *old(self),
    {
        if self.0.len() < 4 {
            return None;
        }
        let x: u32 = U32::read(self.0, 0).get();
        let ghost s = self.0@;
        self.0 = slice_subrange(self.0, 4, self.0.len());
        assert(self.0@ =~= s.skip(4));
        Some(x)
    }

    /// Takes the next 64-bit integer.
    pub fn read_u64(&mut self) -> (r: Option<u64>)
        ensures
            old(self).0@.len() >= 8 ==> r == Some(U64::at(old(self).0@, 0).value()) && final(
                self).0@ == old(self).0@.skip(8),
            old(self).0@.len() < 8 ==> r is None && *final(self) == *old(self),
    {
        if self.0.len() < 8 {
            return None;
        }
        let x: u64 = U64::read(self.0, 0).get();
        let ghost s = self.0@;
        self.0 = slice_subrange(self.0, 8, self.0.len());
        assert(self.0@ =~= s.skip(8));
        Some(x)
    }

    /// Takes the next `len` bytes.
    pub fn read_variable(&mut self, len: usize) -> (r: Option<&'a [u8]>)
        ensures
            old(self).0@.len() >= len ==> r is Some && r->0@ == old(self).0@.take(len as int)
                && final(self).0@ == old(self).0@.skip(len as int),
            old(self).0@.len() < len ==> r is None && *final(self) == *old(self),
    {
        if self.0.len() < len {
            return None;
        }
        let ghost s = self.0@;
        let bytes = slice_subrange(self.0, 0, len);
        self.0 = slice_subrange(self.0, len, self.0.len());
        assert(bytes@ =~= s.take(len as int));
        assert(self.0@ =~= s.skip(len as int));
        Some(bytes)
    }

    /// Checks that nothing is left.
    pub fn end(self) -> (r: Option<()>)
        ensures
            r is Some <==> self.0@.len() == 0,
    {
        if self.0.len() == 0 {
            Some(())
        } else {
            None
        }
    }
}

/// The extra fields of a header.
#[derive(Debug)]
pub struct ExtraFields<'a>(pub &'a [u8]);

impl<'a> ExtraFields<'a> {
    /// Walks through the fields.
    pub fn iter(&self) -> (r: ExtraFieldIterator<'a>)
        ensures
            r@ == fields(self.0@),
    {
        ExtraFieldIterator(DataParser(self.0))
    }
}

/// The fields in order. Bytes that are not a whole field end them.
pub open spec fn fields(s: Seq<u8>) -> Seq<FieldView>
    decreases s.len(),
{
    if s.len() < 4 || s.len() < 4 + U16::at(s, 2).value() {
        seq![]
    } else {
        let len = U16::at(s, 2).value();
        seq![field(U16::at(s, 0).value(), s.subrange(4, 4 + len))] + fields(s.skip(4 + len))
    }
}

/// The extra fields that are still to come.
#[derive(Debug)]
pub struct ExtraFieldIterator<'a>(DataParser<'a>);

impl<'a> View for ExtraFieldIterator<'a> {
    type V = Seq<FieldView>;

    closed spec fn view(&self) -> Seq<FieldView> {
        fields(self.0.0@)
    }
}

impl<'a> ExtraFieldIterator<'a> {
    /// Takes the next field.
    pub fn next(&mut self) -> (r: Option<ExtraField<'a>>)
        ensures
            old(self)@.len() == 0 ==> r is None && final(self)@.len() == 0,
            old(self)@.len() > 0 ==> r is Some && r->0@ == old(self)@[0] && final(self)@ == old(
                self)@.drop_first(),
    {
        let ghost s = self.0.0@;
        let id: u16 = match self.0.read_u16() {
            Some(id) => id,
            None => return None,
        };
        let len: u16 = match self.0.read_u16() {
            Some(len) => len,
            None => return None,
        };
        proof {
            assert(U16::at(s.skip(2), 0) == U16::at(s, 2));
            assert(s.skip(2).skip(2) =~= s.skip(4));
        }
        let data = match self.0.read_variable(len as usize) {
            Some(data) => data,
            None => {
                // The field is cut: there are no more fields.
                self.0 = DataParser(slice_subrange(self.0.0, 0, 0));
                return None;
            },
        };
        proof {
            assert(data@ =~= s.subrange(4, 4 + len));
            assert(self.0.0@ =~= s.skip(4 + len));
            assert(fields(s).drop_first() =~= fields(s.skip(4 + len)));
        }
        Some(ExtraField::parse(id, data))
    }
}

/// An extra field.
#[derive(Debug)]
pub enum ExtraField<'a> {
    Zip64ExtendedInformation(Zip64ExtendedInformation<'a>),
    Ntfs(Ntfs),
    ExtendedTimestamp(ExtendedTimestamp),
    UnicodeComment(UnicodeComment<'a>),
    UnicodeName(UnicodeName<'a>),
    UnixNew(UnixNew<'a>),
    Aes(Aes),
    Invalid(u16, &'a [u8]),
    Unknown(u16, &'a [u8]),
}

impl<'a> View for ExtraField<'a> {
    type V = FieldView;

    open spec fn view(&self) -> FieldView {
        match *self {
            ExtraField::Zip64ExtendedInformation(x) => FieldView::Zip64ExtendedInformation(x.0.0@),
            ExtraField::Ntfs(x) => FieldView::Ntfs(x.times),
            ExtraField::ExtendedTimestamp(x) => FieldView::ExtendedTimestamp(x),
            ExtraField::UnicodeComment(x) => FieldView::UnicodeComment {
                header_comment_crc32: x.header_comment_crc32,
                comment: x.comment.spec_bytes(),
            },
            ExtraField::UnicodeName(x) => FieldView::UnicodeName {
                header_name_crc32: x.header_name_crc32,
                name: x.name.spec_bytes(),
            },
            ExtraField::UnixNew(x) => FieldView::UnixNew {
                version: x.version,
                uid: x.uid@,
                gid: x.gid@,
            },
            ExtraField::Aes(x) => FieldView::Aes(x),
            ExtraField::Invalid(id, data) => FieldView::Invalid(id, data@),
            ExtraField::Unknown(id, data) => FieldView::Unknown(id, data@),
        }
    }
}

/// The field with this number and these bytes.
pub open spec fn field(id: u16, s: Seq<u8>) -> FieldView {
    let known = if id == 0x0001 {
        Some(FieldView::Zip64ExtendedInformation(s))
    } else if id == 0x000a {
        match ntfs(s) {
            Some(times) => Some(FieldView::Ntfs(times)),
            None => None,
        }
    } else if id == 0x5455 {
        match extended_timestamp(s) {
            Some(ts) => Some(FieldView::ExtendedTimestamp(ts)),
            None => None,
        }
    } else if id == 0x6375 {
        match unicode(s) {
            Some((crc, text)) => Some(
                FieldView::UnicodeComment { header_comment_crc32: crc, comment: text },
            ),
            None => None,
        }
    } else if id == 0x7075 {
        match unicode(s) {
            Some((crc, text)) => Some(FieldView::UnicodeName { header_name_crc32: crc, name: text }),
            None => None,
        }
    } else if id == 0x7875 {
        unix_new(s)
    } else if id == 0x9901 {
        match aes(s) {
            Some(aes) => Some(FieldView::Aes(aes)),
            None => None,
        }
    } else {
        Some(FieldView::Unknown(id, s))
    };
    match known {
        Some(f) => f,
        None => FieldView::Invalid(id, s),
    }
}

impl<'a> ExtraField<'a> {
    /// Parses the field with this number and these bytes.
    pub fn parse(id: u16, data: &'a [u8]) -> (r: ExtraField<'a>)
        ensures
            r@ == field(id, data@),
    {
        if id == 0x0001 {
            ExtraField::Zip64ExtendedInformation(
                Zip64ExtendedInformation::parse(DataParser(data)),
            )
        } else if id == 0x000a {
            match Ntfs::parse(DataParser(data)) {
                Some(x) => ExtraField::Ntfs(x),
                None => ExtraField::Invalid(id, data),
            }
        } else if id == 0x5455 {
            match ExtendedTimestamp::parse(DataParser(data)) {
                Some(x) => ExtraField::ExtendedTimestamp(x),
                None => ExtraField::Invalid(id, data),
            }
        } else if id == 0x6375 {
            match UnicodeComment::parse(DataParser(data)) {
                Some(x) => ExtraField::UnicodeComment(x),
                None => ExtraField::Invalid(id, data),
            }
        } else if id == 0x7075 {
            match UnicodeName::parse(DataParser(data)) {
                Some(x) => ExtraField::UnicodeName(x),
                None => ExtraField::Invalid(id, data),
            }
        } else if id == 0x7875 {
            match UnixNew::parse(DataParser(data)) {
                Some(x) => ExtraField::UnixNew(x),
                None => ExtraField::Invalid(id, data),
            }
        } else if id == 0x9901 {
            match Aes::parse(DataParser(data)) {
                Some(x) => ExtraField::Aes(x),
                None => ExtraField::Invalid(id, data),
            }
        } else {
            ExtraField::Unknown(id, data)
        }
    }
}

/// The sizes and offsets that do not fit in the 32 bits of a header, one after the other. Which of
/// them are there depends on the header.
#[derive(Debug)]
pub struct Zip64ExtendedInformation<'a>(pub DataParser<'a>);

impl<'a> Zip64ExtendedInformation<'a> {
    /// Every content is accepted until its values are asked for.
    pub fn parse(data: DataParser<'a>) -> (r: Zip64ExtendedInformation<'a>)
        ensures
            r.0.0@ == data.0@,
    {
        Zip64ExtendedInformation(data)
    }

    /// Takes the next value.
    pub fn next(&mut self) -> (r: Option<u64>)
        ensures
            old(self).0.0@.len() >= 8 ==> r == Some(U64::at(old(self).0.0@, 0).value()) && final(
                self).0.0@ == old(self).0.0@.skip(8),
            old(self).0.0@.len() < 8 ==> r is None && *final(self) == *old(self),
    {
        self.0.read_u64()
    }

    /// Checks that no value is left.
    pub fn end(self) -> (r: Option<()>)
        ensures
            r is Some <==> self.0.0@.len() == 0,
    {
        self.0.end()
    }
}

/// The times of a NTFS file.
#[derive(Debug, Clone, Copy, PartialEq, Eq, Structural)]
pub struct NtfsTimes {
    pub mtime: Timestamp,
    pub atime: Timestamp,
    pub ctime: Timestamp,
}

/// What is known of a NTFS file.
#[derive(Debug, Clone, Copy)]
pub struct Ntfs {
    pub times: Option<NtfsTimes>,
}

/// The times at the start of a NTFS attribute.
pub open spec fn ntfs_times(s: Seq<u8>) -> NtfsTimes {
    NtfsTimes {
        mtime: Timestamp::of_ntfs(U64::at(s, 0).value()),
        atime: Timestamp::of_ntfs(U64::at(s, 8).value()),
        ctime: Timestamp::of_ntfs(U64::at(s, 16).value()),
    }
}

/// The times given by the last of the NTFS attributes that gives some, or those found before.
/// There is nothing where an attribute is cut, or is too short for the times.
pub open spec fn ntfs_attributes(s: Seq<u8>, times: Option<NtfsTimes>) -> Option<Option<NtfsTimes>>
    decreases s.len(),
{
    if s.len() == 0 {
        Some(times)
    } else if s.len() < 4 || s.len() < 4 + U16::at(s, 2).value() {
        None
    } else {
        let len = U16::at(s, 2).value();
        let rest = s.skip(4 + len);
        if U16::at(s, 0).value() != 1 {
            ntfs_attributes(rest, times)
        } else if len < 24 {
            None
        } else {
            ntfs_attributes(rest, Some(ntfs_times(s.subrange(4, 4 + len))))
        }
    }
}

/// The content of a NTFS field: four bytes that are not used, then attributes.
pub open spec fn ntfs(s: Seq<u8>) -> Option<Option<NtfsTimes>> {
    if s.len() < 4 {
        None
    } else {
        ntfs_attributes(s.skip(4), None)
    }
}

impl Ntfs {
    /// Parses the content of the field.
    pub fn parse(data: DataParser<'_>) -> (r: Option<Ntfs>)
        ensures
            match ntfs(data.0@) {
                Some(times) => r is Some && r->0.times == times,
                None => r is None,
            },
    {
        let ghost all = data.0@;
        let mut rest = data;
        if rest.read_u32().is_none() {
            return None;
        }
        let mut times: Option<NtfsTimes> = None;
        while rest.0.len() != 0
            invariant
                all == data.0@,
                all.len() >= 4,
                ntfs_attributes(all.skip(4), None) == ntfs_attributes(rest.0@, times),
            decreases rest.0@.len(),
        {
            let ghost s = rest.0@;
            let typ: u16 = match rest.read_u16() {
                Some(typ) => typ,
                None => return None,
            };
            let len: u16 = match rest.read_u16() {
                Some(len) => len,
                None => return None,
            };
            proof {
                assert(U16::at(s.skip(2), 0) == U16::at(s, 2));
                assert(s.skip(2).skip(2) =~= s.skip(4));
            }
            let mut attribute = match rest.read_variable(len as usize) {
                Some(bytes) => DataParser(bytes),
                None => return None,
            };
            let ghost a = attribute.0@;
            proof {
                assert(a =~= s.subrange(4, 4 + len));
                assert(rest.0@ =~= s.skip(4 + len));
            }
            if typ == 0x0001 {
                let mtime: u64 = match attribute.read_u64() {
                    Some(time) => time,
                    None => return None,
                };
                let atime: u64 = match attribute.read_u64() {
                    Some(time) => time,
                    None => return None,
                };
                let ctime: u64 = match attribute.read_u64() {
                    Some(time) => time,
                    None => return None,
                };
                proof {
                    assert(U64::at(a.skip(8), 0) == U64::at(a, 8));
                    assert(U64::at(a.skip(8).skip(8), 0) == U64::at(a, 16));
                }
                times = Some(
                    NtfsTimes {
                        mtime: Timestamp::from_ntfs(mtime),
                        atime: Timestamp::from_ntfs(atime),
                        ctime: Timestamp::from_ntfs(ctime),
                    },
                );
            }
        }
        Some(Ntfs { times })
    }
}

/// The times of a file, as UNIX knows them.
#[derive(Debug, Clone, Copy, PartialEq, Eq, Structural)]
pub struct ExtendedTimestamp {
    pub modification_time: Option<Timestamp>,
    pub access_time: Option<Timestamp>,
    pub creation_time: Option<Timestamp>,
}

/// A bit of a byte, as a number.
pub open spec fn bit(x: u8, weight: u8) -> nat {
    ((x / weight) % 2) as nat
}

/// The number of bits that are set.
pub open spec fn count_bits(x: u8) -> nat {
    bit(x, 1) + bit(x, 2) + bit(x, 4) + bit(x, 8) + bit(x, 16) + bit(x, 32) + bit(x, 64) + bit(
        x,
        128,
    )
}

/// The UNIX time at a place, where there is one.
pub open spec fn unix_time(s: Seq<u8>, at: nat, present: nat) -> Option<Timestamp> {
    if present == 1 {
        Some(Timestamp(U32::at(s, at as int).value() as u64))
    } else {
        None
    }
}

/// The content of an extended timestamp: a byte whose lowest three bits tell which of the times
/// follow, and these times. A single time that does not go with the bits is a modification time.
pub open spec fn extended_timestamp(s: Seq<u8>) -> Option<ExtendedTimestamp> {
    let m = bit(s[0], 1);
    let a = bit(s[0], 2);
    let c = bit(s[0], 4);
    if s.len() == 0 {
        None
    } else if s.len() == 5 && count_bits(s[0]) != 1 {
        Some(
            ExtendedTimestamp {
                modification_time: unix_time(s, 1, 1),
                access_time: None,
                creation_time: None,
            },
        )
    } else if s.len() != 1 + 4 * (m + a + c) {
        None
    } else {
        Some(
            ExtendedTimestamp {
                modification_time: unix_time(s, 1, m),
                access_time: unix_time(s, 1 + 4 * m, a),
                creation_time: unix_time(s, 1 + 4 * (m + a), c),
            },
        )
    }
}

impl ExtendedTimestamp {
    /// Parses the content of the field.
    pub fn parse(data: DataParser<'_>) -> (r: Option<ExtendedTimestamp>)
        ensures
            r == extended_timestamp(data.0@),
    {
        let ghost s = data.0@;
        let mut data = data;
        let flags: u8 = match data.read_u8() {
            Some(flags) => flags,
            None => return None,
        };
        let count: u8 = flags % 2 + (flags / 2) % 2 + (flags / 4) % 2 + (flags / 8) % 2 + (flags
            / 16) % 2 + (flags / 32) % 2 + (flags / 64) % 2 + (flags / 128) % 2;
        assert(count == count_bits(flags));

        // There are ZIP out there whose flags are wrong.
        // If there is only one time, and this doesn't match `flags`,
        // assume that this is modification time
        if data.0.len() == 4 && count != 1 {
            let time: u32 = match data.read_u32() {
                Some(time) => time,
                None => return None,
            };
            assert(U32::at(s.skip(1), 0) == U32::at(s, 1));
            return Some(
                ExtendedTimestamp {
                    modification_time: Some(Timestamp::from_unix(time as u64)),
                    access_time: None,
                    creation_time: None,
                },
            );
        }
        let ghost m = bit(flags, 1);
        let ghost a = bit(flags, 2);
        let ghost c = bit(flags, 4);
        let modification_time = if flags % 2 != 0 {
            assert(s.len() >= 5 ==> U32::at(s.skip(1), 0) == U32::at(s, 1));
            match data.read_u32() {
                Some(time) => Some(Timestamp::from_unix(time as u64)),
                None => return None,
            }
        } else {
            None
        };
        assert(data.0@ =~= s.skip(1 + 4 * m as int));
        let access_time = if (flags / 2) % 2 != 0 {
            assert(s.len() >= 5 + 4 * m ==> U32::at(s.skip(1 + 4 * m as int), 0) == U32::at(
                s,
                1 + 4 * m as int,
            ));
            match data.read_u32() {
                Some(time) => Some(Timestamp::from_unix(time as u64)),
                None => return None,
            }
        } else {
            None
        };
        assert(data.0@ =~= s.skip(1 + 4 * (m + a) as int));
        let creation_time = if (flags / 4) % 2 != 0 {
            assert(s.len() >= 5 + 4 * (m + a) ==> U32::at(s.skip(1 + 4 * (m + a) as int), 0)
                == U32::at(s, 1 + 4 * (m + a) as int));
            match data.read_u32() {
                Some(time) => Some(Timestamp::from_unix(time as u64)),
                None => return None,
            }
        } else {
            None
        };
        assert(data.0@ =~= s.skip(1 + 4 * (m + a + c) as int));
        if data.end().is_none() {
            return None;
        }
        Some(ExtendedTimestamp { modification_time, access_time, creation_time })
    }
}

/// The content of a field that gives a text in Unicode: the version, which is 1, the checksum of
/// the bytes in the header that the text replaces, and the text.
pub open spec fn unicode(s: Seq<u8>) -> Option<(u32, Seq<u8>)> {
    if s.len() < 5 || s[0] != 1 || !valid_utf8(s.skip(5)) {
        None
    } else {
        Some((U32::at(s, 1).value(), s.skip(5)))
    }
}

/// Parses the content of a field that gives a text in Unicode.
fn parse_unicode<'a>(data: DataParser<'a>) -> (r: Option<(u8, u32, &'a str)>)
    ensures
        match unicode(data.0@) {
            Some((crc, text)) => r matches Some(x) && x.0 == 1 && x.1 == crc && x.2.spec_bytes()
                == text,
            None => r is None,
        },
{
    let ghost s = data.0@;
    let mut data = data;
    let version: u8 = match data.read_u8() {
        Some(version) => version,
        None => return None,
    };
    if version != 1 {
        return None;
    }
    assert(s.len() >= 5 ==> U32::at(s.skip(1), 0) == U32::at(s, 1));
    let crc: u32 = match data.read_u32() {
        Some(crc) => crc,
        None => return None,
    };
    assert(data.0@ =~= s.skip(5));
    match text::from_utf8(data.0) {
        Some(text) => Some((version, crc, text)),
        None => None,
    }
}

/// A comment in Unicode.
#[derive(Debug, Clone, Copy)]
pub struct UnicodeComment<'a> {
    pub version: u8,
    pub header_comment_crc32: u32,
    pub comment: &'a str,
}

impl<'a> UnicodeComment<'a> {
    /// Parses the content of the field.
    pub fn parse(data: DataParser<'a>) -> (r: Option<UnicodeComment<'a>>)
        ensures
            match unicode(data.0@) {
                Some((crc, text)) => r is Some && r->0.version == 1 && r->0.header_comment_crc32
                    == crc && r->0.comment.spec_bytes() == text,
                None => r is None,
            },
    {
        match parse_unicode(data) {
            Some((version, header_comment_crc32, comment)) => Some(
                UnicodeComment { version, header_comment_crc32, comment },
            ),
            None => None,
        }
    }
}

/// A name in Unicode.
#[derive(Debug, Clone, Copy)]
pub struct UnicodeName<'a> {
    pub version: u8,
    pub header_name_crc32: u32,
    pub name: &'a str,
}

impl<'a> UnicodeName<'a> {
    /// Parses the content of the field.
    pub fn parse(data: DataParser<'a>) -> (r: Option<UnicodeName<'a>>)
        ensures
            match unicode(data.0@) {
                Some((crc, text)) => r is Some && r->0.version == 1 && r->0.header_name_crc32 == crc
                    && r->0.name.spec_bytes() == text,
                None => r is None,
            },
    {
        match parse_unicode(data) {
            Some((version, header_name_crc32, name)) => Some(
                UnicodeName { version, header_name_crc32, name },
            ),
            None => None,
        }
    }
}

/// The owner of a file on UNIX.
#[derive(Debug, Clone, Copy)]
pub struct UnixNew<'a> {
    pub version: u8,
    pub uid: &'a [u8],
    pub gid: &'a [u8],
}

/// The content of the field: a version, then the user and the group, each with its size before it.
pub open spec fn unix_new(s: Seq<u8>) -> Option<FieldView> {
    let u = s[1];
    let g = s[2 + u];
    if s.len() < 2 || s.len() < 3 + u || s.len() != 3 + u + g {
        None
    } else {
        Some(
            FieldView::UnixNew {
                version: s[0],
                uid: s.subrange(2, 2 + u),
                gid: s.subrange(3 + u, 3 + u + g),
            },
        )
    }
}

impl<'a> UnixNew<'a> {
    /// Parses the content of the field.
    pub fn parse(data: DataParser<'a>) -> (r: Option<UnixNew<'a>>)
        ensures
            match unix_new(data.0@) {
                Some(f) => r is Some && ExtraField::UnixNew(r->0)@ == f,
                None => r is None,
            },
    {
        let ghost s = data.0@;
        let mut data = data;
        let version: u8 = match data.read_u8() {
            Some(x) => x,
            None => return None,
        };
        let uid_size: u8 = match data.read_u8() {
            Some(x) => x,
            None => return None,
        };
        assert(data.0@ =~= s.skip(2));
        let uid = match data.read_variable(uid_size as usize) {
            Some(x) => x,
            None => return None,
        };
        assert(uid@ =~= s.subrange(2, 2 + uid_size));
        assert(data.0@ =~= s.skip(2 + uid_size));
        let gid_size: u8 = match data.read_u8() {
            Some(x) => x,
            None => return None,
        };
        assert(data.0@ =~= s.skip(3 + uid_size));
        let gid = match data.read_variable(gid_size as usize) {
            Some(x) => x,
            None => return None,
        };
        assert(gid@ =~= s.subrange(3 + uid_size, 3 + uid_size + gid_size));
        if data.end().is_none() {
            return None;
        }
        Some(UnixNew { version, uid, gid })
    }
}

/// The version of the AES encryption.
#[derive(Debug, Clone, Copy, PartialEq, Eq, Structural)]
pub enum AesVersion {
    Ae1,
    Ae2,
}

/// The mode of the AES encryption.
#[derive(Debug, Clone, Copy, PartialEq, Eq, Structural)]
pub enum AesMode {
    Aes128,
    Aes192,
    Aes256,
}

/// How a file is encrypted with AES.
#[derive(Debug, Clone, Copy, PartialEq, Eq, Structural)]
pub struct Aes {
    pub version: AesVersion,
    pub mode: AesMode,
    pub compression: CompressionMethod,
}

/// The content of the field: the version, the letters `AE`, the mode and the compression method of
/// the content before it was encrypted.
pub open spec fn aes(s: Seq<u8>) -> Option<Aes> {
    let version = U16::at(s, 0).value();
    if s.len() != 7 || !(version == 1 || version == 2) || U16::at(s, 2).value() != 0x4541 || !(1
        <= s[4] <= 3) {
        None
    } else {
        Some(
            Aes {
                version: if version == 1 {
                    AesVersion::Ae1
                } else {
                    AesVersion::Ae2
                },
                mode: if s[4] == 1 {
                    AesMode::Aes128
                } else if s[4] == 2 {
                    AesMode::Aes192
                } else {
                    AesMode::Aes256
                },
                compression: CompressionMethod(U16::at(s, 5).value()),
            },
        )
    }
}

impl Aes {
    /// The size of the key.
    pub open spec fn spec_key_size(self) -> u16 {
        match self.mode {
            AesMode::Aes128 => 128,
            AesMode::Aes192 => 192,
            AesMode::Aes256 => 256,
        }
    }

    /// Whether the checksum of the content is kept: only the first version does.
    pub open spec fn spec_check_crc32(self) -> bool {
        self.version == AesVersion::Ae1
    }

    /// Parses the content of the field.
    ///
    /// See <https://www.winzip.com/en/support/aes-encryption/>.
    pub fn parse(data: DataParser<'_>) -> (r: Option<Aes>)
        ensures
            r == aes(data.0@),
    {
        let ghost s = data.0@;
        let mut data = data;
        let version = match data.read_u16() {
            Some(x) => if x == 1 {
                AesVersion::Ae1
            } else if x == 2 {
                AesVersion::Ae2
            } else {
                return None;
            },
            None => return None,
        };
        assert(s.len() >= 4 ==> U16::at(s.skip(2), 0) == U16::at(s, 2));
        match data.read_u16() {
            Some(vendor_id) => if vendor_id != 0x4541 {
                return None;
            },
            None => return None,
        }
        assert(data.0@ =~= s.skip(4));
        let mode = match data.read_u8() {
            Some(x) => if x == 1 {
                AesMode::Aes128
            } else if x == 2 {
                AesMode::Aes192
            } else if x == 3 {
                AesMode::Aes256
            } else {
                return None;
            },
            None => return None,
        };
        assert(data.0@ =~= s.skip(5));
        assert(s.len() >= 7 ==> U16::at(s.skip(5), 0) == U16::at(s, 5));
        let compression = match data.read_u16() {
            Some(x) => CompressionMethod(x),
            None => return None,
        };
        if data.end().is_none() {
            return None;
        }
        Some(Aes { version, mode, compression })
    }

    /// Returns the size of the key.
    pub fn key_size(&self) -> (r: u16)
        ensures
            r == self.spec_key_size(),
    {
        match self.mode {
            AesMode::Aes128 => 128,
            AesMode::Aes192 => 192,
            AesMode::Aes256 => 256,
        }
    }

    /// Returns whether the checksum of the content is kept.
    pub fn check_crc32(&self) -> (r: bool)
        ensures
            r == self.spec_check_crc32(),
    {
        match self.version {
            AesVersion::Ae1 => true,
            AesVersion::Ae2 => false,
        }
    }
}

} // verus!
