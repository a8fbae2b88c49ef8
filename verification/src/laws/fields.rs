//! What extra fields say, byte by byte.
use crate::compression::CompressionMethod;
use crate::laws::bytes;
use crate::laws::bytes::{le16, le32, le64};
use crate::laws::written::SECONDS_FROM_1601;
use crate::read::extra_field;
use crate::read::extra_field::{FieldView, NtfsTimes};
use crate::read::metadata;
use crate::read::metadata::{EncryptionMethod, MetadataView};
use crate::utils::names;
use crate::utils::Timestamp;
use vstd::prelude::*;
use vstd::utf8::*;

verus! {

/// The metadata after a field with this number and these bytes, where they are in order.
pub open spec fn after(
    m: MetadataView,
    id: u16,
    s: Seq<u8>,
    name_crc: Option<u32>,
    comment_crc: Option<u32>,
    windows: bool,
) -> Option<MetadataView> {
    metadata::with_field(m, extra_field::field(id, s), name_crc, comment_crc, windows)
}

/// A field has its number in two bytes, the length of what it says in two bytes, and then what it
/// says. Fields are taken one after the other, as far as they are whole, and each has to be in
/// order. A method that tells of AES has to be replaced by one of them.
pub proof fn lemma_one_after_the_other(
    m: MetadataView,
    s: Seq<u8>,
    name_crc: Option<u32>,
    comment_crc: Option<u32>,
    windows: bool,
)
    ensures
        metadata::with_fields(m, extra_field::fields(s), name_crc, comment_crc, windows) == (if s.len()
            >= 4 && s.len() >= 4 + le16(s, 2) {
            match after(
                m,
                le16(s, 0) as u16,
                s.subrange(4, 4 + le16(s, 2)),
                name_crc,
                comment_crc,
                windows,
            ) {
                Some(next) => metadata::with_fields(
                    next,
                    extra_field::fields(s.skip(4 + le16(s, 2))),
                    name_crc,
                    comment_crc,
                    windows,
                ),
                None => None,
            }
        } else if m.compression_method.0 == 99 {
            None
        } else {
            Some(m)
        }),
{
    bytes::lemma_read_16(s, 0);
    bytes::lemma_read_16(s, 2);
    let fs = extra_field::fields(s);
    if s.len() >= 4 && s.len() >= 4 + le16(s, 2) {
        assert(fs.drop_first() =~= extra_field::fields(s.skip(4 + le16(s, 2))));
    }
}

/// Whether a size or an offset is left to the field with 64-bit integers.
pub open spec fn left_out(x: u64) -> bool {
    x == 0xffff_ffff
}

/// How many of the first values are left to the field with 64-bit integers, in bytes.
pub open spec fn left_out_before(m: MetadataView, which: int) -> int {
    (if which > 0 && left_out(m.uncompressed_size) {
        8int
    } else {
        0
    }) + (if which > 1 && left_out(m.compressed_size) {
        8int
    } else {
        0
    }) + (if which > 2 && left_out(m.header_offset) {
        8int
    } else {
        0
    })
}

/// The field 1 holds, in eight bytes each, exactly those of the length of the content, the length of
/// the data and the place of the header that the header leaves out, in this order.
pub proof fn lemma_zip64(
    m: MetadataView,
    s: Seq<u8>,
    name_crc: Option<u32>,
    comment_crc: Option<u32>,
    windows: bool,
)
    ensures
        after(m, 0x0001, s, name_crc, comment_crc, windows) == (if s.len() == left_out_before(m, 3) {
            Some(
                MetadataView {
                    uncompressed_size: if left_out(m.uncompressed_size) {
                        le64(s, 0) as u64
                    } else {
                        m.uncompressed_size
                    },
                    compressed_size: if left_out(m.compressed_size) {
                        le64(s, left_out_before(m, 1)) as u64
                    } else {
                        m.compressed_size
                    },
                    header_offset: if left_out(m.header_offset) {
                        le64(s, left_out_before(m, 2)) as u64
                    } else {
                        m.header_offset
                    },
                    is_zip64: true,
                    ..m
                },
            )
        } else {
            None
        }),
{
    bytes::lemma_read_64(s, 0);
    bytes::lemma_read_64(s, left_out_before(m, 1));
    bytes::lemma_read_64(s, left_out_before(m, 2));
}

/// The number of bits that are set in a byte.
pub open spec fn ones(x: u8) -> int {
    (x & 1) + ((x >> 1) & 1) + ((x >> 2) & 1) + ((x >> 3) & 1) + ((x >> 4) & 1) + ((x >> 5) & 1) + ((
    x >> 6) & 1) + ((x >> 7) & 1)
}

/// The time in seconds at a place, where it is there.
pub open spec fn seconds(s: Seq<u8>, at: int, there: bool) -> Option<Timestamp> {
    if there {
        Some(Timestamp(le32(s, at) as u64))
    } else {
        None
    }
}

/// The field 0x5455 tells by the lowest three bits of its first byte which times follow: that of
/// modification, of access and of creation, in this order, each in four bytes. Where only one time
/// follows but not exactly one bit is set, it is that of modification.
pub proof fn lemma_times(
    m: MetadataView,
    s: Seq<u8>,
    name_crc: Option<u32>,
    comment_crc: Option<u32>,
    windows: bool,
)
    ensures
        ({
            let r = after(m, 0x5455, s, name_crc, comment_crc, windows);
            let b0 = s[0] & 1 == 1;
            let b1 = (s[0] >> 1) & 1 == 1;
            let b2 = (s[0] >> 2) & 1 == 1;
            let n0 = if b0 {
                4int
            } else {
                0
            };
            let n1 = if b1 {
                4int
            } else {
                0
            };
            let n2 = if b2 {
                4int
            } else {
                0
            };
            if s.len() == 0 {
                r is None
            } else if s.len() == 5 && ones(s[0]) != 1 {
                r == Some(
                    MetadataView {
                        modification_time: seconds(s, 1, true),
                        access_time: None,
                        creation_time: None,
                        ..m
                    },
                )
            } else if s.len() != 1 + n0 + n1 + n2 {
                r is None
            } else {
                r == Some(
                    MetadataView {
                        modification_time: seconds(s, 1, b0),
                        access_time: seconds(s, 1 + n0, b1),
                        creation_time: seconds(s, 1 + n0 + n1, b2),
                        ..m
                    },
                )
            }
        }),
{
    let x = s[0];
    assert((x / 1) % 2 == x & 1) by (bit_vector);
    assert((x / 2) % 2 == (x >> 1) & 1) by (bit_vector);
    assert((x / 4) % 2 == (x >> 2) & 1) by (bit_vector);
    assert((x / 8) % 2 == (x >> 3) & 1 && (x / 16) % 2 == (x >> 4) & 1 && (x / 32) % 2 == (x >> 5)
        & 1 && (x / 64) % 2 == (x >> 6) & 1 && (x / 128) % 2 == (x >> 7) & 1) by (bit_vector);
    bytes::lemma_read_32(s, 1);
    bytes::lemma_read_32(s, 5);
    bytes::lemma_read_32(s, 9);
    let r = after(m, 0x5455, s, name_crc, comment_crc, windows);
    assert(x & 1 == 0 || x & 1 == 1) by (bit_vector);
    assert((x >> 1) & 1 == 0 || (x >> 1) & 1 == 1) by (bit_vector);
    assert((x >> 2) & 1 == 0 || (x >> 2) & 1 == 1) by (bit_vector);
}

/// The seconds from the start of the year 1970 to a time in tenths of microseconds from the start of
/// the year 1601, rounded down, and 0 for a time before 1970.
pub proof fn lemma_ntfs_time(ticks: u64)
    ensures
        ({
            let t = Timestamp::of_ntfs(ticks).0;
            let since = ticks - SECONDS_FROM_1601 * 10_000_000;
            if since < 0 {
                t == 0
            } else {
                t * 10_000_000 <= since < (t + 1) * 10_000_000
            }
        }),
{
}

/// The field 0x000a has four bytes that are not used and then attributes, each with a number and a
/// length in two bytes. Attributes are taken one after the other and have to be whole. The one with
/// number 1 gives, in eight bytes each, the times of modification, of access and of creation.
pub proof fn lemma_ntfs(s: Seq<u8>, times: Option<NtfsTimes>)
    ensures
        extra_field::ntfs_attributes(s, times) == (if s.len() == 0 {
            Some(times)
        } else if s.len() < 4 || s.len() < 4 + le16(s, 2) {
            None
        } else if le16(s, 0) != 1 {
            extra_field::ntfs_attributes(s.skip(4 + le16(s, 2)), times)
        } else if le16(s, 2) < 24 {
            None
        } else {
            extra_field::ntfs_attributes(
                s.skip(4 + le16(s, 2)),
                Some(
                    NtfsTimes {
                        mtime: Timestamp::of_ntfs(le64(s, 4) as u64),
                        atime: Timestamp::of_ntfs(le64(s, 12) as u64),
                        ctime: Timestamp::of_ntfs(le64(s, 20) as u64),
                    },
                ),
            )
        }),
{
    bytes::lemma_read_16(s, 0);
    bytes::lemma_read_16(s, 2);
    if s.len() >= 4 && s.len() >= 4 + le16(s, 2) && le16(s, 2) >= 24 {
        let t = s.subrange(4, 4 + le16(s, 2));
        bytes::lemma_read_64(t, 0);
        bytes::lemma_read_64(t, 8);
        bytes::lemma_read_64(t, 16);
        assert(le64(t, 0) == le64(s, 4));
        assert(le64(t, 8) == le64(s, 12));
        assert(le64(t, 16) == le64(s, 20));
    }
}

/// The times of the field 0x000a become those of the entry.
pub proof fn lemma_ntfs_field(
    m: MetadataView,
    s: Seq<u8>,
    name_crc: Option<u32>,
    comment_crc: Option<u32>,
    windows: bool,
)
    ensures
        after(m, 0x000a, s, name_crc, comment_crc, windows) == (if s.len() < 4 {
            None
        } else {
            match extra_field::ntfs_attributes(s.skip(4), None) {
                None => None,
                Some(None) => Some(
                    MetadataView {
                        modification_time: None,
                        access_time: None,
                        creation_time: None,
                        ..m
                    },
                ),
                Some(Some(t)) => Some(
                    MetadataView {
                        modification_time: Some(t.mtime),
                        access_time: Some(t.atime),
                        creation_time: Some(t.ctime),
                        ..m
                    },
                ),
            }
        }),
{
}

/// The field 0x7075 replaces a name that was not UTF-8, and the field 0x6375 such a comment. Both
/// hold a 1, the checksum of the bytes that they replace in four bytes, and a text in UTF-8. The name
/// has to be an allowed one, and is put in canonical form.
pub proof fn lemma_unicode(
    m: MetadataView,
    s: Seq<u8>,
    name_crc: Option<u32>,
    comment_crc: Option<u32>,
    windows: bool,
)
    ensures
        ({
            let whole = s.len() >= 5 && s[0] == 1 && valid_utf8(s.skip(5));
            let crc = Some(le32(s, 1) as u32);
            let name = names::valid_name(s.skip(5), windows);
            &&& after(m, 0x7075, s, name_crc, comment_crc, windows) == (if whole && crc == name_crc
                && name is Some {
                Some(MetadataView { name: name->0, ..m })
            } else {
                None
            })
            &&& after(m, 0x6375, s, name_crc, comment_crc, windows) == (if whole && crc
                == comment_crc {
                Some(MetadataView { comment: s.skip(5), ..m })
            } else {
                None
            })
        }),
{
    bytes::lemma_read_32(s, 1);
}

/// The field 0x9901 tells of AES: the version in two bytes, which is 1 or 2, the letters `AE`, a
/// byte that is 1, 2 or 3 for a key of 128, 192 or 256 bits, and the method of the content in two
/// bytes. Version 2 keeps no checksum. The header has to tell of encryption, and of method 99.
pub proof fn lemma_aes(
    m: MetadataView,
    s: Seq<u8>,
    name_crc: Option<u32>,
    comment_crc: Option<u32>,
    windows: bool,
)
    ensures
        after(m, 0x9901, s, name_crc, comment_crc, windows) == (if s.len() == 7 && (le16(s, 0) == 1
            || le16(s, 0) == 2) && s[2] == 0x41 && s[3] == 0x45 && 1 <= s[4] <= 3
            && m.compression_method.0 == 99 && (m.encryption == Some(EncryptionMethod::ZipCrypto)
            || m.encryption == Some(EncryptionMethod::StrongEncryption)) && (le16(s, 0) == 2
            ==> m.crc32 == 0) {
            Some(
                MetadataView {
                    encryption: Some(
                        EncryptionMethod::Aes {
                            key_size: (64 + 64 * s[4]) as u16,
                            check_crc32: le16(s, 0) == 1,
                        },
                    ),
                    compression_method: CompressionMethod(le16(s, 5) as u16),
                    ..m
                },
            )
        } else {
            None
        }),
{
    bytes::lemma_read_16(s, 0);
    bytes::lemma_read_16(s, 2);
    bytes::lemma_read_16(s, 5);
}

/// The field 0x7875 has to be a byte, and a user and a group with a byte for the length before each
/// of them. It and the fields with other numbers change nothing.
pub proof fn lemma_other_fields(
    m: MetadataView,
    id: u16,
    s: Seq<u8>,
    name_crc: Option<u32>,
    comment_crc: Option<u32>,
    windows: bool,
)
    requires
        id != 0x0001 && id != 0x000a && id != 0x5455 && id != 0x6375 && id != 0x7075 && id != 0x9901,
    ensures
        after(m, id, s, name_crc, comment_crc, windows) == (if id != 0x7875 || (s.len() >= 2
            && s.len() >= 3 + s[1] && s.len() == 3 + s[1] + s[2 + s[1]]) {
            Some(m)
        } else {
            None
        }),
        id != 0x7875 ==> extra_field::field(id, s) == FieldView::Unknown(id, s),
        id == 0x7875 && after(m, id, s, name_crc, comment_crc, windows) is Some
            ==> extra_field::field(id, s) == (FieldView::UnixNew {
            version: s[0],
            uid: s.subrange(2, 2 + s[1]),
            gid: s.subrange(3 + s[1], s.len() as int),
        }),
{
}

} // verus!
