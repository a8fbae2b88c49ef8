//! Integers as they lie in a file.
use crate::types::{U16, U32, U64};
use vstd::prelude::*;

verus! {

/// The integer in the two bytes from this position on, lowest byte first.
pub open spec fn le16(s: Seq<u8>, at: int) -> int {
    s[at] + 0x100 * s[at + 1]
}

/// The integer in the four bytes from this position on, lowest byte first.
pub open spec fn le32(s: Seq<u8>, at: int) -> int {
    s[at] + 0x100 * s[at + 1] + 0x1_0000 * s[at + 2] + 0x100_0000 * s[at + 3]
}

/// The integer in the eight bytes from this position on, lowest byte first.
pub open spec fn le64(s: Seq<u8>, at: int) -> int {
    le32(s, at) + 0x1_0000_0000 * le32(s, at + 4)
}

/// The lowest `n` bytes of an integer, lowest byte first.
pub open spec fn le_bytes(x: int, n: nat) -> Seq<u8>
    decreases n,
{
    if n == 0 {
        Seq::empty()
    } else {
        seq![(x % 256) as u8] + le_bytes(x / 256, (n - 1) as nat)
    }
}

/// An integer has as many bytes as are asked for.
pub proof fn lemma_le_len(x: int, n: nat)
    ensures
        le_bytes(x, n).len() == n,
    decreases n,
{
    if n > 0 {
        lemma_le_len(x / 256, (n - 1) as nat);
    }
}

/// The bytes of a 16-bit integer, one by one.
proof fn lemma_two(x: int)
    ensures
        le_bytes(x, 2) == seq![(x % 256) as u8, (x / 256 % 256) as u8],
{
    reveal_with_fuel(le_bytes, 3);
    assert(le_bytes(x, 2) =~= seq![(x % 256) as u8, (x / 256 % 256) as u8]);
}

/// More bytes of an integer are those of its lower and of its higher part.
proof fn lemma_split(x: int, n: nat, base: int, m: nat)
    requires
        x >= 0,
        (n == 2 && base == 0x1_0000) || (n == 4 && base == 0x1_0000_0000),
    ensures
        le_bytes(x, n + m) == le_bytes(x % base, n) + le_bytes(x / base, m),
{
    reveal_with_fuel(le_bytes, 5);
    if n == 2 {
        assert(x / 256 / 256 == x / 0x1_0000);
        assert(x % 0x1_0000 % 256 == x % 256);
        assert(x % 0x1_0000 / 256 % 256 == x / 256 % 256);
    } else {
        let y = x % 0x1_0000_0000;
        assert(x / 256 / 256 / 256 / 256 == x / 0x1_0000_0000);
        assert(y % 256 == x % 256);
        assert(y / 256 % 256 == x / 256 % 256);
        assert(y / 256 / 256 % 256 == x / 256 / 256 % 256);
        assert(y / 256 / 256 / 256 % 256 == x / 256 / 256 / 256 % 256);
    }
    assert(le_bytes(x, n + m) =~= le_bytes(x % base, n) + le_bytes(x / base, m));
}

/// A 16-bit integer is written lowest byte first.
pub proof fn lemma_written_16(x: u16)
    ensures
        U16::of(x).bytes() == le_bytes(x as int, 2),
{
    reveal(U16::of);
    lemma_two(x as int);
    assert(U16::of(x).bytes() =~= le_bytes(x as int, 2));
}

/// A 32-bit integer is written lowest byte first.
pub proof fn lemma_written_32(x: u32)
    ensures
        U32::of(x).bytes() == le_bytes(x as int, 4),
{
    reveal(U32::of);
    let lo = (x % 0x1_0000) as u16;
    let hi = (x / 0x1_0000) as u16;
    lemma_split(x as int, 2, 0x1_0000, 2);
    lemma_written_16(lo);
    lemma_written_16(hi);
    assert(U32::of(x).bytes() =~= U16::of(lo).bytes() + U16::of(hi).bytes());
}

/// A 64-bit integer is written lowest byte first.
pub proof fn lemma_written_64(x: u64)
    ensures
        U64::of(x).bytes() == le_bytes(x as int, 8),
{
    reveal(U64::of);
    let lo = (x % 0x1_0000_0000) as u32;
    let hi = (x / 0x1_0000_0000) as u32;
    lemma_split(x as int, 4, 0x1_0000_0000, 4);
    lemma_written_32(lo);
    lemma_written_32(hi);
    assert(U64::of(x).bytes() =~= U32::of(lo).bytes() + U32::of(hi).bytes());
}

/// A 16-bit integer is read lowest byte first.
pub proof fn lemma_read_16(s: Seq<u8>, at: int)
    ensures
        U16::at(s, at).value() == le16(s, at),
{
    reveal(U16::value);
}

/// A 32-bit integer is read lowest byte first.
pub proof fn lemma_read_32(s: Seq<u8>, at: int)
    ensures
        U32::at(s, at).value() == le32(s, at),
{
    reveal(U32::value);
    reveal(U16::value);
}

/// A 64-bit integer is read lowest byte first.
pub proof fn lemma_read_64(s: Seq<u8>, at: int)
    ensures
        U64::at(s, at).value() == le64(s, at),
{
    reveal(U64::value);
    lemma_read_32(s, at);
    lemma_read_32(s, at + 4);
}

} // verus!
