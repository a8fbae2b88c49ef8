//! Checksums of contents that come in chunks.
use crate::error::Error;
use vstd::prelude::*;

verus! {

/// A remainder moved on by one bit, in the reflected order of bits: the polynomial is subtracted
/// where the bit that falls out is set.
pub open spec fn bit_step(rem: u32) -> u32 {
    if rem & 1 == 1 {
        (rem >> 1) ^ 0xedb8_8320
    } else {
        rem >> 1
    }
}

/// A remainder moved on by some bits.
pub open spec fn bit_steps(rem: u32, n: nat) -> u32
    decreases n,
{
    if n == 0 {
        rem
    } else {
        bit_step(bit_steps(rem, (n - 1) as nat))
    }
}

/// A remainder moved on by some bytes.
pub open spec fn remainder(rem: u32, data: Seq<u8>) -> u32
    decreases data.len(),
{
    if data.len() == 0 {
        rem
    } else {
        bit_steps(remainder(rem, data.drop_last()) ^ (data.last() as u32), 8)
    }
}

/// The CRC32 checksum of a content that starts with bytes whose checksum is `crc` and goes on with
/// `data`. It is the complement of the remainder.
#[verifier::opaque]
pub open spec fn crc32_from(crc: u32, data: Seq<u8>) -> u32 {
    !remainder(!crc, data)
}

/// The CRC32 checksum of a content.
pub open spec fn crc32_of(data: Seq<u8>) -> u32 {
    crc32_from(0, data)
}

/// Moving on by some bytes and then by others is moving on by all of them.
proof fn lemma_remainder_concat(rem: u32, a: Seq<u8>, b: Seq<u8>)
    ensures
        remainder(rem, a + b) == remainder(remainder(rem, a), b),
    decreases b.len(),
{
    if b.len() == 0 {
        assert(a + b =~= a);
    } else {
        assert((a + b).drop_last() =~= a + b.drop_last());
        lemma_remainder_concat(rem, a, b.drop_last());
    }
}

/// The checksum of a content in two parts is that of the second part, started with that of the
/// first.
pub proof fn lemma_concat(crc: u32, a: Seq<u8>, b: Seq<u8>)
    ensures
        crc32_from(crc, a + b) == crc32_from(crc32_from(crc, a), b),
{
    reveal(crc32_from);
    let rem = remainder(!crc, a);
    assert(!!rem == rem) by (bit_vector);
    lemma_remainder_concat(!crc, a, b);
}

/// Nothing is changed by an empty part, and the checksum of an empty content is 0.
pub proof fn lemma_empty(crc: u32)
    ensures
        crc32_from(crc, Seq::empty()) == crc,
{
    reveal(crc32_from);
    assert(!!crc == crc) by (bit_vector);
}

/// `crc32fast::Hasher`, started with `new_with_initial`, fed with `update` and read with
/// `finalize`. The state of the hasher is the checksum of what it was fed, by the polynomial
/// 0x04c11db7 in reflected order, and it goes on from the checksum that it is started with.
#[verifier::external_body]
fn crc32_update(crc: u32, data: &[u8]) -> (r: u32)
    ensures
        r == crc32_from(crc, data@),
{
    let mut hasher = crc32fast::Hasher::new_with_initial(crc);
    hasher.update(data);
    hasher.finalize()
}

/// Computes the CRC32 checksum of a content. That of an empty content is 0.
pub fn hash(data: &[u8]) -> (r: u32)
    ensures
        r == crc32_of(data@),
        data@.len() == 0 ==> r == 0,
{
    proof {
        lemma_empty(0);
        assert(data@.len() == 0 ==> data@ =~= Seq::<u8>::empty());
    }
    crc32_update(0, data)
}

/// The checksum of what has come so far of a content in chunks.
struct Running {
    crc: u32,
    seen: Ghost<Seq<u8>>,
}

impl Running {
    /// The checksum is that of the bytes seen.
    spec fn wf(self) -> bool {
        self.crc == crc32_of(self.seen@)
    }

    fn new() -> (r: Running)
        ensures
            r.wf(),
            r.seen@ == Seq::<u8>::empty(),
    {
        proof {
            lemma_empty(0);
        }
        Running { crc: 0, seen: Ghost(Seq::empty()) }
    }

    fn update(&mut self, data: &[u8])
        requires
            old(self).wf(),
        ensures
            final(self).wf(),
            final(self).seen@ == old(self).seen@ + data@,
    {
        let ghost seen = self.seen@;
        proof {
            lemma_concat(0, seen, data@);
        }
        self.crc = crc32_update(self.crc, data);
        self.seen = Ghost(seen + data@);
    }
}

/// Checks that a content that comes in chunks has the expected checksum.
pub struct Crc32Checker {
    running: Running,
    expected: u32,
}

impl Crc32Checker {
    /// The checksum kept is that of the bytes seen.
    pub closed spec fn wf(self) -> bool {
        self.running.wf()
    }

    /// The bytes that have come so far.
    pub closed spec fn seen(self) -> Seq<u8> {
        self.running.seen@
    }

    /// The checksum that the whole content is expected to have.
    pub closed spec fn spec_expected(self) -> u32 {
        self.expected
    }

    /// Expects a content with this checksum.
    pub fn new(expected: u32) -> (r: Crc32Checker)
        ensures
            r.wf(),
            r.seen() == Seq::<u8>::empty(),
            r.spec_expected() == expected,
    {
        Crc32Checker { running: Running::new(), expected }
    }

    /// Takes note of a chunk. An empty chunk is the end of the content, where the checksum is
    /// checked.
    pub fn read(&mut self, chunk: &[u8]) -> (r: Result<(), Error>)
        requires
            old(self).wf(),
        ensures
            final(self).wf(),
            final(self).seen() == old(self).seen() + chunk@,
            final(self).spec_expected() == old(self).spec_expected(),
            r == (if chunk@.len() == 0 && crc32_of(old(self).seen()) != old(self).spec_expected() {
                Err::<(), Error>(Error::BadCrc32)
            } else {
                Ok(())
            }),
    {
        if chunk.len() == 0 && self.running.crc != self.expected {
            assert(self.seen() + chunk@ =~= self.seen());
            return Err(Error::BadCrc32);
        }
        self.running.update(chunk);
        Ok(())
    }
}

/// Computes the checksum of a content that comes in chunks.
pub struct Crc32Writer {
    running: Running,
}

impl Crc32Writer {
    /// The checksum kept is that of the bytes seen.
    pub closed spec fn wf(self) -> bool {
        self.running.wf()
    }

    /// The bytes that have come so far.
    pub closed spec fn seen(self) -> Seq<u8> {
        self.running.seen@
    }

    /// Starts with no bytes.
    pub fn new() -> (r: Crc32Writer)
        ensures
            r.wf(),
            r.seen() == Seq::<u8>::empty(),
    {
        Crc32Writer { running: Running::new() }
    }

    /// Takes note of a chunk.
    pub fn write(&mut self, chunk: &[u8])
        requires
            old(self).wf(),
        ensures
            final(self).wf(),
            final(self).seen() == old(self).seen() + chunk@,
    {
        self.running.update(chunk);
    }

    /// Returns the checksum of the bytes that have come so far.
    pub fn result(&self) -> (r: u32)
        requires
            self.wf(),
        ensures
            r == crc32_of(self.seen()),
    {
        self.running.crc
    }
}

} // verus!
