//! The keyed byte stream that drives the digest-seeded shuffle.
//!
//! The stream is a chain of MD5 digests: its first sixteen bytes are the
//! digest of the key, and every further block of sixteen is the digest of the
//! block before it. The stream is read in words of eight bytes, the first
//! byte of a word being its most significant.

use vstd::prelude::*;

verus! {

/// The MD5 digest of `data`, as RFC 1321 defines it.
pub uninterp spec fn md5_digest(data: Seq<u8>) -> Seq<u8>;

/// The number of bytes of a digest.
pub const DIGEST_LEN: usize = 16;

/// Calls `md5::compute` of the `md5` crate. Nothing is proved of it: the
/// contract gives the result its name, the digest of the bytes handed in, and
/// states its length, which is that of the array the crate returns.
#[verifier::external_body]
fn md5_compute(data: &[u8]) -> (digest: Vec<u8>)
    ensures
        digest@ == md5_digest(data@),
        digest@.len() == DIGEST_LEN,
{
    md5::compute(data).0.to_vec()
}

/// Block `c` of the stream of `key`.
pub open spec fn stream_block(key: Seq<u8>, c: nat) -> Seq<u8>
    decreases c,
{
    if c == 0 {
        md5_digest(key)
    } else {
        md5_digest(stream_block(key, (c - 1) as nat))
    }
}

/// The eight bytes of `block` from `o` on, read as one number, the first
/// byte the most significant.
pub open spec fn word_at(block: Seq<u8>, o: int) -> int {
    block[o] * 0x0100_0000_0000_0000 + block[o + 1] * 0x0001_0000_0000_0000 + block[o + 2]
        * 0x0000_0100_0000_0000 + block[o + 3] * 0x0000_0001_0000_0000 + block[o + 4]
        * 0x0000_0000_0100_0000 + block[o + 5] * 0x0000_0000_0001_0000 + block[o + 6]
        * 0x0000_0000_0000_0100 + block[o + 7]
}

/// Word `w` of the stream of `key`: a block holds two words.
pub open spec fn stream_word(key: Seq<u8>, w: nat) -> int {
    word_at(stream_block(key, w / 2), (8 * (w % 2)) as int)
}

/// A reader of the stream of one key.
pub struct KeyStream {
    block: Vec<u8>,
    offset: usize,
    key: Ghost<Seq<u8>>,
    index: Ghost<nat>,
}

impl KeyStream {
    /// The key whose stream this is.
    pub closed spec fn key(&self) -> Seq<u8> {
        self.key@
    }

    /// The number of words read so far, which is the index of the next word.
    pub closed spec fn position(&self) -> nat {
        (2 * self.index@ + self.offset / 8) as nat
    }

    /// The reader holds one block of the stream and stands at a word
    /// boundary in it or at its end.
    pub closed spec fn well_formed(&self) -> bool {
        &&& self.block@ == stream_block(self.key@, self.index@)
        &&& self.block@.len() == DIGEST_LEN
        &&& (self.offset == 0 || self.offset == 8 || self.offset == 16)
    }

    /// A reader at the start of the stream of `key`.
    pub fn new(key: &[u8]) -> (stream: KeyStream)
        ensures
            stream.well_formed(),
            stream.key() == key@,
            stream.position() == 0,
    {
        KeyStream { block: md5_compute(key), offset: 0, key: Ghost(key@), index: Ghost(0) }
    }

    /// Reads the next word of the stream.
    pub fn next_word(&mut self) -> (word: u64)
        requires
            old(self).well_formed(),
        ensures
            final(self).well_formed(),
            final(self).key() == old(self).key(),
            final(self).position() == old(self).position() + 1,
            word == stream_word(old(self).key(), old(self).position()),
    {
        if self.offset == 16 {
            self.block = md5_compute(self.block.as_slice());
            self.offset = 0;
            self.index = Ghost((self.index@ + 1) as nat);
        }
        let o: usize = self.offset;
        let word: u64 = (self.block[o] as u64) * 0x0100_0000_0000_0000 + (self.block[o + 1] as u64)
            * 0x0001_0000_0000_0000 + (self.block[o + 2] as u64) * 0x0000_0100_0000_0000 + (
        self.block[o + 3] as u64) * 0x0000_0001_0000_0000 + (self.block[o + 4] as u64)
            * 0x0000_0000_0100_0000 + (self.block[o + 5] as u64) * 0x0000_0000_0001_0000 + (
        self.block[o + 6] as u64) * 0x0000_0000_0000_0100 + (self.block[o + 7] as u64);
        self.offset = o + 8;
        word
    }
}

} // verus!
