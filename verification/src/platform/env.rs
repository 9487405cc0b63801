//! Sources of entropy.

use crate::bytes::{get_le, le_nat, lemma_le_round_trip_bytes, lemma_pow256};
use rand::{RngCore, SeedableRng};
use vstd::prelude::*;

verus! {

/// A source of bytes for salts.
pub trait Entropy: Send + Sync {
    /// `bytes` may be what the source gives next. Nothing runs this; an
    /// implementation that is not itself verified need not give it.
    open spec fn may_give(&self, bytes: Seq<u8>) -> bool {
        true
    }

    /// Fill `buf`. Never fails.
    fn fill_bytes(&mut self, buf: &mut [u8])
        ensures
            final(buf)@.len() == old(buf)@.len(),
            old(self).may_give(final(buf)@),
    ;

    /// Draw four bytes and read them with the least significant first.
    fn next_u32(&mut self) -> (r: u32)
        ensures
            exists|b: Seq<u8>| #[trigger] old(self).may_give(b) && b.len() == 4 && r == le_nat(b),
    {
        let mut b: [u8; 4] = [0u8; 4];
        self.fill_bytes(vstd::array::ref_mut_array_unsizing_coercion(&mut b));
        proof {
            assert(b@.take(4) =~= b@);
            lemma_le_round_trip_bytes(b@);
            lemma_pow256();
        }
        get_le(b.as_slice(), 4) as u32
    }
}

/// A source of entropy, as a log keeps it. Handing one of these on loses
/// nothing of what is known of the source.
pub struct Kept<E> {
    pub source: E,
}

/// `salt` is a number that `source` may give next.
pub open spec fn may_draw<E: Entropy + ?Sized>(source: &E, salt: u32) -> bool {
    exists|b: Seq<u8>| #[trigger] source.may_give(b) && b.len() == 4 && salt == le_nat(b)
}

/// Fill `buf` from the operating system; `false` if that failed.
///
/// Calls `getrandom::getrandom`, which leaves anything in the buffer where it
/// fails. Nothing is claimed of the bytes.
#[verifier::external_body]
fn getrandom_fill(buf: &mut [u8]) -> (r: bool)
    ensures
        final(buf)@.len() == old(buf)@.len(),
{
    getrandom::getrandom(buf).is_ok()
}

/// Fill `buf` from the thread's generator.
///
/// Calls `fill_bytes` on `rand::rng()`. Nothing is claimed of the bytes.
#[verifier::external_body]
fn thread_rng_fill(buf: &mut [u8])
    ensures
        final(buf)@.len() == old(buf)@.len(),
{
    rand::rng().fill_bytes(buf);
}

/// Entropy from the operating system.
#[derive(Debug, Clone, Copy)]
pub struct OsEntropy;

impl Default for OsEntropy {
    fn default() -> (r: Self) {
        OsEntropy
    }
}

/// Fill `buf` from the operating system, or where that fails from the
/// thread's generator.
fn os_fill(buf: &mut [u8])
    ensures
        final(buf)@.len() == old(buf)@.len(),
{
    if !getrandom_fill(buf) {
        thread_rng_fill(buf);
    }
}

impl Entropy for OsEntropy {
    fn fill_bytes(&mut self, buf: &mut [u8]) {
        os_fill(buf);
    }
}

/// What a `ChaCha8Rng` seeded with `seed` writes into `len` bytes from word
/// `word_pos` of its stream on.
pub uninterp spec fn chacha8_bytes(seed: u64, word_pos: u128, len: nat) -> Seq<u8>;

/// Fill `buf` from a given place of a seeded stream.
///
/// Calls `rand_chacha::ChaCha8Rng::seed_from_u64`, moves to the place with
/// `set_word_pos`, and calls `fill_bytes`. Claimed: the bytes are a function
/// of the seed, the place and the number of bytes. The stream is counted in
/// words of four bytes, and `fill_bytes` takes whole words, so a filling that
/// follows one of `n` bytes begins `n / 4` words later, rounded up.
#[verifier::external_body]
fn chacha8_fill(seed: u64, word_pos: u128, buf: &mut [u8])
    ensures
        final(buf)@.len() == old(buf)@.len(),
        final(buf)@ == chacha8_bytes(seed, word_pos, old(buf)@.len()),
{
    let mut rng = rand_chacha::ChaCha8Rng::seed_from_u64(seed);
    rng.set_word_pos(word_pos);
    rng.fill_bytes(buf);
}

/// Words that a filling of `len` bytes takes.
pub open spec fn words_for(len: nat) -> nat {
    (len + 3) / 4
}

/// Entropy that a seed determines: two sources made from one seed give the
/// same bytes to the same sequence of draws.
#[derive(Debug)]
pub struct SeededEntropy {
    seed: u64,
    word_pos: u128,
}

impl SeededEntropy {
    /// The seed.
    pub closed spec fn seed(&self) -> u64 {
        self.seed
    }

    /// How many words have been drawn.
    pub closed spec fn drawn(&self) -> u128 {
        self.word_pos
    }

    /// A source that has given nothing yet.
    pub fn new(seed: u64) -> (r: Self)
        ensures
            r.seed() == seed,
            r.drawn() == 0,
    {
        SeededEntropy { seed, word_pos: 0 }
    }
}

impl Entropy for SeededEntropy {
    open spec fn may_give(&self, bytes: Seq<u8>) -> bool {
        bytes == chacha8_bytes(self.seed(), self.drawn(), bytes.len())
    }

    fn fill_bytes(&mut self, buf: &mut [u8])
        ensures
            final(buf)@ == chacha8_bytes(
                old(self).seed(),
                old(self).drawn(),
                old(buf)@.len(),
            ),
            final(self).seed() == old(self).seed(),
            old(self).drawn() + words_for(old(buf)@.len()) <= u128::MAX ==> final(self).drawn()
                == old(self).drawn() + words_for(old(buf)@.len()),
    {
        let n: usize = buf.len();
        chacha8_fill(self.seed, self.word_pos, buf);
        let mut words: u128 = (n / 4) as u128;
        if n % 4 != 0 {
            words = words + 1;
        }
        self.word_pos = self.word_pos.wrapping_add(words);
    }

    fn next_u32(&mut self) -> (r: u32)
        ensures
            r == le_nat(chacha8_bytes(old(self).seed(), old(self).drawn(), 4)),
            final(self).seed() == old(self).seed(),
            old(self).drawn() < u128::MAX ==> final(self).drawn() == old(self).drawn() + 1,
    {
        let mut b: [u8; 4] = [0u8; 4];
        self.fill_bytes(vstd::array::ref_mut_array_unsizing_coercion(&mut b));
        proof {
            assert(b@.take(4) =~= b@);
            lemma_le_round_trip_bytes(b@);
            lemma_pow256();
        }
        get_le(b.as_slice(), 4) as u32
    }
}

/// A filling takes as many words of four bytes as hold it, and no more.
pub proof fn law_words_of_a_filling(len: nat)
    ensures
        4 * words_for(len) >= len,
        len > 0 ==> 4 * (words_for(len) - 1) < len,
        words_for(0) == 0,
{
}

} // verus!
