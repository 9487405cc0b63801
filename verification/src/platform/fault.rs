//! What an injected fault does to a write, given the numbers drawn for it.

use vstd::prelude::*;

verus! {

/// Counts operations, to crash at a given one.
#[derive(Debug)]
pub struct OpCounter {
    crash_at: u64,
    count: u64,
}

impl OpCounter {
    /// The operation to crash at; zero stands for none.
    pub closed spec fn crash_at(self) -> u64 {
        self.crash_at
    }

    /// Number of operations so far.
    pub closed spec fn count(self) -> u64 {
        self.count
    }

    /// A counter that has counted nothing yet.
    pub fn new(crash_at: u64) -> (r: Self)
        ensures
            r.crash_at() == crash_at,
            r.count() == 0,
    {
        OpCounter { crash_at, count: 0 }
    }

    /// Count one operation; `true` iff it is the one to crash at.
    pub fn count_op(&mut self) -> (r: bool)
        ensures
            final(self).crash_at() == old(self).crash_at(),
            final(self).count() == if old(self).count() < u64::MAX {
                old(self).count() + 1
            } else {
                u64::MAX as int
            },
            r == (old(self).crash_at() != 0 && final(self).count() == old(self).crash_at()),
    {
        self.count = self.count.saturating_add(1);
        self.crash_at != 0 && self.count == self.crash_at
    }
}

/// How many of `len` bytes a torn write leaves on disk, given a drawn number:
/// never all of them.
pub fn torn_len(drawn: u64, len: usize) -> (r: usize)
    ensures
        r == if len <= 1 {
            0
        } else {
            drawn as int % len as int
        },
        len > 0 ==> r < len,
{
    if len <= 1 {
        return 0;
    }
    (drawn % len as u64) as usize
}

/// `buf` with one bit flipped: the byte and the bit are drawn.
pub open spec fn bit_flipped(buf: Seq<u8>, drawn_byte: u64, drawn_bit: u32) -> Seq<u8> {
    let i = drawn_byte as int % buf.len() as int;
    buf.update(i, buf[i] ^ (1u8 << ((drawn_bit & 7) as u8)))
}

/// A copy of `buf` with one bit flipped.
pub fn flip_bit(buf: &[u8], drawn_byte: u64, drawn_bit: u32) -> (r: Vec<u8>)
    requires
        buf@.len() > 0,
    ensures
        r@ == bit_flipped(buf@, drawn_byte, drawn_bit),
{
    let mut out: Vec<u8> = Vec::new();
    let mut i: usize = 0;
    while i < buf.len()
        invariant
            i <= buf@.len(),
            out@ == buf@.take(i as int),
        decreases buf.len() - i,
    {
        out.push(buf[i]);
        proof {
            assert(buf@.take(i + 1) =~= buf@.take(i as int).push(buf@[i as int]));
        }
        i = i + 1;
    }
    let at: usize = (drawn_byte % buf.len() as u64) as usize;
    let low: u32 = drawn_bit & 7;
    proof {
        assert(low < 8) by (bit_vector)
            requires
                low == drawn_bit & 7,
        ;
    }
    let bit: u8 = low as u8;
    let byte: u8 = out[at];
    out[at] = byte ^ (1u8 << bit);
    proof {
        assert(out@ =~= bit_flipped(buf@, drawn_byte, drawn_bit));
    }
    out
}

/// Flipping a bit changes one byte and nothing else.
pub proof fn law_bit_flip_changes_one_byte(buf: Seq<u8>, drawn_byte: u64, drawn_bit: u32, k: int)
    requires
        buf.len() > 0,
        0 <= k < buf.len(),
    ensures
        bit_flipped(buf, drawn_byte, drawn_bit).len() == buf.len(),
        bit_flipped(buf, drawn_byte, drawn_bit)[k] != buf[k] <==> k == drawn_byte as int
            % buf.len() as int,
{
    let i = drawn_byte as int % buf.len() as int;
    let b = buf[i];
    let low = drawn_bit & 7;
    assert(low < 8) by (bit_vector)
        requires
            low == drawn_bit & 7,
    ;
    let s = low as u8;
    assert(b ^ (1u8 << s) != b) by (bit_vector)
        requires
            s < 8,
    ;
}

/// Flipping a bit once more restores the bytes, and the bit that differs is the
/// drawn one of the eight.
pub proof fn law_flipping_twice_restores(buf: Seq<u8>, drawn_byte: u64, drawn_bit: u32)
    requires
        buf.len() > 0,
    ensures
        ({
            let i = drawn_byte as int % buf.len() as int;
            let once = bit_flipped(buf, drawn_byte, drawn_bit);
            let bit = (drawn_bit % 8) as u8;
            &&& bit_flipped(once, drawn_byte, drawn_bit) == buf
            &&& once[i] ^ buf[i] == 1u8 << bit
        }),
{
    let i = drawn_byte as int % buf.len() as int;
    let b = buf[i];
    let low = drawn_bit & 7;
    assert(low == drawn_bit % 8) by (bit_vector)
        requires
            low == drawn_bit & 7,
    ;
    let m = 1u8 << (low as u8);
    assert((b ^ m) ^ m == b && (b ^ m) ^ b == m) by (bit_vector);
    assert(bit_flipped(bit_flipped(buf, drawn_byte, drawn_bit), drawn_byte, drawn_bit) =~= buf);
}

} // verus!
