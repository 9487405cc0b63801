//! Fixed-width integers as bytes, in both byte orders, and the lexicographic
//! order on byte strings.

use vstd::prelude::*;

verus! {

/// `256` to the power `n`.
pub open spec fn pow256(n: nat) -> nat
    decreases n,
{
    if n == 0 {
        1
    } else {
        256 * pow256((n - 1) as nat)
    }
}

/// The number that `s` spells with its least significant byte first.
pub open spec fn le_nat(s: Seq<u8>) -> nat
    decreases s.len(),
{
    if s.len() == 0 {
        0
    } else {
        s[0] as nat + 256 * le_nat(s.drop_first())
    }
}

/// The `n` low bytes of `x`, least significant first.
pub open spec fn le_seq(x: nat, n: nat) -> Seq<u8>
    decreases n,
{
    if n == 0 {
        Seq::empty()
    } else {
        seq![(x % 256) as u8] + le_seq(x / 256, (n - 1) as nat)
    }
}

/// The number that `s` spells with its most significant byte first.
pub open spec fn be_nat(s: Seq<u8>) -> nat
    decreases s.len(),
{
    if s.len() == 0 {
        0
    } else {
        256 * be_nat(s.drop_last()) + s.last() as nat
    }
}

/// The `n` low bytes of `x`, most significant first.
pub open spec fn be_seq(x: nat, n: nat) -> Seq<u8>
    decreases n,
{
    if n == 0 {
        Seq::empty()
    } else {
        be_seq(x / 256, (n - 1) as nat).push((x % 256) as u8)
    }
}

/// `a` comes strictly before `b` in the lexicographic order on bytes.
pub open spec fn lex_lt(a: Seq<u8>, b: Seq<u8>) -> bool
    decreases a.len(),
{
    if b.len() == 0 {
        false
    } else if a.len() == 0 {
        true
    } else if a[0] != b[0] {
        a[0] < b[0]
    } else {
        lex_lt(a.drop_first(), b.drop_first())
    }
}

/// `a` is a prefix of `b`.
pub open spec fn is_prefix(a: Seq<u8>, b: Seq<u8>) -> bool {
    a.len() <= b.len() && b.take(a.len() as int) == a
}

pub proof fn lemma_pow256()
    ensures
        pow256(0) == 1,
        pow256(1) == 0x100,
        pow256(2) == 0x1_0000,
        pow256(4) == 0x1_0000_0000,
        pow256(8) == 0x1_0000_0000_0000_0000,
{
    reveal_with_fuel(pow256, 9);
}

pub proof fn lemma_le_seq_len(x: nat, n: nat)
    ensures
        le_seq(x, n).len() == n,
    decreases n,
{
    if n > 0 {
        lemma_le_seq_len(x / 256, (n - 1) as nat);
    }
}

/// Spelling a number out and reading it back gives the number.
pub proof fn lemma_le_round_trip(x: nat, n: nat)
    requires
        x < pow256(n),
    ensures
        le_nat(le_seq(x, n)) == x,
    decreases n,
{
    if n > 0 {
        assert(x / 256 < pow256((n - 1) as nat));
        lemma_le_round_trip(x / 256, (n - 1) as nat);
        assert(le_seq(x, n).drop_first() =~= le_seq(x / 256, (n - 1) as nat));
    }
}

/// Reading bytes and spelling the number out again gives the bytes.
pub proof fn lemma_le_round_trip_bytes(s: Seq<u8>)
    ensures
        le_seq(le_nat(s), s.len()) == s,
        le_nat(s) < pow256(s.len()),
    decreases s.len(),
{
    if s.len() > 0 {
        lemma_le_round_trip_bytes(s.drop_first());
        let t = le_nat(s.drop_first());
        assert(le_nat(s) % 256 == s[0] as nat);
        assert(le_nat(s) / 256 == t);
        assert(le_seq(le_nat(s), s.len()) =~= s);
    }
}

pub proof fn lemma_be_seq_len(x: nat, n: nat)
    ensures
        be_seq(x, n).len() == n,
    decreases n,
{
    if n > 0 {
        lemma_be_seq_len(x / 256, (n - 1) as nat);
    }
}

/// Spelling a number out and reading it back gives the number.
pub proof fn lemma_be_round_trip(x: nat, n: nat)
    requires
        x < pow256(n),
    ensures
        be_nat(be_seq(x, n)) == x,
    decreases n,
{
    if n > 0 {
        assert(x / 256 < pow256((n - 1) as nat));
        lemma_be_round_trip(x / 256, (n - 1) as nat);
        assert(be_seq(x, n).drop_last() =~= be_seq(x / 256, (n - 1) as nat));
    }
}

pub proof fn lemma_be_bound(s: Seq<u8>)
    ensures
        be_nat(s) < pow256(s.len()),
    decreases s.len(),
{
    if s.len() > 0 {
        lemma_be_bound(s.drop_last());
    }
}

/// A shared first part does not matter to the order.
pub proof fn lemma_lex_common_prefix(p: Seq<u8>, a: Seq<u8>, b: Seq<u8>)
    ensures
        lex_lt(p + a, p + b) == lex_lt(a, b),
    decreases p.len(),
{
    if p.len() == 0 {
        assert(p + a =~= a);
        assert(p + b =~= b);
    } else {
        lemma_lex_common_prefix(p.drop_first(), a, b);
        assert((p + a).drop_first() =~= p.drop_first() + a);
        assert((p + b).drop_first() =~= p.drop_first() + b);
    }
}

/// Where neither of two strings is a prefix of the other, what follows them
/// does not matter to the order.
pub proof fn lemma_lex_decided(a: Seq<u8>, b: Seq<u8>, x: Seq<u8>, y: Seq<u8>)
    requires
        !is_prefix(a, b),
        !is_prefix(b, a),
    ensures
        lex_lt(a + x, b + y) == lex_lt(a, b),
    decreases a.len(),
{
    if a.len() == 0 {
        assert(b.take(0) =~= a);
    } else if b.len() == 0 {
        assert(a.take(0) =~= b);
    } else {
        assert((a + x)[0] == a[0]);
        assert((b + y)[0] == b[0]);
        if a[0] == b[0] {
            let at = a.drop_first();
            let bt = b.drop_first();
            if is_prefix(at, bt) {
                assert(b.take(a.len() as int) =~= seq![a[0]] + bt.take(at.len() as int));
                assert(a =~= seq![a[0]] + at);
            }
            if is_prefix(bt, at) {
                assert(a.take(b.len() as int) =~= seq![b[0]] + at.take(bt.len() as int));
                assert(b =~= seq![b[0]] + bt);
            }
            lemma_lex_decided(at, bt, x, y);
            assert((a + x).drop_first() =~= at + x);
            assert((b + y).drop_first() =~= bt + y);
        }
    }
}

/// Nothing comes before itself.
pub proof fn lemma_lex_irreflexive(a: Seq<u8>)
    ensures
        !lex_lt(a, a),
    decreases a.len(),
{
    if a.len() > 0 {
        lemma_lex_irreflexive(a.drop_first());
    }
}

/// Two different strings are ordered one way or the other, never both.
pub proof fn lemma_lex_total(a: Seq<u8>, b: Seq<u8>)
    ensures
        a != b ==> (lex_lt(a, b) <==> !lex_lt(b, a)),
    decreases a.len(),
{
    if a.len() == 0 || b.len() == 0 {
        assert(a.len() == 0 && b.len() == 0 ==> a =~= b);
    } else if a[0] == b[0] {
        lemma_lex_total(a.drop_first(), b.drop_first());
        if a.drop_first() == b.drop_first() {
            assert(a =~= seq![a[0]] + a.drop_first());
            assert(b =~= seq![b[0]] + b.drop_first());
        }
    }
}

/// Lexicographic order is transitive.
pub proof fn lemma_lex_trans(a: Seq<u8>, b: Seq<u8>, c: Seq<u8>)
    requires
        lex_lt(a, b),
        lex_lt(b, c),
    ensures
        lex_lt(a, c),
    decreases a.len(),
{
    if a.len() > 0 && a[0] == b[0] && b[0] == c[0] {
        lemma_lex_trans(a.drop_first(), b.drop_first(), c.drop_first());
    }
}

/// Appending one byte each to two strings of one length: the strings decide,
/// then the bytes.
proof fn lemma_lex_push(a: Seq<u8>, b: Seq<u8>, x: u8, y: u8)
    requires
        a.len() == b.len(),
    ensures
        lex_lt(a.push(x), b.push(y)) == (lex_lt(a, b) || (a == b && x < y)),
    decreases a.len(),
{
    if a.len() == 0 {
        assert(a =~= b);
        reveal_with_fuel(lex_lt, 2);
    } else {
        assert(a.push(x)[0] == a[0]);
        assert(b.push(y)[0] == b[0]);
        if a[0] == b[0] {
            lemma_lex_push(a.drop_first(), b.drop_first(), x, y);
            assert(a.push(x).drop_first() =~= a.drop_first().push(x));
            assert(b.push(y).drop_first() =~= b.drop_first().push(y));
            if a.drop_first() == b.drop_first() {
                assert(a =~= seq![a[0]] + a.drop_first());
                assert(b =~= seq![b[0]] + b.drop_first());
                assert(a == b);
            }
        }
    }
}

/// Numbers of one width, most significant byte first, are ordered as their
/// bytes are.
pub proof fn lemma_be_order(x: nat, y: nat, n: nat)
    requires
        x < pow256(n),
        y < pow256(n),
    ensures
        lex_lt(be_seq(x, n), be_seq(y, n)) == (x < y),
        be_seq(x, n) == be_seq(y, n) ==> x == y,
    decreases n,
{
    if n > 0 {
        let m = (n - 1) as nat;
        assert(x / 256 < pow256(m) && y / 256 < pow256(m));
        lemma_be_order(x / 256, y / 256, m);
        lemma_be_order(y / 256, x / 256, m);
        lemma_be_seq_len(x / 256, m);
        lemma_be_seq_len(y / 256, m);
        lemma_lex_push(be_seq(x / 256, m), be_seq(y / 256, m), (x % 256) as u8, (y % 256) as u8);
        lemma_be_round_trip(x, n);
        lemma_be_round_trip(y, n);
        if x / 256 == y / 256 {
        } else if x / 256 < y / 256 {
        } else {
            lemma_lex_total(be_seq(x / 256, m), be_seq(y / 256, m));
        }
    }
}

/// One byte string comes before another exactly where, behind what they share,
/// it ends first or has the smaller byte.
pub proof fn law_first_difference_decides(a: Seq<u8>, b: Seq<u8>)
    ensures
        lex_lt(a, b) <==> exists|k: int|
            0 <= k <= a.len() && k < b.len() && a.take(k) == #[trigger] b.take(k) && (k == a.len()
                || a[k] < b[k]),
    decreases a.len(),
{
    if b.len() > 0 {
        if a.len() == 0 || a[0] != b[0] {
            assert(a.take(0) =~= b.take(0));
            assert forall|k: int| 0 < k <= a.len() && k < b.len() implies a.take(k)
                != #[trigger] b.take(k) by {
                if a.take(k) == b.take(k) {
                    assert(a.take(k)[0] == b.take(k)[0]);
                }
            }
        } else {
            let at = a.drop_first();
            let bt = b.drop_first();
            law_first_difference_decides(at, bt);
            if lex_lt(a, b) {
                let k = choose|k: int|
                    0 <= k <= at.len() && k < bt.len() && at.take(k) == #[trigger] bt.take(k) && (k
                        == at.len() || at[k] < bt[k]);
                assert(a.take(k + 1) =~= seq![a[0]] + at.take(k));
                assert(b.take(k + 1) =~= seq![b[0]] + bt.take(k));
            }
            assert forall|k: int|
                0 <= k <= a.len() && k < b.len() && a.take(k) == #[trigger] b.take(k) && (k
                    == a.len() || a[k] < b[k]) implies lex_lt(a, b) by {
                assert(at.take(k - 1) =~= a.take(k).drop_first());
                assert(bt.take(k - 1) =~= b.take(k).drop_first());
            }
        }
    }
}

/// The bytes of a number, least significant first, are its digits to the base
/// 256, and they spell the number.
pub proof fn law_little_endian_digits(x: nat, n: nat, i: int)
    requires
        0 <= i < n,
    ensures
        le_seq(x, n).len() == n,
        le_seq(x, n)[i] == (x as int / vstd::arithmetic::power::pow(256, i as nat)) % 256,
        x < vstd::arithmetic::power::pow(256, n) ==> le_nat(le_seq(x, n)) == x,
    decreases n,
{
    lemma_le_seq_len(x, n);
    lemma_is_power(n);
    if x < vstd::arithmetic::power::pow(256, n) {
        lemma_le_round_trip(x, n);
    }
    lemma_le_seq_len(x / 256, (n - 1) as nat);
    if i > 0 {
        law_little_endian_digits(x / 256, (n - 1) as nat, i - 1);
        lemma_shifted(x, i as nat);
    } else {
        vstd::arithmetic::power::lemma_pow0(256);
    }
}

/// The bytes of a number, most significant first, are its digits to the base
/// 256, and they spell the number.
pub proof fn law_big_endian_digits(x: nat, n: nat, i: int)
    requires
        0 <= i < n,
    ensures
        be_seq(x, n).len() == n,
        be_seq(x, n)[n - 1 - i] == (x as int / vstd::arithmetic::power::pow(256, i as nat)) % 256,
        x < vstd::arithmetic::power::pow(256, n) ==> be_nat(be_seq(x, n)) == x,
    decreases n,
{
    lemma_be_seq_len(x, n);
    lemma_is_power(n);
    if x < vstd::arithmetic::power::pow(256, n) {
        lemma_be_round_trip(x, n);
    }
    lemma_be_seq_len(x / 256, (n - 1) as nat);
    if i > 0 {
        law_big_endian_digits(x / 256, (n - 1) as nat, i - 1);
        lemma_shifted(x, i as nat);
    } else {
        vstd::arithmetic::power::lemma_pow0(256);
    }
}

/// The number that bytes spell has those bytes for its digits, in either
/// order: no two strings of one length spell the same.
pub proof fn law_bytes_spell_one_number(s: Seq<u8>)
    ensures
        le_nat(s) < vstd::arithmetic::power::pow(256, s.len()),
        le_seq(le_nat(s), s.len()) == s,
        be_nat(s) < vstd::arithmetic::power::pow(256, s.len()),
        be_seq(be_nat(s), s.len()) == s,
{
    lemma_is_power(s.len());
    lemma_le_round_trip_bytes(s);
    lemma_be_bound(s);
    lemma_be_round_trip_bytes(s);
}

proof fn lemma_be_round_trip_bytes(s: Seq<u8>)
    ensures
        be_seq(be_nat(s), s.len()) == s,
    decreases s.len(),
{
    if s.len() > 0 {
        lemma_be_round_trip_bytes(s.drop_last());
        assert(be_nat(s) % 256 == s.last() as nat);
        assert(be_nat(s) / 256 == be_nat(s.drop_last()));
        assert(be_seq(be_nat(s), s.len()) =~= s);
    } else {
        assert(be_seq(be_nat(s), s.len()) =~= s);
    }
}

proof fn lemma_is_power(n: nat)
    ensures
        pow256(n) == vstd::arithmetic::power::pow(256, n),
    decreases n,
{
    reveal(vstd::arithmetic::power::pow);
    if n > 0 {
        lemma_is_power((n - 1) as nat);
    }
}

proof fn lemma_shifted(x: nat, i: nat)
    requires
        i > 0,
    ensures
        (x / 256) as int / vstd::arithmetic::power::pow(256, (i - 1) as nat) == x as int
            / vstd::arithmetic::power::pow(256, i),
{
    reveal(vstd::arithmetic::power::pow);
    let p = vstd::arithmetic::power::pow(256, (i - 1) as nat);
    vstd::arithmetic::power::lemma_pow_positive(256, (i - 1) as nat);
    vstd::arithmetic::div_mod::lemma_div_denominator(x as int, 256, p);
}

/// `true` iff `a` comes strictly before `b`.
pub fn bytes_lt(a: &[u8], b: &[u8]) -> (r: bool)
    ensures
        r == lex_lt(a@, b@),
{
    let mut i: usize = 0;
    proof {
        assert(a@.skip(0) =~= a@);
        assert(b@.skip(0) =~= b@);
    }
    while i < a.len() && i < b.len()
        invariant
            i <= a.len(),
            i <= b.len(),
            lex_lt(a@, b@) == lex_lt(a@.skip(i as int), b@.skip(i as int)),
        decreases a.len() - i,
    {
        proof {
            assert(a@.skip(i as int).drop_first() =~= a@.skip(i + 1));
            assert(b@.skip(i as int).drop_first() =~= b@.skip(i + 1));
        }
        if a[i] != b[i] {
            return a[i] < b[i];
        }
        i = i + 1;
    }
    i < b.len()
}

/// Number spelled by the first `n` bytes of `s`, least significant first.
pub fn get_le(s: &[u8], n: usize) -> (r: u64)
    requires
        n <= s.len(),
        n <= 8,
    ensures
        r == le_nat(s@.take(n as int)),
{
    let mut r: u64 = 0;
    let mut i: usize = n;
    proof {
        assert(s@.subrange(n as int, n as int) =~= Seq::<u8>::empty());
    }
    while i > 0
        invariant
            i <= n,
            n <= 8,
            n <= s.len(),
            r == le_nat(s@.subrange(i as int, n as int)),
        decreases i,
    {
        i = i - 1;
        proof {
            let t = s@.subrange(i as int, n as int);
            assert(t.drop_first() =~= s@.subrange(i + 1, n as int));
            lemma_le_round_trip_bytes(t);
            lemma_pow256_mono(t.len(), 8);
            lemma_pow256();
        }
        r = r * 256 + s[i] as u64;
    }
    proof {
        assert(s@.subrange(0, n as int) =~= s@.take(n as int));
    }
    r
}

pub proof fn lemma_pow256_mono(m: nat, n: nat)
    requires
        m <= n,
    ensures
        0 < pow256(m) <= pow256(n),
    decreases n,
{
    if n > 0 {
        if m < n {
            lemma_pow256_mono(m, (n - 1) as nat);
        } else {
            lemma_pow256_mono((m - 1) as nat, (n - 1) as nat);
        }
    }
}

/// Append the `n` low bytes of `x` to `out`, least significant first.
pub fn push_le(out: &mut Vec<u8>, x: u64, n: usize)
    ensures
        final(out)@ == old(out)@ + le_seq(x as nat, n as nat),
{
    let mut rest: u64 = x;
    let mut i: usize = 0;
    while i < n
        invariant
            i <= n,
            old(out)@ + le_seq(x as nat, n as nat) == out@ + le_seq(rest as nat, (n - i) as nat),
        decreases n - i,
    {
        let ghost before = out@;
        out.push((rest % 256) as u8);
        proof {
            assert(before + le_seq(rest as nat, (n - i) as nat) =~= out@ + le_seq(
                (rest / 256) as nat,
                (n - i - 1) as nat,
            ));
        }
        rest = rest / 256;
        i = i + 1;
    }
    proof {
        assert(out@ + le_seq(rest as nat, 0) =~= out@);
    }
}

/// Append the `n` low bytes of `x` to `out`, most significant first.
pub fn push_be(out: &mut Vec<u8>, x: u64, n: usize)
    ensures
        final(out)@ == old(out)@ + be_seq(x as nat, n as nat),
    decreases n,
{
    if n > 0 {
        push_be(out, x / 256, n - 1);
        out.push((x % 256) as u8);
    }
    proof {
        assert(out@ =~= old(out)@ + be_seq(x as nat, n as nat));
    }
}

/// Number spelled by `s`, most significant byte first.
pub fn get_be(s: &[u8]) -> (r: u64)
    requires
        s.len() <= 8,
    ensures
        r == be_nat(s@),
{
    let mut r: u64 = 0;
    let mut i: usize = 0;
    proof {
        assert(s@.take(0) =~= Seq::<u8>::empty());
    }
    while i < s.len()
        invariant
            i <= s.len(),
            s.len() <= 8,
            r == be_nat(s@.take(i as int)),
        decreases s.len() - i,
    {
        proof {
            let t = s@.take(i + 1);
            assert(t.drop_last() =~= s@.take(i as int));
            lemma_be_bound(t);
            lemma_pow256_mono(t.len(), 8);
            lemma_pow256();
        }
        r = r * 256 + s[i] as u64;
        i = i + 1;
    }
    proof {
        assert(s@.take(s.len() as int) =~= s@);
    }
    r
}

} // verus!
