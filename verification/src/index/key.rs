//! Encoding of index keys such that the order of the bytes is the order of the
//! values.
//!
//! | value            | bytes                                                   |
//! |------------------|---------------------------------------------------------|
//! | null             | `00`                                                    |
//! | false, true      | `01`, `02`                                              |
//! | signed           | `10`, `11` or `12` for negative, zero or positive, then unless zero the number plus 2^63 in eight bytes |
//! | unsigned         | `20`, the number in eight bytes                         |
//! | floating point   | `30`, its place in the total order in eight bytes       |
//! | text             | `40`, the UTF-8 bytes, `00`                             |
//! | bytes            | `41`, their number in four bytes, the bytes             |
//!
//! Numbers are written with the most significant byte first. A composite key
//! is `80` and the encodings of its fields one after the other.
//!
//! Keys of different documents may be the same where the index is not unique.
//! The document id, in eight bytes, is then appended by whoever writes the
//! key.

use crate::bytes;
use crate::bytes::push_be;
use crate::codec;
use crate::codec::{Dynamic, Value};
use crate::error::Error;
use crate::index::spec;
use crate::index::spec::{IndexKind, IndexSpec};
use vstd::prelude::*;

verus! {

/// Bytes that the document id takes behind a key that is not unique.
pub const ENCODED_ID_SUFFIX_LEN: usize = 8;

/// First byte of a composite key.
pub const COMPOSITE_TAG: u8 = 0x80;

const TAG_NULL: u8 = 0x00;

const TAG_BOOL_FALSE: u8 = 0x01;

const TAG_BOOL_TRUE: u8 = 0x02;

const TAG_I64_NEG: u8 = 0x10;

const TAG_I64_ZERO: u8 = 0x11;

const TAG_I64_POS: u8 = 0x12;

const TAG_U64: u8 = 0x20;

const TAG_F64: u8 = 0x30;

const TAG_STRING: u8 = 0x40;

const TAG_BYTES: u8 = 0x41;

const STRING_TERMINATOR: u8 = 0x00;

/// The bytes of an encoded key.
#[derive(Debug, Clone, PartialEq, Eq, PartialOrd, Ord, Hash)]
pub struct EncodedIndexKey {
    bytes: Vec<u8>,
}

impl View for EncodedIndexKey {
    type V = Seq<u8>;

    closed spec fn view(&self) -> Seq<u8> {
        self.bytes@
    }
}

impl EncodedIndexKey {
    /// The bytes.
    pub fn as_bytes(&self) -> (r: &[u8])
        ensures
            r@ == self@,
    {
        self.bytes.as_slice()
    }

    /// The bytes.
    pub fn into_bytes(self) -> (r: Vec<u8>)
        ensures
            r@ == self@,
    {
        self.bytes
    }

    /// A key of the given bytes.
    pub fn from_bytes(bytes: Vec<u8>) -> (r: Self)
        ensures
            r@ == bytes@,
    {
        EncodedIndexKey { bytes }
    }

    /// Number of bytes.
    pub fn len(&self) -> (r: usize)
        ensures
            r == self@.len(),
    {
        self.bytes.len()
    }

    /// `true` iff there are no bytes.
    pub fn is_empty(&self) -> (r: bool)
        ensures
            r == (self@.len() == 0),
    {
        self.bytes.len() == 0
    }
}

/// Bytes that the document id takes behind a key that is not unique.
pub fn encoded_id_suffix_len() -> (r: usize)
    ensures
        r == ENCODED_ID_SUFFIX_LEN,
{
    ENCODED_ID_SUFFIX_LEN
}

/// Where a floating-point number of the given bits stands among all others:
/// the negative ones come first, those of the largest magnitude at the start.
pub open spec fn f64_rank(bits: u64) -> nat {
    if bits < 0x8000_0000_0000_0000 {
        (bits + 0x8000_0000_0000_0000) as nat
    } else {
        (u64::MAX - bits) as nat
    }
}

/// The encoding of a value.
pub open spec fn field_bytes(v: Value) -> Seq<u8> {
    match v {
        Value::Null => seq![0x00u8],
        Value::Bool(b) => if b {
            seq![0x02u8]
        } else {
            seq![0x01u8]
        },
        Value::I64(n) => if n == 0 {
            seq![0x11u8]
        } else {
            seq![if n < 0 {
                0x10u8
            } else {
                0x12u8
            }] + bytes::be_seq((n + 0x8000_0000_0000_0000) as nat, 8)
        },
        Value::U64(n) => seq![0x20u8] + bytes::be_seq(n as nat, 8),
        Value::F64(bits) => seq![0x30u8] + bytes::be_seq(f64_rank(bits), 8),
        Value::String(s) => seq![0x40u8] + codec::name_bytes(s) + seq![0x00u8],
        Value::Bytes(b) => seq![0x41u8] + bytes::be_seq(b.len(), 4) + b,
        _ => Seq::empty(),
    }
}

/// `s` holds no zero byte.
pub open spec fn no_nul(s: Seq<u8>) -> bool {
    forall|i: int| 0 <= i < s.len() ==> s[i] != 0
}

/// Why a value cannot be part of a key, if it cannot.
pub open spec fn field_error(v: Value) -> Option<Error> {
    match v {
        Value::String(s) => if no_nul(codec::name_bytes(s)) {
            None
        } else {
            Some(Error::InvalidArgument("index key: String value contains embedded NUL (0x00)"))
        },
        Value::Bytes(b) => if b.len() <= u32::MAX {
            None
        } else {
            Some(
                Error::InvalidArgument("index key: Bytes field exceeds 4 GiB length limit"),
            )
        },
        Value::Sequence(_) | Value::Mapping(_) | Value::Enum { .. } => Some(
            Error::InvalidArgument(
                "index key field must be a primitive Dynamic value (Null/Bool/I64/U64/F64/String/Bytes)",
            ),
        ),
        _ => None,
    }
}

/// The encodings of values, one after the other.
pub open spec fn fields_bytes(vs: Seq<Value>) -> Seq<u8>
    decreases vs.len(),
{
    if vs.len() == 0 {
        Seq::empty()
    } else {
        fields_bytes(vs.drop_last()) + field_bytes(vs.last())
    }
}

/// Why values cannot make a key: the first that cannot decides.
pub open spec fn fields_error(vs: Seq<Value>) -> Option<Error>
    decreases vs.len(),
{
    if vs.len() == 0 {
        None
    } else if fields_error(vs.drop_last()) is Some {
        fields_error(vs.drop_last())
    } else {
        field_error(vs.last())
    }
}

/// The key of values under an index of the given kind on the given number of
/// fields.
pub open spec fn key_bytes(kind: IndexKind, vs: Seq<Value>) -> Seq<u8> {
    if kind == IndexKind::Composite {
        seq![COMPOSITE_TAG] + fields_bytes(vs)
    } else {
        field_bytes(vs[0])
    }
}

/// Why an index of the given kind on the given number of fields cannot take
/// that many values.
pub open spec fn shape_error(kind: IndexKind, paths: nat, fields: nat) -> Option<Error> {
    if fields != paths {
        Some(Error::InvalidArgument("encode_index_key: field count disagrees with spec"))
    } else if kind != IndexKind::Composite && fields != 1 {
        Some(
            Error::InvalidArgument("encode_index_key: scalar indexes require exactly one field"),
        )
    } else if kind == IndexKind::Composite && fields < 2 {
        Some(
            Error::InvalidArgument(
                "encode_index_key: composite indexes require at least two fields",
            ),
        )
    } else {
        None
    }
}

/// Why there is no such key, if there is none.
pub open spec fn key_error(kind: IndexKind, paths: nat, vs: Seq<Value>) -> Option<Error> {
    match shape_error(kind, paths, vs.len()) {
        Some(e) => Some(e),
        None => fields_error(vs),
    }
}

/// Append the encoding of `value` to `out`.
fn write_one_into(value: &Dynamic, out: &mut Vec<u8>) -> (r: Result<(), Error>)
    ensures
        match field_error(value.value()) {
            Some(e) => r == Err::<(), Error>(e),
            None => r is Ok && final(out)@ == old(out)@ + field_bytes(value.value()),
        },
{
    let ghost before = out@;
    match value {
        Dynamic::Null => out.push(TAG_NULL),
        Dynamic::Bool(b) => if *b {
            out.push(TAG_BOOL_TRUE);
        } else {
            out.push(TAG_BOOL_FALSE);
        },
        Dynamic::I64(n) => write_i64(*n, out),
        Dynamic::U64(n) => write_u64(*n, out),
        Dynamic::F64(bits) => write_f64(*bits, out),
        Dynamic::String(s) => return write_string(s, out),
        Dynamic::Bytes(b) => return write_bytes(b.as_slice(), out),
        Dynamic::Sequence(_) | Dynamic::Mapping(_) | Dynamic::Enum { .. } => {
            return Err(
                Error::InvalidArgument(
                    "index key field must be a primitive Dynamic value (Null/Bool/I64/U64/F64/String/Bytes)",
                ),
            );
        },
    }
    proof {
        assert(out@ =~= before + field_bytes(value.value()));
    }
    Ok(())
}

fn write_i64(n: i64, out: &mut Vec<u8>)
    ensures
        final(out)@ == old(out)@ + field_bytes(Value::I64(n)),
{
    if n == 0 {
        out.push(TAG_I64_ZERO);
    } else {
        if n < 0 {
            out.push(TAG_I64_NEG);
        } else {
            out.push(TAG_I64_POS);
        }
        let moved: u64 = (n as i128 + 0x8000_0000_0000_0000) as u64;
        push_be(out, moved, 8);
    }
    proof {
        assert(out@ =~= old(out)@ + field_bytes(Value::I64(n)));
    }
}

fn write_u64(n: u64, out: &mut Vec<u8>)
    ensures
        final(out)@ == old(out)@ + field_bytes(Value::U64(n)),
{
    out.push(TAG_U64);
    push_be(out, n, 8);
    proof {
        assert(out@ =~= old(out)@ + field_bytes(Value::U64(n)));
    }
}

fn write_f64(bits: u64, out: &mut Vec<u8>)
    ensures
        final(out)@ == old(out)@ + field_bytes(Value::F64(bits)),
{
    out.push(TAG_F64);
    let rank: u64 = if bits < 0x8000_0000_0000_0000 {
        bits + 0x8000_0000_0000_0000
    } else {
        u64::MAX - bits
    };
    push_be(out, rank, 8);
    proof {
        assert(out@ =~= old(out)@ + field_bytes(Value::F64(bits)));
    }
}

fn write_string(s: &String, out: &mut Vec<u8>) -> (r: Result<(), Error>)
    ensures
        match field_error(Value::String(s@)) {
            Some(e) => r == Err::<(), Error>(e),
            None => r is Ok && final(out)@ == old(out)@ + field_bytes(Value::String(s@)),
        },
{
    let text: &[u8] = s.as_str().as_bytes();
    let mut i: usize = 0;
    while i < text.len()
        invariant
            i <= text@.len(),
            text@ == codec::name_bytes(s@),
            forall|j: int| 0 <= j < i ==> text@[j] != 0,
        decreases text.len() - i,
    {
        if text[i] == STRING_TERMINATOR {
            return Err(
                Error::InvalidArgument("index key: String value contains embedded NUL (0x00)"),
            );
        }
        i = i + 1;
    }
    out.push(TAG_STRING);
    out.extend_from_slice(text);
    out.push(STRING_TERMINATOR);
    proof {
        assert(out@ =~= old(out)@ + field_bytes(Value::String(s@)));
    }
    Ok(())
}

fn write_bytes(b: &[u8], out: &mut Vec<u8>) -> (r: Result<(), Error>)
    ensures
        match field_error(Value::Bytes(b@)) {
            Some(e) => r == Err::<(), Error>(e),
            None => r is Ok && final(out)@ == old(out)@ + field_bytes(Value::Bytes(b@)),
        },
{
    if b.len() as u64 > u32::MAX as u64 {
        return Err(Error::InvalidArgument("index key: Bytes field exceeds 4 GiB length limit"));
    }
    out.push(TAG_BYTES);
    push_be(out, b.len() as u64, 4);
    out.extend_from_slice(b);
    proof {
        assert(out@ =~= old(out)@ + field_bytes(Value::Bytes(b@)));
    }
    Ok(())
}

/// Encode one value.
pub fn encode_field(value: &Dynamic) -> (r: Result<EncodedIndexKey, Error>)
    ensures
        match field_error(value.value()) {
            Some(e) => r == Err::<EncodedIndexKey, Error>(e),
            None => r matches Ok(k) && k@ == field_bytes(value.value()),
        },
{
    let mut out: Vec<u8> = Vec::new();
    match write_one_into(value, &mut out) {
        Ok(_) => {
            proof {
                assert(out@ =~= field_bytes(value.value()));
            }
            Ok(EncodedIndexKey { bytes: out })
        },
        Err(e) => Err(e),
    }
}

/// Encode several values as one key.
fn encode_composite(fields: &[Dynamic]) -> (r: Result<EncodedIndexKey, Error>)
    ensures
        match fields_error(codec::values(fields@)) {
            Some(e) => r == Err::<EncodedIndexKey, Error>(e),
            None => r matches Ok(k) && k@ == seq![COMPOSITE_TAG] + fields_bytes(
                codec::values(fields@),
            ),
        },
{
    let ghost vs = codec::values(fields@);
    let mut out: Vec<u8> = Vec::new();
    out.push(COMPOSITE_TAG);
    let mut i: usize = 0;
    proof {
        codec::lemma_values(fields@);
        assert(vs.take(0) =~= Seq::<Value>::empty());
        assert(out@ =~= seq![COMPOSITE_TAG] + fields_bytes(vs.take(0)));
    }
    while i < fields.len()
        invariant
            i <= fields@.len(),
            vs == codec::values(fields@),
            vs.len() == fields@.len(),
            forall|j: int| 0 <= j < fields@.len() ==> #[trigger] vs[j] == fields@[j].value(),
            fields_error(vs.take(i as int)) is None,
            out@ == seq![COMPOSITE_TAG] + fields_bytes(vs.take(i as int)),
        decreases fields.len() - i,
    {
        let ghost before = out@;
        proof {
            assert(vs.take(i + 1).drop_last() =~= vs.take(i as int));
            assert(vs.take(i + 1).last() == vs[i as int]);
        }
        match write_one_into(&fields[i], &mut out) {
            Ok(_) => {},
            Err(e) => {
                proof {
                    lemma_first_error(vs, i + 1);
                }
                return Err(e);
            },
        }
        proof {
            assert(out@ =~= seq![COMPOSITE_TAG] + fields_bytes(vs.take(i + 1)));
        }
        i = i + 1;
    }
    proof {
        assert(vs.take(vs.len() as int) =~= vs);
    }
    Ok(EncodedIndexKey { bytes: out })
}

/// An error among the first values is the error of them all.
pub proof fn lemma_first_error(vs: Seq<Value>, n: int)
    requires
        0 <= n <= vs.len(),
        fields_error(vs.take(n)) is Some,
    ensures
        fields_error(vs) == fields_error(vs.take(n)),
    decreases vs.len() - n,
{
    if n < vs.len() {
        assert(vs.take(n + 1).drop_last() =~= vs.take(n));
        lemma_first_error(vs, n + 1);
    } else {
        assert(vs.take(n) =~= vs);
    }
}

/// Encode the fields of a document for the index `spec`.
pub fn encode_index_key(spec: &IndexSpec, fields: &[Dynamic]) -> (r: Result<EncodedIndexKey, Error>)
    ensures
        match key_error(spec.kind, spec.key_paths@.len(), codec::values(fields@)) {
            Some(e) => r == Err::<EncodedIndexKey, Error>(e),
            None => r matches Ok(k) && k@ == key_bytes(spec.kind, codec::values(fields@)),
        },
{
    encode_index_key_parts(spec.kind, spec.key_paths.as_slice(), fields)
}

/// [`encode_index_key`] for an index of which only the parts are at hand.
pub fn encode_index_key_parts(kind: IndexKind, key_paths: &[String], fields: &[Dynamic]) -> (r:
    Result<EncodedIndexKey, Error>)
    ensures
        match key_error(kind, key_paths@.len(), codec::values(fields@)) {
            Some(e) => r == Err::<EncodedIndexKey, Error>(e),
            None => r matches Ok(k) && k@ == key_bytes(kind, codec::values(fields@)),
        },
{
    proof {
        codec::lemma_values(fields@);
    }
    match validate_key_part_shape(kind, key_paths.len(), fields.len()) {
        Ok(_) => {},
        Err(e) => return Err(e),
    }
    match kind {
        IndexKind::Standard | IndexKind::Unique | IndexKind::Each => {
            proof {
                let vs = codec::values(fields@);
                assert(vs.drop_last() =~= Seq::<Value>::empty());
                assert(fields_error(Seq::<Value>::empty()) is None);
                assert(vs.last() == vs[0]);
            }
            encode_field(&fields[0])
        },
        IndexKind::Composite => encode_composite(fields),
    }
}

/// Check that there are as many fields as the index asks for.
fn validate_key_part_shape(kind: IndexKind, paths: usize, fields: usize) -> (r: Result<(), Error>)
    ensures
        match shape_error(kind, paths as nat, fields as nat) {
            Some(e) => r == Err::<(), Error>(e),
            None => r is Ok,
        },
{
    if fields != paths {
        return Err(Error::InvalidArgument("encode_index_key: field count disagrees with spec"));
    }
    match kind {
        IndexKind::Standard | IndexKind::Unique | IndexKind::Each => if fields != 1 {
            Err(
                Error::InvalidArgument(
                    "encode_index_key: scalar indexes require exactly one field",
                ),
            )
        } else {
            Ok(())
        },
        IndexKind::Composite => if fields < 2 {
            Err(
                Error::InvalidArgument(
                    "encode_index_key: composite indexes require at least two fields",
                ),
            )
        } else {
            Ok(())
        },
    }
}

/// Rank of a value's type among all types that a key can hold.
pub open spec fn type_rank(v: Value) -> int {
    match v {
        Value::Null => 0,
        Value::Bool(_) => 1,
        Value::I64(_) => 2,
        Value::U64(_) => 3,
        Value::F64(_) => 4,
        Value::String(_) => 5,
        Value::Bytes(_) => 6,
        _ => 7,
    }
}

/// `a` comes before `b`. Values of different types are in the order of the
/// types: null, truth values, signed, unsigned and floating-point numbers,
/// text, bytes. Text is in the order of its UTF-8 bytes, floating-point
/// numbers are in their total order, and of two byte strings the shorter comes
/// first, or where they are of one length the one that is first byte by byte.
pub open spec fn before(a: Value, b: Value) -> bool {
    match (a, b) {
        (Value::Bool(x), Value::Bool(y)) => !x && y,
        (Value::I64(x), Value::I64(y)) => x < y,
        (Value::U64(x), Value::U64(y)) => x < y,
        (Value::F64(x), Value::F64(y)) => f64_rank(x) < f64_rank(y),
        (Value::String(x), Value::String(y)) => bytes::lex_lt(
            codec::name_bytes(x),
            codec::name_bytes(y),
        ),
        (Value::Bytes(x), Value::Bytes(y)) => x.len() < y.len() || x.len() == y.len()
            && bytes::lex_lt(x, y),
        _ => type_rank(a) < type_rank(b),
    }
}

/// A terminator keeps the order of strings that do not hold it, and keeps any
/// one from being a prefix of another.
proof fn lemma_terminated(u: Seq<u8>, w: Seq<u8>)
    requires
        no_nul(u),
        no_nul(w),
    ensures
        bytes::lex_lt(u + seq![0u8], w + seq![0u8]) == bytes::lex_lt(u, w),
        bytes::is_prefix(u + seq![0u8], w + seq![0u8]) ==> u == w,
    decreases u.len(),
{
    let a = u + seq![0u8];
    let b = w + seq![0u8];
    if u.len() == 0 || w.len() == 0 {
        reveal_with_fuel(bytes::lex_lt, 2);
        assert(u.len() == 0 ==> a[0] == 0);
        assert(w.len() == 0 ==> b[0] == 0);
        if u.len() == 0 && w.len() == 0 {
            assert(u =~= w);
            bytes::lemma_lex_irreflexive(a);
        }
        if bytes::is_prefix(a, b) {
            assert(b.take(a.len() as int)[0] == b[0]);
            if w.len() == 0 {
                assert(a.len() <= 1);
            }
        }
    } else {
        assert(a[0] == u[0] && b[0] == w[0]);
        let ut = u.drop_first();
        let wt = w.drop_first();
        assert forall|i: int| 0 <= i < ut.len() implies ut[i] != 0 by {
            assert(ut[i] == u[i + 1]);
        }
        assert forall|i: int| 0 <= i < wt.len() implies wt[i] != 0 by {
            assert(wt[i] == w[i + 1]);
        }
        lemma_terminated(ut, wt);
        assert(a.drop_first() =~= ut + seq![0u8]);
        assert(b.drop_first() =~= wt + seq![0u8]);
        if bytes::is_prefix(a, b) {
            assert(b.take(a.len() as int)[0] == b[0]);
            assert((wt + seq![0u8]).take(ut.len() as int + 1) =~= b.take(a.len() as int).drop_first());
            assert(u =~= seq![u[0]] + ut);
            assert(w =~= seq![w[0]] + wt);
        }
    }
}

/// Encodings of one type: the order of the bodies decides.
proof fn lemma_same_tag(t: u8, x: Seq<u8>, y: Seq<u8>)
    ensures
        bytes::lex_lt(seq![t] + x, seq![t] + y) == bytes::lex_lt(x, y),
        bytes::is_prefix(seq![t] + x, seq![t] + y) ==> bytes::is_prefix(x, y),
{
    bytes::lemma_lex_common_prefix(seq![t], x, y);
    let a = seq![t] + x;
    let b = seq![t] + y;
    if bytes::is_prefix(a, b) {
        assert(y.take(x.len() as int) =~= b.take(a.len() as int).drop_first());
        assert(x =~= a.drop_first());
    }
}

/// Encodings of different tags: the tags decide.
proof fn lemma_other_tag(a: Seq<u8>, b: Seq<u8>)
    requires
        a.len() > 0,
        b.len() > 0,
        a[0] != b[0],
    ensures
        bytes::lex_lt(a, b) == (a[0] < b[0]),
        !bytes::is_prefix(a, b),
{
    if bytes::is_prefix(a, b) {
        assert(b.take(a.len() as int)[0] == b[0]);
    }
}

/// Numbers of eight bytes.
proof fn lemma_number(x: nat, y: nat)
    requires
        x <= u64::MAX,
        y <= u64::MAX,
    ensures
        bytes::be_seq(x, 8).len() == 8,
        bytes::lex_lt(bytes::be_seq(x, 8), bytes::be_seq(y, 8)) == (x < y),
        bytes::is_prefix(bytes::be_seq(x, 8), bytes::be_seq(y, 8)) ==> x == y,
{
    bytes::lemma_pow256();
    bytes::lemma_be_seq_len(x, 8);
    bytes::lemma_be_seq_len(y, 8);
    bytes::lemma_be_order(x, y, 8);
    assert(bytes::be_seq(y, 8).take(8) =~= bytes::be_seq(y, 8));
}

/// Byte strings behind their length.
proof fn lemma_counted_bytes(x: Seq<u8>, y: Seq<u8>)
    requires
        x.len() <= u32::MAX,
        y.len() <= u32::MAX,
    ensures
        bytes::lex_lt(bytes::be_seq(x.len(), 4) + x, bytes::be_seq(y.len(), 4) + y) == (x.len()
            < y.len() || x.len() == y.len() && bytes::lex_lt(x, y)),
        bytes::is_prefix(bytes::be_seq(x.len(), 4) + x, bytes::be_seq(y.len(), 4) + y) ==> x == y,
{
    let p = bytes::be_seq(x.len(), 4);
    let q = bytes::be_seq(y.len(), 4);
    bytes::lemma_pow256();
    bytes::lemma_be_seq_len(x.len(), 4);
    bytes::lemma_be_seq_len(y.len(), 4);
    bytes::lemma_be_order(x.len(), y.len(), 4);
    if x.len() == y.len() {
        bytes::lemma_lex_common_prefix(p, x, y);
    } else {
        if bytes::is_prefix(p, q) {
            assert(q.take(4) =~= q);
        }
        if bytes::is_prefix(q, p) {
            assert(p.take(4) =~= p);
        }
        bytes::lemma_lex_decided(p, q, x, y);
    }
    if bytes::is_prefix(p + x, q + y) {
        let t = (q + y).take((p + x).len() as int);
        assert(t.take(4) =~= q);
        assert((p + x).take(4) =~= p);
        assert(p == q);
        assert(t =~= q + y);
        assert(x =~= (p + x).skip(4));
        assert(y =~= (q + y).skip(4));
    }
}

/// The order of the encodings is the order of the values, and no encoding is
/// the beginning of another.
///
/// Two values of one type are ordered as the type orders them, and values of
/// different types as the types are.
pub proof fn law_key_order(a: Value, b: Value)
    requires
        field_error(a) is None,
        field_error(b) is None,
    ensures
        bytes::lex_lt(field_bytes(a), field_bytes(b)) <==> before(a, b),
        bytes::is_prefix(field_bytes(a), field_bytes(b)) ==> a == b,
{
    let x = field_bytes(a);
    let y = field_bytes(b);
    lemma_first_byte(a);
    lemma_first_byte(b);
    if x[0] != y[0] {
        lemma_other_tag(x, y);
    } else {
        match (a, b) {
            (Value::I64(m), Value::I64(n)) => {
                if m == 0 {
                    bytes::lemma_lex_irreflexive(x);
                } else {
                    let p = (m + 0x8000_0000_0000_0000) as nat;
                    let q = (n + 0x8000_0000_0000_0000) as nat;
                    lemma_same_tag(x[0], bytes::be_seq(p, 8), bytes::be_seq(q, 8));
                    lemma_number(p, q);
                }
            },
            (Value::U64(m), Value::U64(n)) => {
                lemma_same_tag(0x20, bytes::be_seq(m as nat, 8), bytes::be_seq(n as nat, 8));
                lemma_number(m as nat, n as nat);
            },
            (Value::F64(m), Value::F64(n)) => {
                lemma_same_tag(
                    0x30,
                    bytes::be_seq(f64_rank(m), 8),
                    bytes::be_seq(f64_rank(n), 8),
                );
                lemma_number(f64_rank(m), f64_rank(n));
            },
            (Value::String(s), Value::String(t)) => {
                let u = codec::name_bytes(s);
                let w = codec::name_bytes(t);
                assert(x =~= seq![0x40u8] + (u + seq![0u8]));
                assert(y =~= seq![0x40u8] + (w + seq![0u8]));
                lemma_same_tag(0x40, u + seq![0u8], w + seq![0u8]);
                lemma_terminated(u, w);
                codec::lemma_same_name(s, t);
            },
            (Value::Bytes(s), Value::Bytes(t)) => {
                assert(x =~= seq![0x41u8] + (bytes::be_seq(s.len(), 4) + s));
                assert(y =~= seq![0x41u8] + (bytes::be_seq(t.len(), 4) + t));
                lemma_same_tag(
                    0x41,
                    bytes::be_seq(s.len(), 4) + s,
                    bytes::be_seq(t.len(), 4) + t,
                );
                lemma_counted_bytes(s, t);
            },
            _ => {
                assert(a == b);
                bytes::lemma_lex_irreflexive(x);
            },
        }
    }
}

/// The first byte of an encoding.
proof fn lemma_first_byte(v: Value)
    requires
        field_error(v) is None,
    ensures
        field_bytes(v).len() > 0,
        field_bytes(v)[0] == match v {
            Value::Null => 0x00u8,
            Value::Bool(b) => if b {
                0x02u8
            } else {
                0x01u8
            },
            Value::I64(n) => if n == 0 {
                0x11u8
            } else if n < 0 {
                0x10u8
            } else {
                0x12u8
            },
            Value::U64(_) => 0x20u8,
            Value::F64(_) => 0x30u8,
            Value::String(_) => 0x40u8,
            _ => 0x41u8,
        },
{
}

/// Different values have different encodings.
pub proof fn law_key_determines_value(a: Value, b: Value)
    requires
        field_error(a) is None,
        field_error(b) is None,
        field_bytes(a) == field_bytes(b),
    ensures
        a == b,
{
    assert(field_bytes(b).take(field_bytes(a).len() as int) =~= field_bytes(a));
    law_key_order(a, b);
}

/// `xs` comes before `ys`: the first field in which they differ decides.
pub open spec fn all_before(xs: Seq<Value>, ys: Seq<Value>) -> bool
    decreases xs.len(),
{
    if xs.len() == 0 || ys.len() == 0 {
        false
    } else if xs.drop_last() == ys.drop_last() {
        before(xs.last(), ys.last())
    } else {
        all_before(xs.drop_last(), ys.drop_last())
    }
}

/// Composite keys are ordered by their first field, then their second, and so
/// on, and none is the beginning of another of as many fields.
pub proof fn law_composite_order(xs: Seq<Value>, ys: Seq<Value>)
    requires
        xs.len() == ys.len(),
        fields_error(xs) is None,
        fields_error(ys) is None,
    ensures
        bytes::lex_lt(
            seq![COMPOSITE_TAG] + fields_bytes(xs),
            seq![COMPOSITE_TAG] + fields_bytes(ys),
        ) <==> all_before(xs, ys),
        bytes::is_prefix(fields_bytes(xs), fields_bytes(ys)) ==> xs == ys,
{
    lemma_fields_order(xs, ys);
    bytes::lemma_lex_common_prefix(seq![COMPOSITE_TAG], fields_bytes(xs), fields_bytes(ys));
}

proof fn lemma_fields_order(xs: Seq<Value>, ys: Seq<Value>)
    requires
        xs.len() == ys.len(),
        fields_error(xs) is None,
        fields_error(ys) is None,
    ensures
        bytes::lex_lt(fields_bytes(xs), fields_bytes(ys)) <==> all_before(xs, ys),
        bytes::is_prefix(fields_bytes(xs), fields_bytes(ys)) ==> xs == ys,
    decreases xs.len(),
{
    if xs.len() == 0 {
        assert(xs =~= ys);
        bytes::lemma_lex_irreflexive(fields_bytes(xs));
    } else {
        let xp = xs.drop_last();
        let yp = ys.drop_last();
        let a = fields_bytes(xp);
        let b = fields_bytes(yp);
        let u = field_bytes(xs.last());
        let w = field_bytes(ys.last());
        lemma_fields_order(xp, yp);
        lemma_fields_order(yp, xp);
        law_key_order(xs.last(), ys.last());
        if xp == yp {
            bytes::lemma_lex_common_prefix(a, u, w);
            if bytes::is_prefix(a + u, b + w) {
                assert(w.take(u.len() as int) =~= (b + w).take((a + u).len() as int).skip(
                    a.len() as int,
                ));
                assert(u =~= (a + u).skip(a.len() as int));
                assert(xs =~= xp.push(xs.last()));
                assert(ys =~= yp.push(ys.last()));
            }
        } else {
            bytes::lemma_lex_decided(a, b, u, w);
            if bytes::is_prefix(a + u, b + w) {
                lemma_prefix_parts(a, u, b, w);
            }
        }
    }
}

/// Where one string is a prefix of another, so is one of their first parts of
/// the other.
proof fn lemma_prefix_parts(a: Seq<u8>, u: Seq<u8>, b: Seq<u8>, w: Seq<u8>)
    requires
        bytes::is_prefix(a + u, b + w),
    ensures
        bytes::is_prefix(a, b) || bytes::is_prefix(b, a),
{
    let t = (b + w).take((a + u).len() as int);
    if a.len() <= b.len() {
        assert(b.take(a.len() as int) =~= t.take(a.len() as int));
        assert((a + u).take(a.len() as int) =~= a);
    } else {
        assert(t.take(b.len() as int) =~= b);
        assert((a + u).take(b.len() as int) =~= a.take(b.len() as int));
    }
}

/// A document id behind a key of one value decides the order only where the
/// values are the same.
pub proof fn law_id_suffix_order(a: Value, b: Value, m: u64, n: u64)
    requires
        field_error(a) is None,
        field_error(b) is None,
    ensures
        bytes::lex_lt(
            field_bytes(a) + bytes::be_seq(m as nat, 8),
            field_bytes(b) + bytes::be_seq(n as nat, 8),
        ) <==> before(a, b) || a == b && m < n,
{
    let x = field_bytes(a);
    let y = field_bytes(b);
    law_key_order(a, b);
    law_key_order(b, a);
    lemma_number(m as nat, n as nat);
    if a == b {
        bytes::lemma_lex_common_prefix(x, bytes::be_seq(m as nat, 8), bytes::be_seq(n as nat, 8));
        bytes::lemma_lex_irreflexive(x);
    } else {
        bytes::lemma_lex_decided(x, y, bytes::be_seq(m as nat, 8), bytes::be_seq(n as nat, 8));
    }
}

/// The keys of floating-point numbers are in the total order of IEEE 754: those
/// with the sign bit come first, the larger their bits the sooner, then those
/// without it, the smaller their bits the sooner.
pub proof fn law_float_keys_are_in_total_order(x: u64, y: u64)
    ensures
        ({
            let before = bytes::lex_lt(field_bytes(Value::F64(x)), field_bytes(Value::F64(y)));
            let x_negative = x >= 0x8000_0000_0000_0000;
            let y_negative = y >= 0x8000_0000_0000_0000;
            &&& x_negative && !y_negative ==> before
            &&& !x_negative && y_negative ==> !before
            &&& !x_negative && !y_negative ==> (before <==> x < y)
            &&& x_negative && y_negative ==> (before <==> x > y)
        }),
{
    law_key_order(Value::F64(x), Value::F64(y));
}

/// The keys of signed numbers are in the order of the numbers.
pub proof fn law_signed_keys_are_in_order(x: i64, y: i64)
    ensures
        bytes::lex_lt(field_bytes(Value::I64(x)), field_bytes(Value::I64(y))) <==> x < y,
{
    law_key_order(Value::I64(x), Value::I64(y));
}

/// The keys of unsigned numbers are in the order of the numbers.
pub proof fn law_unsigned_keys_are_in_order(x: u64, y: u64)
    ensures
        bytes::lex_lt(field_bytes(Value::U64(x)), field_bytes(Value::U64(y))) <==> x < y,
{
    law_key_order(Value::U64(x), Value::U64(y));
}

/// False comes before true.
pub proof fn law_false_comes_before_true(x: bool, y: bool)
    ensures
        bytes::lex_lt(field_bytes(Value::Bool(x)), field_bytes(Value::Bool(y))) <==> !x && y,
{
    law_key_order(Value::Bool(x), Value::Bool(y));
}

/// The keys of texts without a zero byte are in the order of their UTF-8 bytes.
pub proof fn law_text_keys_are_in_order(x: Seq<char>, y: Seq<char>)
    requires
        forall|i: int|
            0 <= i < vstd::utf8::encode_utf8(x).len() ==> vstd::utf8::encode_utf8(x)[i] != 0,
        forall|i: int|
            0 <= i < vstd::utf8::encode_utf8(y).len() ==> vstd::utf8::encode_utf8(y)[i] != 0,
    ensures
        bytes::lex_lt(field_bytes(Value::String(x)), field_bytes(Value::String(y)))
            <==> bytes::lex_lt(vstd::utf8::encode_utf8(x), vstd::utf8::encode_utf8(y)),
{
    law_key_order(Value::String(x), Value::String(y));
}

/// Of the keys of two byte strings that of the shorter comes first; where they
/// are of one length, they are in the order of the strings.
pub proof fn law_byte_string_keys_are_in_order(x: Seq<u8>, y: Seq<u8>)
    requires
        x.len() <= u32::MAX,
        y.len() <= u32::MAX,
    ensures
        bytes::lex_lt(field_bytes(Value::Bytes(x)), field_bytes(Value::Bytes(y))) <==> x.len()
            < y.len() || x.len() == y.len() && bytes::lex_lt(x, y),
{
    law_key_order(Value::Bytes(x), Value::Bytes(y));
}

/// Keys of values of different types are in the order of the types: null, truth
/// values, signed, unsigned and floating-point numbers, text, bytes.
pub proof fn law_types_are_in_order(
    b: bool,
    n: i64,
    m: u64,
    bits: u64,
    s: Seq<char>,
    t: Seq<u8>,
)
    requires
        field_error(Value::String(s)) is None,
        field_error(Value::Bytes(t)) is None,
    ensures
        bytes::lex_lt(field_bytes(Value::Null), field_bytes(Value::Bool(b))),
        bytes::lex_lt(field_bytes(Value::Bool(b)), field_bytes(Value::I64(n))),
        bytes::lex_lt(field_bytes(Value::I64(n)), field_bytes(Value::U64(m))),
        bytes::lex_lt(field_bytes(Value::U64(m)), field_bytes(Value::F64(bits))),
        bytes::lex_lt(field_bytes(Value::F64(bits)), field_bytes(Value::String(s))),
        bytes::lex_lt(field_bytes(Value::String(s)), field_bytes(Value::Bytes(t))),
{
    law_key_order(Value::Null, Value::Bool(b));
    law_key_order(Value::Bool(b), Value::I64(n));
    law_key_order(Value::I64(n), Value::U64(m));
    law_key_order(Value::U64(m), Value::F64(bits));
    law_key_order(Value::F64(bits), Value::String(s));
    law_key_order(Value::String(s), Value::Bytes(t));
}

/// The encodings are those of the format: a tag, and behind it nothing, a
/// number of eight bytes, text and a zero byte, or bytes behind their number.
pub proof fn law_encodings(b: bool, n: i64, m: u64, bits: u64, s: Seq<char>, t: Seq<u8>)
    ensures
        field_bytes(Value::Null) == seq![0x00u8],
        field_bytes(Value::Bool(b)) == seq![if b {
            0x02u8
        } else {
            0x01u8
        }],
        field_bytes(Value::I64(0)) == seq![0x11u8],
        n != 0 ==> field_bytes(Value::I64(n))[0] == if n < 0 {
            0x10u8
        } else {
            0x12u8
        },
        n != 0 ==> bytes::be_nat(field_bytes(Value::I64(n)).skip(1)) == n
            + 0x8000_0000_0000_0000,
        n != 0 ==> field_bytes(Value::I64(n)).len() == 9,
        field_bytes(Value::U64(m)).len() == 9,
        field_bytes(Value::U64(m))[0] == 0x20,
        bytes::be_nat(field_bytes(Value::U64(m)).skip(1)) == m,
        field_bytes(Value::F64(bits)).len() == 9,
        field_bytes(Value::F64(bits))[0] == 0x30,
        bytes::be_nat(field_bytes(Value::F64(bits)).skip(1)) == if bits < 0x8000_0000_0000_0000 {
            bits + 0x8000_0000_0000_0000
        } else {
            0xFFFF_FFFF_FFFF_FFFF - bits
        },
        field_bytes(Value::String(s)) == seq![0x40u8] + vstd::utf8::encode_utf8(s) + seq![0u8],
        t.len() <= u32::MAX ==> field_bytes(Value::Bytes(t)).len() == 5 + t.len() && field_bytes(
            Value::Bytes(t),
        )[0] == 0x41 && bytes::be_nat(field_bytes(Value::Bytes(t)).subrange(1, 5)) == t.len()
            && field_bytes(Value::Bytes(t)).skip(5) == t,
{
    bytes::lemma_pow256();
    let moved = (n + 0x8000_0000_0000_0000) as nat;
    bytes::lemma_be_seq_len(moved, 8);
    bytes::lemma_be_round_trip(moved, 8);
    if n != 0 {
        assert(field_bytes(Value::I64(n)).skip(1) =~= bytes::be_seq(moved, 8));
    }
    bytes::lemma_be_seq_len(m as nat, 8);
    bytes::lemma_be_round_trip(m as nat, 8);
    assert(field_bytes(Value::U64(m)).skip(1) =~= bytes::be_seq(m as nat, 8));
    bytes::lemma_be_seq_len(f64_rank(bits), 8);
    bytes::lemma_be_round_trip(f64_rank(bits), 8);
    assert(field_bytes(Value::F64(bits)).skip(1) =~= bytes::be_seq(f64_rank(bits), 8));
    bytes::lemma_be_seq_len(t.len(), 4);
    if t.len() <= u32::MAX {
        bytes::lemma_be_round_trip(t.len(), 4);
        assert(field_bytes(Value::Bytes(t)).subrange(1, 5) =~= bytes::be_seq(t.len(), 4));
        assert(field_bytes(Value::Bytes(t)).skip(5) =~= t);
    }
}

/// Every scalar can be part of a key, but for text with a zero byte and byte
/// strings whose length takes more than four bytes. Nothing else can.
pub proof fn law_what_can_be_part_of_a_key(v: Value)
    ensures
        field_error(v) is None <==> match v {
            Value::Null | Value::Bool(_) | Value::I64(_) | Value::U64(_) | Value::F64(_) => true,
            Value::String(s) => forall|i: int|
                0 <= i < vstd::utf8::encode_utf8(s).len() ==> vstd::utf8::encode_utf8(s)[i] != 0,
            Value::Bytes(b) => b.len() <= 0xFFFF_FFFF,
            _ => false,
        },
        field_error(v) matches Some(e) ==> e is InvalidArgument,
{
}

/// Values make a key exactly where each of them can be part of one; where some
/// cannot, the first of those says why.
pub proof fn law_first_unfit_value_decides(vs: Seq<Value>)
    ensures
        fields_error(vs) is None <==> forall|i: int|
            0 <= i < vs.len() ==> field_error(#[trigger] vs[i]) is None,
        forall|i: int|
            0 <= i < vs.len() && field_error(#[trigger] vs[i]) is Some && (forall|j: int|
                0 <= j < i ==> field_error(#[trigger] vs[j]) is None) ==> fields_error(vs)
                == field_error(vs[i]),
    decreases vs.len(),
{
    if vs.len() > 0 {
        let ahead = vs.drop_last();
        law_first_unfit_value_decides(ahead);
        assert forall|i: int| 0 <= i < ahead.len() implies ahead[i] == vs[i] by {}
        if fields_error(vs) is None {
            assert forall|i: int| 0 <= i < vs.len() implies field_error(#[trigger] vs[i])
                is None by {
                if i < ahead.len() {
                    assert(field_error(ahead[i]) is None);
                }
            }
        }
        if forall|i: int| 0 <= i < vs.len() ==> field_error(#[trigger] vs[i]) is None {
            assert forall|i: int| 0 <= i < ahead.len() implies field_error(#[trigger] ahead[i])
                is None by {
                assert(field_error(vs[i]) is None);
            }
            assert(field_error(vs[vs.len() - 1]) is None);
        }
        assert forall|i: int|
            0 <= i < vs.len() && field_error(#[trigger] vs[i]) is Some && (forall|j: int|
                0 <= j < i ==> field_error(#[trigger] vs[j]) is None) implies fields_error(vs)
            == field_error(vs[i]) by {
            if i < ahead.len() {
                assert forall|j: int| 0 <= j < i implies field_error(#[trigger] ahead[j])
                    is None by {
                    assert(field_error(vs[j]) is None);
                }
                assert(field_error(ahead[i]) is Some);
            } else {
                assert forall|j: int| 0 <= j < ahead.len() implies field_error(
                    #[trigger] ahead[j],
                ) is None by {
                    assert(field_error(vs[j]) is None);
                }
            }
        }
    }
}

/// An index takes as many values as it has fields: one, or at least two where
/// it is composite. It refuses any other number.
pub proof fn law_number_of_values(kind: IndexKind, paths: nat, vs: Seq<Value>)
    ensures
        key_error(kind, paths, vs) is None <==> {
            &&& vs.len() == paths
            &&& match kind {
                IndexKind::Composite => vs.len() >= 2,
                _ => vs.len() == 1,
            }
            &&& fields_error(vs) is None
        },
        vs.len() == paths && match kind {
            IndexKind::Composite => vs.len() >= 2,
            _ => vs.len() == 1,
        } ==> key_error(kind, paths, vs) == fields_error(vs),
{
}

/// The key of one value is its encoding. A composite key is the tag `80` and
/// then the encodings of its values, one after the other.
pub proof fn law_keys_are_made_of_encodings(kind: IndexKind, vs: Seq<Value>, v: Value)
    ensures
        match kind {
            IndexKind::Composite => {
                &&& key_bytes(kind, Seq::empty()) == seq![0x80u8]
                &&& key_bytes(kind, vs.push(v)) == key_bytes(kind, vs) + field_bytes(v)
            },
            _ => key_bytes(kind, seq![v]) == field_bytes(v),
        },
{
    assert(vs.push(v).drop_last() =~= vs);
    assert(key_bytes(IndexKind::Composite, Seq::empty()) =~= seq![0x80u8]);
    assert(key_bytes(IndexKind::Composite, vs.push(v)) =~= key_bytes(IndexKind::Composite, vs)
        + field_bytes(v));
}

/// Composite keys of as many values are in the order of the first values that
/// differ.
pub proof fn law_composite_keys_are_in_order(xs: Seq<Value>, ys: Seq<Value>)
    requires
        xs.len() == ys.len(),
        fields_error(xs) is None,
        fields_error(ys) is None,
    ensures
        bytes::lex_lt(key_bytes(IndexKind::Composite, xs), key_bytes(IndexKind::Composite, ys))
            <==> exists|i: int|
            0 <= i < xs.len() && xs.take(i) == #[trigger] ys.take(i) && bytes::lex_lt(
                field_bytes(xs[i]),
                field_bytes(ys[i]),
            ),
{
    law_composite_order(xs, ys);
    lemma_first_pair_decides(xs, ys);
}

proof fn lemma_first_pair_decides(xs: Seq<Value>, ys: Seq<Value>)
    requires
        xs.len() == ys.len(),
        fields_error(xs) is None,
        fields_error(ys) is None,
    ensures
        all_before(xs, ys) <==> exists|i: int|
            0 <= i < xs.len() && xs.take(i) == #[trigger] ys.take(i) && bytes::lex_lt(
                field_bytes(xs[i]),
                field_bytes(ys[i]),
            ),
    decreases xs.len(),
{
    if xs.len() > 0 {
        let n = xs.len() - 1;
        let xp = xs.drop_last();
        let yp = ys.drop_last();
        lemma_first_pair_decides(xp, yp);
        law_key_order(xs.last(), ys.last());
        assert(xs.take(n) =~= xp && ys.take(n) =~= yp);
        if all_before(xs, ys) {
            if xp == yp {
                assert(xs.take(n) == ys.take(n));
            } else {
                let i = choose|i: int|
                    0 <= i < xp.len() && xp.take(i) == #[trigger] yp.take(i) && bytes::lex_lt(
                        field_bytes(xp[i]),
                        field_bytes(yp[i]),
                    );
                assert(xs.take(i) =~= xp.take(i) && ys.take(i) =~= yp.take(i));
            }
        }
        assert forall|i: int|
            0 <= i < xs.len() && xs.take(i) == #[trigger] ys.take(i) && bytes::lex_lt(
                field_bytes(xs[i]),
                field_bytes(ys[i]),
            ) implies all_before(xs, ys) by {
            if i < n {
                assert(xs.take(i) =~= xp.take(i) && ys.take(i) =~= yp.take(i));
                assert(xp[i] == xs[i] && yp[i] == ys[i]);
                if xp == yp {
                    bytes::lemma_lex_irreflexive(field_bytes(xs[i]));
                }
            }
        }
    }
}

/// What is said of values that cannot be part of a key, and of a number of values
/// that an index cannot take.
pub proof fn law_why_there_is_no_key(v: Value, kind: IndexKind, paths: nat, vs: Seq<Value>)
    ensures
        v is String && field_error(v) is Some ==> field_error(v) == Some(
            Error::InvalidArgument("index key: String value contains embedded NUL (0x00)"),
        ),
        v is Bytes && field_error(v) is Some ==> field_error(v) == Some(
            Error::InvalidArgument("index key: Bytes field exceeds 4 GiB length limit"),
        ),
        v is Sequence || v is Mapping || v is Enum ==> field_error(v) == Some(
            Error::InvalidArgument(
                "index key field must be a primitive Dynamic value (Null/Bool/I64/U64/F64/String/Bytes)",
            ),
        ),
        vs.len() != paths ==> key_error(kind, paths, vs) == Some(
            Error::InvalidArgument("encode_index_key: field count disagrees with spec"),
        ),
        vs.len() == paths && !(kind is Composite) && paths != 1 ==> key_error(kind, paths, vs)
            == Some(
            Error::InvalidArgument("encode_index_key: scalar indexes require exactly one field"),
        ),
        vs.len() == paths && kind is Composite && paths < 2 ==> key_error(kind, paths, vs) == Some(
            Error::InvalidArgument(
                "encode_index_key: composite indexes require at least two fields",
            ),
        ),
{
}

} // verus!
