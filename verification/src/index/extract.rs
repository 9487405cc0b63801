//! From a document to the keys that it has in an index.
//!
//! A document is looked at as the sequence of calls that serializing it makes,
//! put down as a tree: a [`Shape`]. Only the fields that an index asks for are
//! made values of; the others are passed over.
//!
//! Fields are top-level names. Paths into nested documents are not supported.

use crate::codec;
use crate::codec::{Dynamic, DynamicMap, Value};
use crate::error::Error;
use crate::index::key;
use crate::index::key::{encode_field, encode_index_key, EncodedIndexKey};
use crate::index::spec;
use crate::index::spec::{IndexKind, IndexSpec};
use vstd::prelude::*;
use vstd::string::StringExecFns;

verus! {

/// How deep a document may be nested.
pub const MAX_REFLECT_DEPTH: usize = 32;

/// How many elements a sequence may have.
pub const MAX_EACH_ENTRIES: usize = 16_384;

/// What serializing a document does, call by call. A floating-point number is
/// its bit pattern in double precision.
pub enum Shape {
    /// A truth value.
    Bool(bool),
    /// A signed number of up to 64 bits.
    Signed(i64),
    /// A signed number of 128 bits.
    I128(i128),
    /// An unsigned number of up to 64 bits.
    Unsigned(u64),
    /// An unsigned number of 128 bits.
    U128(u128),
    /// The bits of a floating-point number.
    Float(u64),
    /// A character.
    Char(char),
    /// Text.
    Text(String),
    /// Bytes.
    Bytes(Vec<u8>),
    /// An absent optional value.
    Absent,
    /// A present optional value.
    Present(Box<Shape>),
    /// The unit value.
    Unit,
    /// A struct without fields.
    UnitStruct,
    /// A variant without fields, by name.
    UnitVariant(String),
    /// A struct around one value.
    NewtypeStruct(Box<Shape>),
    /// A variant around one value.
    NewtypeVariant(String, Box<Shape>),
    /// A sequence.
    List(Vec<Shape>),
    /// A tuple.
    Tuple(Vec<Shape>),
    /// A struct of unnamed fields.
    TupleStruct(Vec<Shape>),
    /// A variant of unnamed fields.
    TupleVariant(Vec<Shape>),
    /// A map, as the keys and values that were handed over, in turn.
    Entries(Vec<MapEvent>),
    /// A struct of named fields.
    Struct(Vec<(String, Shape)>),
    /// A variant of named fields.
    StructVariant(Vec<(String, Shape)>),
    /// The document refused to be serialized.
    Refused,
}

/// A part of a map.
pub enum MapEvent {
    /// A key.
    Key(Shape),
    /// A value.
    Value(Shape),
}

/// The digits of a number.
pub open spec fn decimal(n: nat) -> Seq<char>
    decreases n,
{
    if n < 10 {
        seq![('0' as u32 + n) as char]
    } else {
        decimal(n / 10).push(('0' as u32 + n % 10) as char)
    }
}

/// The name that a value makes as a map key, if it makes one.
pub open spec fn key_name(v: Value) -> Option<Seq<char>> {
    match v {
        Value::String(s) => Some(s),
        Value::U64(n) => Some(decimal(n as nat)),
        Value::I64(n) => Some(
            if n < 0 {
                seq!['-'] + decimal((-n) as nat)
            } else {
                decimal(n as nat)
            },
        ),
        Value::Bool(b) => Some(
            if b {
                seq!['t', 'r', 'u', 'e']
            } else {
                seq!['f', 'a', 'l', 's', 'e']
            },
        ),
        _ => None,
    }
}

/// The value that a shape makes at a given depth; `None` where it cannot be
/// taken: it refused, it is nested too deep, a sequence is too long, a map key
/// makes no name, or a map value comes without a key.
pub open spec fn reflected(s: Shape, depth: nat) -> Option<Value>
    decreases s,
{
    match s {
        Shape::Bool(b) => Some(Value::Bool(b)),
        Shape::Signed(n) => Some(Value::I64(n)),
        Shape::I128(n) => Some(Value::I64(n as i64)),
        Shape::Unsigned(n) => Some(Value::U64(n)),
        Shape::U128(n) => Some(Value::U64(n as u64)),
        Shape::Float(bits) => Some(Value::F64(bits)),
        Shape::Char(c) => Some(Value::String(seq![c])),
        Shape::Text(t) => Some(Value::String(t@)),
        Shape::Bytes(b) => Some(Value::Bytes(b@)),
        Shape::Absent | Shape::Unit | Shape::UnitStruct => Some(Value::Null),
        Shape::Present(inner) => reflected(*inner, depth),
        Shape::NewtypeStruct(inner) => reflected(*inner, depth),
        Shape::UnitVariant(name) => Some(Value::String(name@)),
        Shape::NewtypeVariant(name, inner) => if depth + 1 < MAX_REFLECT_DEPTH {
            match reflected(*inner, depth + 1) {
                Some(v) => Some(Value::Mapping(Map::empty().insert(name@, v))),
                None => None,
            }
        } else {
            None
        },
        Shape::List(items) | Shape::Tuple(items) | Shape::TupleStruct(items)
        | Shape::TupleVariant(items) => match reflected_items(items@, depth) {
            Some(vs) => Some(Value::Sequence(vs)),
            None => None,
        },
        Shape::Entries(events) => match reflected_events(events@, depth) {
            Some((m, _)) => Some(Value::Mapping(m)),
            None => None,
        },
        Shape::Struct(fields) | Shape::StructVariant(fields) => match reflected_fields(
            fields@,
            depth,
        ) {
            Some(m) => Some(Value::Mapping(m)),
            None => None,
        },
        Shape::Refused => None,
    }
}

/// The values of the elements of a sequence at a given depth.
pub open spec fn reflected_items(items: Seq<Shape>, depth: nat) -> Option<Seq<Value>>
    decreases items,
{
    if items.len() == 0 {
        Some(Seq::empty())
    } else {
        match (
            reflected_items(items.drop_last(), depth),
            reflected(items.last(), depth + 1),
        ) {
            (Some(vs), Some(v)) => if items.len() <= MAX_EACH_ENTRIES && depth + 1
                < MAX_REFLECT_DEPTH {
                Some(vs.push(v))
            } else {
                None
            },
            _ => None,
        }
    }
}

/// The named values that a map at a given depth makes, and the key that still
/// waits for its value.
pub open spec fn reflected_events(events: Seq<MapEvent>, depth: nat) -> Option<
    (Map<Seq<char>, Value>, Option<Seq<char>>),
>
    decreases events,
{
    if events.len() == 0 {
        Some((Map::empty(), None))
    } else {
        match (reflected_events(events.drop_last(), depth), events.last()) {
            (None, _) => None,
            (Some((m, _)), MapEvent::Key(k)) => if depth + 1 < MAX_REFLECT_DEPTH {
                match reflected(k, depth + 1) {
                    Some(v) => match key_name(v) {
                        Some(name) => Some((m, Some(name))),
                        None => None,
                    },
                    None => None,
                }
            } else {
                None
            },
            (Some((m, pending)), MapEvent::Value(x)) => if depth + 1 < MAX_REFLECT_DEPTH {
                match (pending, reflected(x, depth + 1)) {
                    (Some(name), Some(v)) => Some((m.insert(name, v), None)),
                    _ => None,
                }
            } else {
                None
            },
        }
    }
}

/// The named values that a struct at a given depth makes.
pub open spec fn reflected_fields(fields: Seq<(String, Shape)>, depth: nat) -> Option<
    Map<Seq<char>, Value>,
>
    decreases fields,
{
    if fields.len() == 0 {
        Some(Map::empty())
    } else {
        match (
            reflected_fields(fields.drop_last(), depth),
            reflected(fields.last().1, depth + 1),
        ) {
            (Some(m), Some(v)) => if depth + 1 < MAX_REFLECT_DEPTH {
                Some(m.insert(fields.last().0@, v))
            } else {
                None
            },
            _ => None,
        }
    }
}

/// The text of one character.
///
/// Calls `char::to_string`. Claimed: the text is that character and nothing
/// else.
#[verifier::external_body]
fn char_text(c: char) -> (r: String)
    ensures
        r@ == seq![c],
{
    c.to_string()
}

/// The text of a digit.
fn digit_text(d: u64) -> (r: &'static str)
    requires
        d < 10,
    ensures
        r@ == seq![('0' as u32 + d) as char],
{
    proof {
        reveal_strlit("0");
        reveal_strlit("1");
        reveal_strlit("2");
        reveal_strlit("3");
        reveal_strlit("4");
        reveal_strlit("5");
        reveal_strlit("6");
        reveal_strlit("7");
        reveal_strlit("8");
        reveal_strlit("9");
    }
    let r: &'static str = if d == 0 {
        "0"
    } else if d == 1 {
        "1"
    } else if d == 2 {
        "2"
    } else if d == 3 {
        "3"
    } else if d == 4 {
        "4"
    } else if d == 5 {
        "5"
    } else if d == 6 {
        "6"
    } else if d == 7 {
        "7"
    } else if d == 8 {
        "8"
    } else {
        "9"
    };
    proof {
        assert(r@ =~= seq![('0' as u32 + d) as char]);
    }
    r
}

/// The digits of `n`.
fn decimal_text(n: u64) -> (r: String)
    ensures
        r@ == decimal(n as nat),
    decreases n,
{
    if n < 10 {
        return digit_text(n).to_owned();
    }
    let mut r: String = decimal_text(n / 10);
    r.append(digit_text(n % 10));
    proof {
        assert(r@ =~= decimal(n as nat));
    }
    r
}

/// The name that `value` makes as a map key.
fn name_of_key(value: Dynamic) -> (r: Option<String>)
    ensures
        match key_name(value.value()) {
            Some(name) => r matches Some(s) && s@ == name,
            None => r is None,
        },
{
    match value {
        Dynamic::String(s) => Some(s),
        Dynamic::U64(n) => Some(decimal_text(n)),
        Dynamic::I64(n) => if n < 0 {
            let magnitude: u64 = (-(n as i128)) as u64;
            proof {
                reveal_strlit("-");
            }
            let mut r: String = "-".to_owned();
            let digits: String = decimal_text(magnitude);
            r.append(digits.as_str());
            proof {
                assert(r@ =~= seq!['-'] + decimal((-n) as nat));
            }
            Some(r)
        } else {
            Some(decimal_text(n as u64))
        },
        Dynamic::Bool(b) => {
            proof {
                reveal_strlit("true");
                reveal_strlit("false");
            }
            let word: &'static str = if b {
                "true"
            } else {
                "false"
            };
            proof {
                assert(b ==> word@ =~= seq!['t', 'r', 'u', 'e']);
                assert(!b ==> word@ =~= seq!['f', 'a', 'l', 's', 'e']);
            }
            Some(word.to_owned())
        },
        _ => None,
    }
}

/// `r` is the value `v`, or nothing where there is none.
pub open spec fn is_value(r: Option<Dynamic>, v: Option<Value>) -> bool {
    match v {
        Some(v) => r matches Some(d) && d.value() == v,
        None => r is None,
    }
}

/// The value that `shape` makes at the given depth.
pub fn reflect(shape: &Shape, depth: usize) -> (r: Option<Dynamic>)
    requires
        depth < MAX_REFLECT_DEPTH,
    ensures
        is_value(r, reflected(*shape, depth as nat)),
    decreases shape,
{
    match shape {
        Shape::Bool(b) => Some(Dynamic::Bool(*b)),
        Shape::Signed(n) => Some(Dynamic::I64(*n)),
        Shape::I128(n) => Some(
            Dynamic::I64(
                #[verifier::truncate]
                (*n as i64),
            ),
        ),
        Shape::Unsigned(n) => Some(Dynamic::U64(*n)),
        Shape::U128(n) => Some(
            Dynamic::U64(
                #[verifier::truncate]
                (*n as u64),
            ),
        ),
        Shape::Float(bits) => Some(Dynamic::F64(*bits)),
        Shape::Char(c) => Some(Dynamic::String(char_text(*c))),
        Shape::Text(t) => Some(Dynamic::String(t.clone())),
        Shape::Bytes(b) => {
            let mut copy: Vec<u8> = Vec::new();
            copy.extend_from_slice(b.as_slice());
            proof {
                assert(copy@ =~= b@);
            }
            Some(Dynamic::Bytes(copy))
        },
        Shape::Absent | Shape::Unit | Shape::UnitStruct => Some(Dynamic::Null),
        Shape::Present(inner) => reflect(inner, depth),
        Shape::NewtypeStruct(inner) => reflect(inner, depth),
        Shape::UnitVariant(name) => Some(Dynamic::String(name.clone())),
        Shape::NewtypeVariant(name, inner) => {
            if depth + 1 >= MAX_REFLECT_DEPTH {
                return None;
            }
            match reflect(inner, depth + 1) {
                Some(d) => {
                    let mut m = DynamicMap::new();
                    m.insert(name.clone(), d);
                    Some(Dynamic::Mapping(m))
                },
                None => None,
            }
        },
        Shape::List(items) => reflect_items(items, depth),
        Shape::Tuple(items) => reflect_items(items, depth),
        Shape::TupleStruct(items) => reflect_items(items, depth),
        Shape::TupleVariant(items) => reflect_items(items, depth),
        Shape::Entries(events) => reflect_events(events, depth),
        Shape::Struct(fields) => reflect_fields(fields, depth),
        Shape::StructVariant(fields) => reflect_fields(fields, depth),
        Shape::Refused => None,
    }
}

proof fn lemma_items_fail(items: Seq<Shape>, depth: nat, n: int)
    requires
        0 <= n <= items.len(),
        reflected_items(items.take(n), depth) is None,
    ensures
        reflected_items(items, depth) is None,
    decreases items.len() - n,
{
    if n < items.len() {
        assert(items.take(n + 1).drop_last() =~= items.take(n));
        lemma_items_fail(items, depth, n + 1);
    } else {
        assert(items.take(n) =~= items);
    }
}

fn reflect_items(items: &Vec<Shape>, depth: usize) -> (r: Option<Dynamic>)
    requires
        depth < MAX_REFLECT_DEPTH,
    ensures
        is_value(
            r,
            match reflected_items(items@, depth as nat) {
                Some(vs) => Some(Value::Sequence(vs)),
                None => None,
            },
        ),
    decreases items,
{
    let mut out: Vec<Dynamic> = Vec::new();
    let mut i: usize = 0;
    proof {
        assert(items@.take(0) =~= Seq::<Shape>::empty());
    }
    while i < items.len()
        invariant
            i <= items@.len(),
            depth < MAX_REFLECT_DEPTH,
            out@.len() == i,
            reflected_items(items@.take(i as int), depth as nat) == Some(codec::values(out@)),
        decreases items.len() - i,
    {
        proof {
            assert(items@.take(i + 1).drop_last() =~= items@.take(i as int));
            assert(items@.take(i + 1).last() == items@[i as int]);
            assert(decreases_to!(items@ => items@[i as int]));
        }
        if i >= MAX_EACH_ENTRIES || depth + 1 >= MAX_REFLECT_DEPTH {
            proof {
                lemma_items_fail(items@, depth as nat, i + 1);
            }
            return None;
        }
        match reflect(&items[i], depth + 1) {
            Some(d) => {
                let ghost before = out@;
                out.push(d);
                proof {
                    assert(out@.drop_last() =~= before);
                    assert(codec::values(out@) =~= codec::values(before).push(d.value()));
                }
            },
            None => {
                proof {
                    lemma_items_fail(items@, depth as nat, i + 1);
                }
                return None;
            },
        }
        i = i + 1;
    }
    proof {
        assert(items@.take(items@.len() as int) =~= items@);
    }
    Some(Dynamic::Sequence(out))
}

proof fn lemma_events_fail(events: Seq<MapEvent>, depth: nat, n: int)
    requires
        0 <= n <= events.len(),
        reflected_events(events.take(n), depth) is None,
    ensures
        reflected_events(events, depth) is None,
    decreases events.len() - n,
{
    if n < events.len() {
        assert(events.take(n + 1).drop_last() =~= events.take(n));
        lemma_events_fail(events, depth, n + 1);
    } else {
        assert(events.take(n) =~= events);
    }
}

spec fn opt_text(s: Option<String>) -> Option<Seq<char>> {
    match s {
        Some(s) => Some(s@),
        None => None,
    }
}

fn reflect_events(events: &Vec<MapEvent>, depth: usize) -> (r: Option<Dynamic>)
    requires
        depth < MAX_REFLECT_DEPTH,
    ensures
        is_value(
            r,
            match reflected_events(events@, depth as nat) {
                Some((m, _)) => Some(Value::Mapping(m)),
                None => None,
            },
        ),
    decreases events,
{
    let mut out = DynamicMap::new();
    let mut pending: Option<String> = None;
    let mut i: usize = 0;
    proof {
        assert(events@.take(0) =~= Seq::<MapEvent>::empty());
    }
    while i < events.len()
        invariant
            i <= events@.len(),
            depth < MAX_REFLECT_DEPTH,
            reflected_events(events@.take(i as int), depth as nat) == Some(
                (out.fields(), opt_text(pending)),
            ),
        decreases events.len() - i,
    {
        proof {
            assert(events@.take(i + 1).drop_last() =~= events@.take(i as int));
            assert(events@.take(i + 1).last() == events@[i as int]);
            assert(decreases_to!(events@ => events@[i as int]));
            if reflected_events(events@.take(i + 1), depth as nat) is None {
                lemma_events_fail(events@, depth as nat, i + 1);
            }
        }
        if depth + 1 >= MAX_REFLECT_DEPTH {
            return None;
        }
        match &events[i] {
            MapEvent::Key(k) => match reflect(k, depth + 1) {
                Some(d) => match name_of_key(d) {
                    Some(name) => {
                        pending = Some(name);
                    },
                    None => return None,
                },
                None => return None,
            },
            MapEvent::Value(x) => {
                let waiting: Option<String> = pending.take();
                match waiting {
                    Some(name) => match reflect(x, depth + 1) {
                        Some(d) => {
                            out.insert(name, d);
                        },
                        None => return None,
                    },
                    None => return None,
                }
            },
        }
        i = i + 1;
    }
    proof {
        assert(events@.take(events@.len() as int) =~= events@);
    }
    Some(Dynamic::Mapping(out))
}

proof fn lemma_fields_fail(fields: Seq<(String, Shape)>, depth: nat, n: int)
    requires
        0 <= n <= fields.len(),
        reflected_fields(fields.take(n), depth) is None,
    ensures
        reflected_fields(fields, depth) is None,
    decreases fields.len() - n,
{
    if n < fields.len() {
        assert(fields.take(n + 1).drop_last() =~= fields.take(n));
        lemma_fields_fail(fields, depth, n + 1);
    } else {
        assert(fields.take(n) =~= fields);
    }
}

fn reflect_fields(fields: &Vec<(String, Shape)>, depth: usize) -> (r: Option<Dynamic>)
    requires
        depth < MAX_REFLECT_DEPTH,
    ensures
        is_value(
            r,
            match reflected_fields(fields@, depth as nat) {
                Some(m) => Some(Value::Mapping(m)),
                None => None,
            },
        ),
    decreases fields,
{
    let mut out = DynamicMap::new();
    let mut i: usize = 0;
    proof {
        assert(fields@.take(0) =~= Seq::<(String, Shape)>::empty());
    }
    while i < fields.len()
        invariant
            i <= fields@.len(),
            depth < MAX_REFLECT_DEPTH,
            reflected_fields(fields@.take(i as int), depth as nat) == Some(out.fields()),
        decreases fields.len() - i,
    {
        proof {
            assert(fields@.take(i + 1).drop_last() =~= fields@.take(i as int));
            assert(fields@.take(i + 1).last() == fields@[i as int]);
            assert(decreases_to!(fields@ => fields@[i as int]));
            if reflected_fields(fields@.take(i + 1), depth as nat) is None {
                lemma_fields_fail(fields@, depth as nat, i + 1);
            }
        }
        if depth + 1 >= MAX_REFLECT_DEPTH {
            return None;
        }
        match reflect(&fields[i].1, depth + 1) {
            Some(d) => {
                out.insert(fields[i].0.clone(), d);
            },
            None => return None,
        }
        i = i + 1;
    }
    proof {
        assert(fields@.take(fields@.len() as int) =~= fields@);
    }
    Some(Dynamic::Mapping(out))
}

/// A shape that can be passed over: nothing in it refuses.
pub open spec fn passable(s: Shape) -> bool
    decreases s,
{
    match s {
        Shape::Refused => false,
        Shape::Present(inner) => passable(*inner),
        Shape::NewtypeStruct(inner) => passable(*inner),
        Shape::NewtypeVariant(_, inner) => passable(*inner),
        Shape::List(items) | Shape::Tuple(items) | Shape::TupleStruct(items)
        | Shape::TupleVariant(items) => passable_items(items@),
        Shape::Entries(events) => passable_events(events@),
        Shape::Struct(fields) | Shape::StructVariant(fields) => passable_fields(fields@),
        _ => true,
    }
}

/// Every element can be passed over.
pub open spec fn passable_items(items: Seq<Shape>) -> bool
    decreases items,
{
    items.len() > 0 ==> passable_items(items.drop_last()) && passable(items.last())
}

/// Every key and value can be passed over.
pub open spec fn passable_events(events: Seq<MapEvent>) -> bool
    decreases events,
{
    events.len() > 0 ==> passable_events(events.drop_last()) && match events.last() {
        MapEvent::Key(k) => passable(k),
        MapEvent::Value(x) => passable(x),
    }
}

/// Every field can be passed over.
pub open spec fn passable_fields(fields: Seq<(String, Shape)>) -> bool
    decreases fields,
{
    fields.len() > 0 ==> passable_fields(fields.drop_last()) && passable(fields.last().1)
}

proof fn lemma_items_stop(items: Seq<Shape>, n: int)
    requires
        0 <= n <= items.len(),
        !passable_items(items.take(n)),
    ensures
        !passable_items(items),
    decreases items.len() - n,
{
    if n < items.len() {
        assert(items.take(n + 1).drop_last() =~= items.take(n));
        lemma_items_stop(items, n + 1);
    } else {
        assert(items.take(n) =~= items);
    }
}

proof fn lemma_events_stop(events: Seq<MapEvent>, n: int)
    requires
        0 <= n <= events.len(),
        !passable_events(events.take(n)),
    ensures
        !passable_events(events),
    decreases events.len() - n,
{
    if n < events.len() {
        assert(events.take(n + 1).drop_last() =~= events.take(n));
        lemma_events_stop(events, n + 1);
    } else {
        assert(events.take(n) =~= events);
    }
}

proof fn lemma_fields_stop(fields: Seq<(String, Shape)>, n: int)
    requires
        0 <= n <= fields.len(),
        !passable_fields(fields.take(n)),
    ensures
        !passable_fields(fields),
    decreases fields.len() - n,
{
    if n < fields.len() {
        assert(fields.take(n + 1).drop_last() =~= fields.take(n));
        lemma_fields_stop(fields, n + 1);
    } else {
        assert(fields.take(n) =~= fields);
    }
}

/// Pass over a value that no index asks for; `false` where it cannot be.
fn pass_over(shape: &Shape) -> (r: bool)
    ensures
        r == passable(*shape),
    decreases shape,
{
    match shape {
        Shape::Refused => false,
        Shape::Present(inner) => pass_over(inner),
        Shape::NewtypeStruct(inner) => pass_over(inner),
        Shape::NewtypeVariant(_, inner) => pass_over(inner),
        Shape::List(items) => pass_over_items(items),
        Shape::Tuple(items) => pass_over_items(items),
        Shape::TupleStruct(items) => pass_over_items(items),
        Shape::TupleVariant(items) => pass_over_items(items),
        Shape::Entries(events) => pass_over_events(events),
        Shape::Struct(fields) => pass_over_fields(fields),
        Shape::StructVariant(fields) => pass_over_fields(fields),
        _ => true,
    }
}

fn pass_over_items(items: &Vec<Shape>) -> (r: bool)
    ensures
        r == passable_items(items@),
    decreases items,
{
    let mut i: usize = 0;
    proof {
        assert(items@.take(0) =~= Seq::<Shape>::empty());
    }
    while i < items.len()
        invariant
            i <= items@.len(),
            passable_items(items@.take(i as int)),
        decreases items.len() - i,
    {
        proof {
            assert(items@.take(i + 1).drop_last() =~= items@.take(i as int));
            assert(items@.take(i + 1).last() == items@[i as int]);
            assert(decreases_to!(items@ => items@[i as int]));
        }
        if !pass_over(&items[i]) {
            proof {
                lemma_items_stop(items@, i + 1);
            }
            return false;
        }
        i = i + 1;
    }
    proof {
        assert(items@.take(items@.len() as int) =~= items@);
    }
    true
}

fn pass_over_events(events: &Vec<MapEvent>) -> (r: bool)
    ensures
        r == passable_events(events@),
    decreases events,
{
    let mut i: usize = 0;
    proof {
        assert(events@.take(0) =~= Seq::<MapEvent>::empty());
    }
    while i < events.len()
        invariant
            i <= events@.len(),
            passable_events(events@.take(i as int)),
        decreases events.len() - i,
    {
        proof {
            assert(events@.take(i + 1).drop_last() =~= events@.take(i as int));
            assert(events@.take(i + 1).last() == events@[i as int]);
            assert(decreases_to!(events@ => events@[i as int]));
        }
        let passed: bool = match &events[i] {
            MapEvent::Key(k) => pass_over(k),
            MapEvent::Value(x) => pass_over(x),
        };
        if !passed {
            proof {
                lemma_events_stop(events@, i + 1);
            }
            return false;
        }
        i = i + 1;
    }
    proof {
        assert(events@.take(events@.len() as int) =~= events@);
    }
    true
}

fn pass_over_fields(fields: &Vec<(String, Shape)>) -> (r: bool)
    ensures
        r == passable_fields(fields@),
    decreases fields,
{
    let mut i: usize = 0;
    proof {
        assert(fields@.take(0) =~= Seq::<(String, Shape)>::empty());
    }
    while i < fields.len()
        invariant
            i <= fields@.len(),
            passable_fields(fields@.take(i as int)),
        decreases fields.len() - i,
    {
        proof {
            assert(fields@.take(i + 1).drop_last() =~= fields@.take(i as int));
            assert(fields@.take(i + 1).last() == fields@[i as int]);
            assert(decreases_to!(fields@ => fields@[i as int]));
        }
        if !pass_over(&fields[i].1) {
            proof {
                lemma_fields_stop(fields@, i + 1);
            }
            return false;
        }
        i = i + 1;
    }
    proof {
        assert(fields@.take(fields@.len() as int) =~= fields@);
    }
    true
}

/// `m` with the field `name` looked at: taken in if it is wanted, else passed
/// over; `None` where neither can be done.
pub open spec fn with_field(
    m: Map<Seq<char>, Value>,
    wanted: Seq<Seq<char>>,
    name: Seq<char>,
    x: Shape,
) -> Option<Map<Seq<char>, Value>> {
    if wanted.contains(name) {
        match reflected(x, 1) {
            Some(v) => Some(m.insert(name, v)),
            None => None,
        }
    } else if passable(x) {
        Some(m)
    } else {
        None
    }
}

/// The wanted fields of a struct.
pub open spec fn projected_fields(
    fields: Seq<(String, Shape)>,
    wanted: Seq<Seq<char>>,
) -> Option<Map<Seq<char>, Value>>
    decreases fields.len(),
{
    if fields.len() == 0 {
        Some(Map::empty())
    } else {
        match projected_fields(fields.drop_last(), wanted) {
            Some(m) => with_field(m, wanted, fields.last().0@, fields.last().1),
            None => None,
        }
    }
}

/// The wanted entries of a map, and the key that still waits for its value.
pub open spec fn projected_events(events: Seq<MapEvent>, wanted: Seq<Seq<char>>) -> Option<
    (Map<Seq<char>, Value>, Option<Seq<char>>),
>
    decreases events.len(),
{
    if events.len() == 0 {
        Some((Map::empty(), None))
    } else {
        match (projected_events(events.drop_last(), wanted), events.last()) {
            (None, _) => None,
            (Some((m, _)), MapEvent::Key(k)) => match reflected(k, 1) {
                Some(v) => match key_name(v) {
                    Some(name) => Some((m, Some(name))),
                    None => None,
                },
                None => None,
            },
            (Some((m, pending)), MapEvent::Value(x)) => match pending {
                Some(name) => match with_field(m, wanted, name, x) {
                    Some(n) => Some((n, None)),
                    None => None,
                },
                None => None,
            },
        }
    }
}

/// The wanted top-level fields of a document; `None` where it cannot be looked
/// at. A document that has no named fields has none of them, but a sequence or
/// a tuple cannot be looked at at all.
pub open spec fn projected(s: Shape, wanted: Seq<Seq<char>>) -> Option<Map<Seq<char>, Value>>
    decreases s,
{
    match s {
        Shape::Struct(fields) | Shape::StructVariant(fields) => projected_fields(fields@, wanted),
        Shape::Entries(events) => match projected_events(events@, wanted) {
            Some((m, _)) => Some(m),
            None => None,
        },
        Shape::Present(inner) => projected(*inner, wanted),
        Shape::NewtypeStruct(inner) => projected(*inner, wanted),
        Shape::List(_) | Shape::Tuple(_) | Shape::TupleStruct(_) | Shape::TupleVariant(_)
        | Shape::Refused => None,
        _ => Some(Map::empty()),
    }
}

/// `name` is among `wanted`.
fn is_wanted(wanted: &Vec<String>, name: &String) -> (r: bool)
    ensures
        r == spec::texts(wanted@).contains(name@),
{
    let ghost texts = spec::texts(wanted@);
    let mut i: usize = 0;
    while i < wanted.len()
        invariant
            i <= wanted@.len(),
            texts == spec::texts(wanted@),
            forall|j: int| 0 <= j < i ==> #[trigger] texts[j] != name@,
        decreases wanted.len() - i,
    {
        proof {
            assert(texts[i as int] == wanted@[i as int]@);
        }
        if wanted[i] == *name {
            return true;
        }
        i = i + 1;
    }
    false
}

/// Look at one field.
fn take_field(m: &mut DynamicMap, wanted: &Vec<String>, name: String, x: &Shape) -> (r: bool)
    ensures
        match with_field(old(m).fields(), spec::texts(wanted@), name@, *x) {
            Some(n) => r && final(m).fields() == n,
            None => !r,
        },
{
    if is_wanted(wanted, &name) {
        match reflect(x, 1) {
            Some(d) => {
                m.insert(name, d);
                true
            },
            None => false,
        }
    } else {
        pass_over(x)
    }
}

/// `r` holds the fields `m`, or is nothing where there are none.
pub open spec fn is_fields(r: Option<DynamicMap>, m: Option<Map<Seq<char>, Value>>) -> bool {
    match m {
        Some(m) => r matches Some(d) && d.fields() == m,
        None => r is None,
    }
}

proof fn lemma_projected_fields_fail(
    fields: Seq<(String, Shape)>,
    wanted: Seq<Seq<char>>,
    n: int,
)
    requires
        0 <= n <= fields.len(),
        projected_fields(fields.take(n), wanted) is None,
    ensures
        projected_fields(fields, wanted) is None,
    decreases fields.len() - n,
{
    if n < fields.len() {
        assert(fields.take(n + 1).drop_last() =~= fields.take(n));
        lemma_projected_fields_fail(fields, wanted, n + 1);
    } else {
        assert(fields.take(n) =~= fields);
    }
}

proof fn lemma_projected_events_fail(events: Seq<MapEvent>, wanted: Seq<Seq<char>>, n: int)
    requires
        0 <= n <= events.len(),
        projected_events(events.take(n), wanted) is None,
    ensures
        projected_events(events, wanted) is None,
    decreases events.len() - n,
{
    if n < events.len() {
        assert(events.take(n + 1).drop_last() =~= events.take(n));
        lemma_projected_events_fail(events, wanted, n + 1);
    } else {
        assert(events.take(n) =~= events);
    }
}

fn project_struct(fields: &Vec<(String, Shape)>, wanted: &Vec<String>) -> (r: Option<DynamicMap>)
    ensures
        is_fields(r, projected_fields(fields@, spec::texts(wanted@))),
{
    let ghost names = spec::texts(wanted@);
    let mut out = DynamicMap::new();
    let mut i: usize = 0;
    proof {
        assert(fields@.take(0) =~= Seq::<(String, Shape)>::empty());
    }
    while i < fields.len()
        invariant
            i <= fields@.len(),
            names == spec::texts(wanted@),
            projected_fields(fields@.take(i as int), names) == Some(out.fields()),
        decreases fields.len() - i,
    {
        proof {
            assert(fields@.take(i + 1).drop_last() =~= fields@.take(i as int));
            assert(fields@.take(i + 1).last() == fields@[i as int]);
        }
        if !take_field(&mut out, wanted, fields[i].0.clone(), &fields[i].1) {
            proof {
                lemma_projected_fields_fail(fields@, names, i + 1);
            }
            return None;
        }
        i = i + 1;
    }
    proof {
        assert(fields@.take(fields@.len() as int) =~= fields@);
    }
    Some(out)
}

fn project_entries(events: &Vec<MapEvent>, wanted: &Vec<String>) -> (r: Option<DynamicMap>)
    ensures
        is_fields(
            r,
            match projected_events(events@, spec::texts(wanted@)) {
                Some((m, _)) => Some(m),
                None => None,
            },
        ),
{
    let ghost names = spec::texts(wanted@);
    let mut out = DynamicMap::new();
    let mut pending: Option<String> = None;
    let mut i: usize = 0;
    proof {
        assert(events@.take(0) =~= Seq::<MapEvent>::empty());
    }
    while i < events.len()
        invariant
            i <= events@.len(),
            names == spec::texts(wanted@),
            projected_events(events@.take(i as int), names) == Some(
                (out.fields(), opt_text(pending)),
            ),
        decreases events.len() - i,
    {
        proof {
            assert(events@.take(i + 1).drop_last() =~= events@.take(i as int));
            assert(events@.take(i + 1).last() == events@[i as int]);
            if projected_events(events@.take(i + 1), names) is None {
                lemma_projected_events_fail(events@, names, i + 1);
            }
        }
        match &events[i] {
            MapEvent::Key(k) => match reflect(k, 1) {
                Some(d) => match name_of_key(d) {
                    Some(name) => {
                        pending = Some(name);
                    },
                    None => return None,
                },
                None => return None,
            },
            MapEvent::Value(x) => {
                let waiting: Option<String> = pending.take();
                match waiting {
                    Some(name) => {
                        if !take_field(&mut out, wanted, name, x) {
                            return None;
                        }
                    },
                    None => return None,
                }
            },
        }
        i = i + 1;
    }
    proof {
        assert(events@.take(events@.len() as int) =~= events@);
    }
    Some(out)
}

/// The wanted top-level fields of a document.
pub fn project(shape: &Shape, wanted: &Vec<String>) -> (r: Option<DynamicMap>)
    ensures
        is_fields(r, projected(*shape, spec::texts(wanted@))),
    decreases shape,
{
    match shape {
        Shape::Struct(fields) => project_struct(fields, wanted),
        Shape::StructVariant(fields) => project_struct(fields, wanted),
        Shape::Entries(events) => project_entries(events, wanted),
        Shape::Present(inner) => project(inner, wanted),
        Shape::NewtypeStruct(inner) => project(inner, wanted),
        Shape::List(_)
        | Shape::Tuple(_)
        | Shape::TupleStruct(_)
        | Shape::TupleVariant(_)
        | Shape::Refused => None,
        _ => Some(DynamicMap::new()),
    }
}

/// The values of the wanted fields, or the first field that is not there.
pub enum Resolved {
    /// All of them, in the order in which they were asked for.
    Found(Seq<Value>),
    /// This one is not there.
    Missing(Seq<char>),
}

/// Look the fields `paths` up in `m`.
pub open spec fn resolved(paths: Seq<Seq<char>>, m: Map<Seq<char>, Value>) -> Resolved
    decreases paths.len(),
{
    if paths.len() == 0 {
        Resolved::Found(Seq::empty())
    } else {
        match resolved(paths.drop_last(), m) {
            Resolved::Missing(p) => Resolved::Missing(p),
            Resolved::Found(vs) => if m.contains_key(paths.last()) {
                Resolved::Found(vs.push(m[paths.last()]))
            } else {
                Resolved::Missing(paths.last())
            },
        }
    }
}

/// What comes of looking for the keys of a document.
pub enum Extraction {
    /// Its keys.
    Keys(Seq<Seq<u8>>),
    /// The document cannot be looked at.
    Unreadable,
    /// It does not have this field.
    Missing(Seq<char>),
    /// This field is no sequence, but what is named here.
    NotASequence(Seq<char>, &'static str),
    /// This field of a composite index is a mapping.
    NotAScalar(Seq<char>),
    /// The field is a sequence of too many elements.
    TooLarge(nat),
    /// A value cannot be part of a key.
    Unencodable(Error),
}

/// The name of a kind of value.
pub open spec fn kind_name(v: Value) -> &'static str {
    match v {
        Value::Null => "Null",
        Value::Bool(_) => "Bool",
        Value::U64(_) => "U64",
        Value::I64(_) => "I64",
        Value::F64(_) => "F64",
        Value::String(_) => "String",
        Value::Bytes(_) => "Bytes",
        Value::Sequence(_) => "Seq",
        Value::Mapping(_) => "Map",
        Value::Enum { .. } => "Enum",
    }
}

/// The keys of the elements of a sequence.
pub open spec fn each_keys(items: Seq<Value>) -> Seq<Seq<u8>> {
    items.map_values(|v: Value| key::field_bytes(v))
}

/// Where the first value stands that is no part of a key for being a mapping;
/// `None` where there is none, or where another value is none either, ahead of
/// it.
pub open spec fn first_mapping(vs: Seq<Value>) -> Option<int>
    decreases vs.len(),
{
    if vs.len() == 0 {
        None
    } else {
        match first_mapping(vs.drop_last()) {
            Some(i) => Some(i),
            None => if key::fields_error(vs.drop_last()) is None && vs.last() is Mapping {
                Some(vs.len() - 1)
            } else {
                None
            },
        }
    }
}

/// The keys of given fields under an index on `paths`.
pub open spec fn keys_of(kind: IndexKind, paths: Seq<Seq<char>>, vs: Seq<Value>) -> Extraction {
    if kind == IndexKind::Each {
        match vs[0] {
            Value::Sequence(items) => if items.len() > MAX_EACH_ENTRIES {
                Extraction::TooLarge(items.len())
            } else {
                match key::fields_error(items) {
                    Some(e) => Extraction::Unencodable(e),
                    None => Extraction::Keys(each_keys(items)),
                }
            },
            v => Extraction::NotASequence(paths[0], kind_name(v)),
        }
    } else if kind == IndexKind::Composite && key::shape_error(kind, paths.len(), vs.len()) is None
        && first_mapping(vs) is Some {
        Extraction::NotAScalar(paths[first_mapping(vs)->0])
    } else {
        match key::key_error(kind, paths.len(), vs) {
            Some(e) => Extraction::Unencodable(e),
            None => Extraction::Keys(seq![key::key_bytes(kind, vs)]),
        }
    }
}

/// The keys of a document under an index.
pub open spec fn extracted(kind: IndexKind, paths: Seq<Seq<char>>, doc: Shape) -> Extraction {
    match projected(doc, paths) {
        None => Extraction::Unreadable,
        Some(m) => match resolved(paths, m) {
            Resolved::Missing(p) => Extraction::Missing(p),
            Resolved::Found(vs) => keys_of(kind, paths, vs),
        },
    }
}

/// The message of a document that cannot be looked at.
pub open spec fn unreadable() -> Error {
    Error::InvalidArgument(
        "index extraction: Document Serialize impl rejected reflection (see DynamicSerError for the detail)",
    )
}

/// `r` tells of `x`, for the given collection and index.
pub open spec fn tells(
    r: Result<Vec<EncodedIndexKey>, Error>,
    x: Extraction,
    collection: Seq<char>,
    index: Seq<char>,
) -> bool {
    match x {
        Extraction::Keys(ks) => r matches Ok(v) && v@.map_values(|k: EncodedIndexKey| k@) == ks,
        Extraction::Unreadable => r == Err::<Vec<EncodedIndexKey>, Error>(unreadable()),
        Extraction::Missing(p) => r matches Err(
            Error::IndexFieldMissing { collection: c, index: i, path },
        ) && c@ == collection && i@ == index && path@ == p,
        Extraction::NotASequence(p, kind) => r matches Err(
            Error::IndexFieldTypeMismatch { collection: c, index: i, path, expected, found },
        ) && c@ == collection && i@ == index && path@ == p && expected == "Seq" && found == kind,
        Extraction::NotAScalar(p) => r matches Err(
            Error::IndexFieldTypeMismatch { collection: c, index: i, path, expected, found },
        ) && c@ == collection && i@ == index && path@ == p && expected == "scalar" && found
            == "Map",
        Extraction::TooLarge(n) => r matches Err(
            Error::EachIndexTooLarge { collection: c, index: i, len, max },
        ) && c@ == collection && i@ == index && len == n && max == MAX_EACH_ENTRIES,
        Extraction::Unencodable(e) => r == Err::<Vec<EncodedIndexKey>, Error>(e),
    }
}

/// The name of the kind of `value`.
pub fn dynamic_kind_name(value: &Dynamic) -> (r: &'static str)
    ensures
        r == kind_name(value.value()),
{
    match value {
        Dynamic::Null => "Null",
        Dynamic::Bool(_) => "Bool",
        Dynamic::U64(_) => "U64",
        Dynamic::I64(_) => "I64",
        Dynamic::F64(_) => "F64",
        Dynamic::String(_) => "String",
        Dynamic::Bytes(_) => "Bytes",
        Dynamic::Sequence(_) => "Seq",
        Dynamic::Mapping(_) => "Map",
        Dynamic::Enum { .. } => "Enum",
    }
}

proof fn lemma_missing_stays(paths: Seq<Seq<char>>, m: Map<Seq<char>, Value>, n: int)
    requires
        0 <= n <= paths.len(),
        resolved(paths.take(n), m) is Missing,
    ensures
        resolved(paths, m) == resolved(paths.take(n), m),
    decreases paths.len() - n,
{
    if n < paths.len() {
        assert(paths.take(n + 1).drop_last() =~= paths.take(n));
        lemma_missing_stays(paths, m, n + 1);
    } else {
        assert(paths.take(n) =~= paths);
    }
}

/// The fields of `doc` that the index asks for, in the order in which it asks.
fn project_fields(collection: &str, spec: &IndexSpec, doc: &Shape) -> (r: Result<
    Vec<Dynamic>,
    Error,
>)
    ensures
        match projected(*doc, spec::texts(spec.key_paths@)) {
            None => r == Err::<Vec<Dynamic>, Error>(unreadable()),
            Some(m) => match resolved(spec::texts(spec.key_paths@), m) {
                Resolved::Missing(p) => r matches Err(
                    Error::IndexFieldMissing { collection: c, index: i, path },
                ) && c@ == collection@ && i@ == spec.name@ && path@ == p,
                Resolved::Found(vs) => r matches Ok(v) && codec::values(v@) == vs,
            },
        },
{
    let ghost paths = spec::texts(spec.key_paths@);
    let found: DynamicMap = match project(doc, &spec.key_paths) {
        Some(m) => m,
        None => return Err(
            Error::InvalidArgument(
                "index extraction: Document Serialize impl rejected reflection (see DynamicSerError for the detail)",
            ),
        ),
    };
    let ghost m = found.fields();
    let mut out: Vec<Dynamic> = Vec::new();
    let mut i: usize = 0;
    proof {
        assert(paths.take(0) =~= Seq::<Seq<char>>::empty());
    }
    while i < spec.key_paths.len()
        invariant
            i <= spec.key_paths@.len(),
            paths == spec::texts(spec.key_paths@),
            projected(*doc, paths) == Some(m),
            resolved(paths.take(i as int), m) == Resolved::Found(codec::values(out@)),
            found.fields() == m,
        decreases spec.key_paths.len() - i,
    {
        let ghost path = paths[i as int];
        proof {
            assert(path == spec.key_paths@[i as int]@);
            assert(paths.take(i + 1).drop_last() =~= paths.take(i as int));
            assert(paths.take(i + 1).last() == path);
        }
        match found.get(spec.key_paths[i].as_str()) {
            Some(d) => {
                let ghost before = out@;
                let copy: Dynamic = d.clone();
                out.push(copy);
                proof {
                    assert(out@.drop_last() =~= before);
                    assert(codec::values(out@) =~= codec::values(before).push(d.value()));
                }
            },
            None => {
                proof {
                    lemma_missing_stays(paths, m, i + 1);
                }
                return Err(
                    Error::IndexFieldMissing {
                        collection: collection.to_owned(),
                        index: spec.name.clone(),
                        path: spec.key_paths[i].clone(),
                    },
                );
            },
        }
        i = i + 1;
    }
    proof {
        assert(paths.take(paths.len() as int) =~= paths);
    }
    Ok(out)
}

/// The keys of the elements of a sequence field.
fn extract_each(collection: &str, spec: &IndexSpec, value: &Dynamic) -> (r: Result<
    Vec<EncodedIndexKey>,
    Error,
>)
    requires
        spec.key_paths@.len() > 0,
    ensures
        tells(
            r,
            keys_of(IndexKind::Each, spec::texts(spec.key_paths@), seq![value.value()]),
            collection@,
            spec.name@,
        ),
{
    let items: &Vec<Dynamic> = match value {
        Dynamic::Sequence(items) => items,
        _ => return Err(
            Error::IndexFieldTypeMismatch {
                collection: collection.to_owned(),
                index: spec.name.clone(),
                path: spec.key_paths[0].clone(),
                expected: "Seq",
                found: dynamic_kind_name(value),
            },
        ),
    };
    let ghost vs = codec::values(items@);
    proof {
        codec::lemma_values(items@);
    }
    if items.len() > MAX_EACH_ENTRIES {
        return Err(
            Error::EachIndexTooLarge {
                collection: collection.to_owned(),
                index: spec.name.clone(),
                len: items.len(),
                max: MAX_EACH_ENTRIES,
            },
        );
    }
    let mut out: Vec<EncodedIndexKey> = Vec::new();
    let mut i: usize = 0;
    proof {
        assert(vs.take(0) =~= Seq::<Value>::empty());
    }
    while i < items.len()
        invariant
            i <= items@.len(),
            items@.len() <= MAX_EACH_ENTRIES,
            value.value() == Value::Sequence(vs),
            vs == codec::values(items@),
            vs.len() == items@.len(),
            forall|j: int| 0 <= j < items@.len() ==> #[trigger] vs[j] == items@[j].value(),
            key::fields_error(vs.take(i as int)) is None,
            out@.len() == i,
            forall|j: int| 0 <= j < i ==> (#[trigger] out@[j])@ == key::field_bytes(vs[j]),
        decreases items.len() - i,
    {
        proof {
            assert(vs.take(i + 1).drop_last() =~= vs.take(i as int));
            assert(vs.take(i + 1).last() == vs[i as int]);
        }
        match encode_field(&items[i]) {
            Ok(k) => out.push(k),
            Err(e) => {
                proof {
                    key::lemma_first_error(vs, i + 1);
                }
                return Err(e);
            },
        }
        i = i + 1;
    }
    proof {
        assert(vs.take(vs.len() as int) =~= vs);
        assert(out@.map_values(|k: EncodedIndexKey| k@) =~= each_keys(vs));
    }
    Ok(out)
}

proof fn lemma_first_mapping_stays(vs: Seq<Value>, n: int)
    requires
        0 <= n <= vs.len(),
        first_mapping(vs.take(n)) is Some || key::fields_error(vs.take(n)) is Some,
    ensures
        first_mapping(vs) == first_mapping(vs.take(n)),
    decreases vs.len() - n,
{
    if n < vs.len() {
        assert(vs.take(n + 1).drop_last() =~= vs.take(n));
        lemma_first_mapping_stays(vs, n + 1);
    } else {
        assert(vs.take(n) =~= vs);
    }
}

/// Where the first mapping stands that keeps `fields` from making a key.
fn find_mapping(fields: &Vec<Dynamic>) -> (r: Option<usize>)
    ensures
        match first_mapping(codec::values(fields@)) {
            Some(i) => r matches Some(j) && j == i && j < fields@.len(),
            None => r is None,
        },
{
    let ghost vs = codec::values(fields@);
    proof {
        codec::lemma_values(fields@);
        assert(vs.take(0) =~= Seq::<Value>::empty());
    }
    let mut i: usize = 0;
    while i < fields.len()
        invariant
            i <= fields@.len(),
            vs == codec::values(fields@),
            vs.len() == fields@.len(),
            forall|j: int| 0 <= j < fields@.len() ==> #[trigger] vs[j] == fields@[j].value(),
            first_mapping(vs.take(i as int)) is None,
            key::fields_error(vs.take(i as int)) is None,
        decreases fields.len() - i,
    {
        proof {
            assert(vs.take(i + 1).drop_last() =~= vs.take(i as int));
            assert(vs.take(i + 1).last() == vs[i as int]);
        }
        if let Dynamic::Mapping(_) = &fields[i] {
            proof {
                lemma_first_mapping_stays(vs, i + 1);
            }
            return Some(i);
        }
        if encode_field(&fields[i]).is_err() {
            proof {
                lemma_first_mapping_stays(vs, i + 1);
            }
            return None;
        }
        i = i + 1;
    }
    proof {
        assert(vs.take(vs.len() as int) =~= vs);
    }
    None
}

/// The key of the fields of a composite index.
fn extract_composite(collection: &str, spec: &IndexSpec, fields: &Vec<Dynamic>) -> (r: Result<
    Vec<EncodedIndexKey>,
    Error,
>)
    requires
        spec.kind == IndexKind::Composite,
        fields@.len() == spec.key_paths@.len(),
    ensures
        tells(
            r,
            keys_of(spec.kind, spec::texts(spec.key_paths@), codec::values(fields@)),
            collection@,
            spec.name@,
        ),
{
    proof {
        codec::lemma_values(fields@);
        lemma_mapping_is_an_error(codec::values(fields@));
    }
    match encode_index_key(spec, fields.as_slice()) {
        Ok(k) => {
            let mut out: Vec<EncodedIndexKey> = Vec::new();
            let ghost bytes = k@;
            out.push(k);
            proof {
                assert(out@.map_values(|k: EncodedIndexKey| k@) =~= seq![bytes]);
            }
            Ok(out)
        },
        Err(e) => {
            if fields.len() >= 2 {
                if let Some(i) = find_mapping(fields) {
                    return Err(
                        Error::IndexFieldTypeMismatch {
                            collection: collection.to_owned(),
                            index: spec.name.clone(),
                            path: spec.key_paths[i].clone(),
                            expected: "scalar",
                            found: "Map",
                        },
                    );
                }
            }
            Err(e)
        },
    }
}

proof fn lemma_mapping_is_an_error(vs: Seq<Value>)
    ensures
        first_mapping(vs) is Some ==> key::fields_error(vs) is Some,
    decreases vs.len(),
{
    if vs.len() > 0 {
        lemma_mapping_is_an_error(vs.drop_last());
    }
}

/// The keys of a document under the index `spec`: one, or for an index on the
/// elements of a sequence one for each.
pub fn extract_index_keys(collection: &str, spec: &IndexSpec, doc: &Shape) -> (r: Result<
    Vec<EncodedIndexKey>,
    Error,
>)
    requires
        spec.kind == IndexKind::Each ==> spec.key_paths@.len() > 0,
    ensures
        tells(
            r,
            extracted(spec.kind, spec::texts(spec.key_paths@), *doc),
            collection@,
            spec.name@,
        ),
{
    let ghost paths = spec::texts(spec.key_paths@);
    let fields: Vec<Dynamic> = match project_fields(collection, spec, doc) {
        Ok(fields) => fields,
        Err(e) => return Err(e),
    };
    proof {
        codec::lemma_values(fields@);
        lemma_resolved_len(paths, projected(*doc, paths)->0);
    }
    match spec.kind {
        IndexKind::Each => extract_each(collection, spec, &fields[0]),
        IndexKind::Composite => extract_composite(collection, spec, &fields),
        _ => match encode_index_key(spec, fields.as_slice()) {
            Ok(k) => {
                let mut out: Vec<EncodedIndexKey> = Vec::new();
                let ghost bytes = k@;
                out.push(k);
                proof {
                    assert(out@.map_values(|k: EncodedIndexKey| k@) =~= seq![bytes]);
                }
                Ok(out)
            },
            Err(e) => Err(e),
        },
    }
}

proof fn lemma_resolved_len(paths: Seq<Seq<char>>, m: Map<Seq<char>, Value>)
    ensures
        resolved(paths, m) matches Resolved::Found(vs) ==> vs.len() == paths.len(),
    decreases paths.len(),
{
    if paths.len() > 0 {
        lemma_resolved_len(paths.drop_last(), m);
    }
}

/// The shape of a document under the wrappings that have no say in its fields.
pub open spec fn unwrapped(s: Shape) -> Shape
    decreases s,
{
    match s {
        Shape::Present(inner) => unwrapped(*inner),
        Shape::NewtypeStruct(inner) => unwrapped(*inner),
        _ => s,
    }
}

/// Looking only at the wanted fields finds for each of them what looking at
/// the whole document finds.
pub proof fn law_projection_agrees_with_reflection(s: Shape, wanted: Seq<Seq<char>>, name: Seq<char>)
    requires
        wanted.contains(name),
        projected(s, wanted) is Some,
        reflected(s, 0) is Some,
        !(unwrapped(s) is NewtypeVariant),
    ensures
        projected(s, wanted)->0.contains_key(name) <==> (reflected(s, 0)->0 matches Value::Mapping(m)
            && m.contains_key(name)),
        projected(s, wanted)->0.contains_key(name) ==> (reflected(s, 0)->0 matches Value::Mapping(m)
            && projected(s, wanted)->0[name] == m[name]),
    decreases s,
{
    match s {
        Shape::Present(inner) => {
            law_projection_agrees_with_reflection(*inner, wanted, name);
        },
        Shape::NewtypeStruct(inner) => {
            law_projection_agrees_with_reflection(*inner, wanted, name);
        },
        Shape::Struct(fields) | Shape::StructVariant(fields) => {
            lemma_fields_agree(fields@, wanted, name);
        },
        Shape::Entries(events) => {
            lemma_events_agree(events@, wanted, name);
        },
        _ => {},
    }
}

proof fn lemma_fields_agree(
    fields: Seq<(String, Shape)>,
    wanted: Seq<Seq<char>>,
    name: Seq<char>,
)
    requires
        wanted.contains(name),
        projected_fields(fields, wanted) is Some,
        reflected_fields(fields, 0) is Some,
    ensures
        projected_fields(fields, wanted)->0.contains_key(name) <==> reflected_fields(
            fields,
            0,
        )->0.contains_key(name),
        projected_fields(fields, wanted)->0.contains_key(name) ==> projected_fields(
            fields,
            wanted,
        )->0[name] == reflected_fields(fields, 0)->0[name],
    decreases fields.len(),
{
    if fields.len() > 0 {
        lemma_fields_agree(fields.drop_last(), wanted, name);
    }
}

proof fn lemma_events_agree(events: Seq<MapEvent>, wanted: Seq<Seq<char>>, name: Seq<char>)
    requires
        wanted.contains(name),
        projected_events(events, wanted) is Some,
        reflected_events(events, 0) is Some,
    ensures
        match (projected_events(events, wanted), reflected_events(events, 0)) {
            (Some((p, a)), Some((q, b))) => {
                &&& a == b
                &&& p.contains_key(name) == q.contains_key(name)
                &&& p.contains_key(name) ==> p[name] == q[name]
            },
            _ => false,
        },
    decreases events.len(),
{
    if events.len() > 0 {
        lemma_events_agree(events.drop_last(), wanted, name);
    }
}

/// Scalars are taken as they are, at every depth: truth values, numbers, the
/// bits of floating-point numbers, text, bytes. A character is text, a variant
/// without fields is its name, and what holds nothing is null.
pub proof fn law_scalars_are_taken_as_they_are(
    depth: nat,
    b: bool,
    n: i64,
    m: u64,
    bits: u64,
    c: char,
    t: String,
    bytes: Vec<u8>,
)
    ensures
        reflected(Shape::Bool(b), depth) == Some(Value::Bool(b)),
        reflected(Shape::Signed(n), depth) == Some(Value::I64(n)),
        reflected(Shape::Unsigned(m), depth) == Some(Value::U64(m)),
        reflected(Shape::Float(bits), depth) == Some(Value::F64(bits)),
        reflected(Shape::Char(c), depth) == Some(Value::String(seq![c])),
        reflected(Shape::Text(t), depth) == Some(Value::String(t@)),
        reflected(Shape::UnitVariant(t), depth) == Some(Value::String(t@)),
        reflected(Shape::Bytes(bytes), depth) == Some(Value::Bytes(bytes@)),
        reflected(Shape::Absent, depth) == Some(Value::Null),
        reflected(Shape::Unit, depth) == Some(Value::Null),
        reflected(Shape::UnitStruct, depth) == Some(Value::Null),
        reflected(Shape::Refused, depth) is None,
{
}

/// Of a number of 128 bits the low 64 are taken, so that one that fits is taken
/// as it is.
pub proof fn law_wide_numbers_keep_their_low_bits(depth: nat, n: i128, m: u128)
    ensures
        i64::MIN <= n <= i64::MAX ==> reflected(Shape::I128(n), depth) == Some(
            Value::I64(n as i64),
        ) && (n as i64) as int == n as int,
        reflected(Shape::I128(n), depth) matches Some(Value::I64(x)) && (x - n) % 0x1_0000_0000_0000_0000
            == 0,
        reflected(Shape::U128(m), depth) matches Some(Value::U64(y)) && y == m
            % 0x1_0000_0000_0000_0000,
{
    let x = n as i64;
    assert((n as i64) as u64 == (n as u128) as u64) by (bit_vector);
    let u = n as u128;
    let z = u as u64;
    assert(u as u64 == u % 0x1_0000_0000_0000_0000u128) by (bit_vector);
    assert(m as u64 == m % 0x1_0000_0000_0000_0000u128) by (bit_vector);
    if n < 0 {
        assert(u == n + 0x1_0000_0000_0000_0000 * 0x1_0000_0000_0000_0000) by {
            assert(n < 0 ==> (n as u128) == n + 0x1_0000_0000_0000_0000_0000_0000_0000_0000)
                by (bit_vector);
        }
    }
    if x < 0 {
        assert(x < 0 ==> (x as u64) == x + 0x1_0000_0000_0000_0000) by (bit_vector);
    }
    assert((x - n) % 0x1_0000_0000_0000_0000 == 0);
}

/// A present optional value, and a struct around one value, are exactly what
/// the value inside is, at every depth, and so are the fields of such a
/// document.
pub proof fn law_wrappings_do_not_show(inner: Box<Shape>, depth: nat, wanted: Seq<Seq<char>>)
    ensures
        reflected(Shape::Present(inner), depth) == reflected(*inner, depth),
        reflected(Shape::NewtypeStruct(inner), depth) == reflected(*inner, depth),
        projected(Shape::Present(inner), wanted) == projected(*inner, wanted),
        projected(Shape::NewtypeStruct(inner), wanted) == projected(*inner, wanted),
        passable(Shape::Present(inner)) == passable(*inner),
        passable(Shape::NewtypeStruct(inner)) == passable(*inner),
{
}

/// A variant around one value is that value under the name of the variant, one
/// level down.
pub proof fn law_variants_name_their_value(name: String, inner: Box<Shape>, depth: nat)
    ensures
        depth + 1 >= 32 || reflected(*inner, depth + 1) is None ==> reflected(
            Shape::NewtypeVariant(name, inner),
            depth,
        ) is None,
        depth + 1 < 32 ==> (reflected(*inner, depth + 1) matches Some(v) ==> (reflected(
            Shape::NewtypeVariant(name, inner),
            depth,
        ) matches Some(Value::Mapping(m)) && m.contains_key(name@) && m[name@] == v && forall|
            k: Seq<char>,
        | #[trigger] m.contains_key(k) ==> k == name@)),
        passable(Shape::NewtypeVariant(name, inner)) == passable(*inner),
{
}

/// Sequences, tuples and their kin are made of what their elements are made of,
/// in order, one level down. They cannot be taken where some element cannot be,
/// where there are too many, or where they are nested too deep and not empty.
pub proof fn law_elements_are_taken_in_order(items: Vec<Shape>, depth: nat)
    ensures
        reflected(Shape::Tuple(items), depth) == reflected(Shape::List(items), depth),
        reflected(Shape::TupleStruct(items), depth) == reflected(Shape::List(items), depth),
        reflected(Shape::TupleVariant(items), depth) == reflected(Shape::List(items), depth),
        reflected(Shape::List(items), depth) is Some <==> items@.len() == 0 || items@.len() <= 16384
            && depth + 1 < 32 && forall|i: int|
            0 <= i < items@.len() ==> reflected(#[trigger] items@[i], depth + 1) is Some,
        reflected(Shape::List(items), depth) matches Some(v) ==> (v matches Value::Sequence(vs)
            && vs.len() == items@.len() && forall|i: int|
            0 <= i < items@.len() ==> reflected(#[trigger] items@[i], depth + 1) == Some(vs[i])),
        passable(Shape::List(items)) <==> forall|i: int|
            0 <= i < items@.len() ==> passable(#[trigger] items@[i]),
        passable(Shape::Tuple(items)) == passable(Shape::List(items)),
        passable(Shape::TupleStruct(items)) == passable(Shape::List(items)),
        passable(Shape::TupleVariant(items)) == passable(Shape::List(items)),
{
    lemma_items(items@, depth);
}

proof fn lemma_items(items: Seq<Shape>, depth: nat)
    ensures
        reflected_items(items, depth) is Some <==> items.len() == 0 || items.len() <= 16384 && depth
            + 1 < 32 && forall|i: int|
            0 <= i < items.len() ==> reflected(#[trigger] items[i], depth + 1) is Some,
        reflected_items(items, depth) matches Some(vs) ==> vs.len() == items.len() && forall|i: int|
            0 <= i < items.len() ==> reflected(#[trigger] items[i], depth + 1) == Some(vs[i]),
        passable_items(items) <==> forall|i: int|
            0 <= i < items.len() ==> passable(#[trigger] items[i]),
    decreases items.len(),
{
    if items.len() > 0 {
        let some = items.drop_last();
        let n = items.len() - 1;
        lemma_items(some, depth);
        assert forall|i: int| 0 <= i < n implies some[i] == items[i] by {}
        if reflected_items(items, depth) is Some {
            assert forall|i: int| 0 <= i < items.len() implies reflected(
                #[trigger] items[i],
                depth + 1,
            ) == Some(reflected_items(items, depth)->0[i]) by {
                if i < n {
                    assert(reflected(some[i], depth + 1) is Some);
                }
            }
        } else if items.len() <= 16384 && depth + 1 < 32 && forall|i: int|
            0 <= i < items.len() ==> reflected(#[trigger] items[i], depth + 1) is Some {
            assert forall|i: int| 0 <= i < some.len() implies reflected(
                #[trigger] some[i],
                depth + 1,
            ) is Some by {
                assert(reflected(items[i], depth + 1) is Some);
            }
            assert(reflected(items[n], depth + 1) is Some);
        }
        if passable_items(items) {
            assert forall|i: int| 0 <= i < items.len() implies passable(#[trigger] items[i]) by {
                if i < n {
                    assert(passable(some[i]));
                }
            }
        } else if forall|i: int| 0 <= i < items.len() ==> passable(#[trigger] items[i]) {
            assert forall|i: int| 0 <= i < some.len() implies passable(#[trigger] some[i]) by {
                assert(passable(items[i]));
            }
            assert(passable(items[n]));
        }
    }
}

/// A struct is made of what its fields are made of, by name, one level down; of
/// fields of one name the last counts. It cannot be taken where some field
/// cannot be, or where it is nested too deep and not empty.
pub proof fn law_fields_are_taken_by_name(fields: Vec<(String, Shape)>, depth: nat)
    ensures
        reflected(Shape::StructVariant(fields), depth) == reflected(Shape::Struct(fields), depth),
        reflected(Shape::Struct(fields), depth) is Some <==> fields@.len() == 0 || depth + 1 < 32
            && forall|i: int|
            0 <= i < fields@.len() ==> reflected((#[trigger] fields@[i]).1, depth + 1) is Some,
        reflected(Shape::Struct(fields), depth) matches Some(v) ==> (v matches Value::Mapping(m) && {
            &&& forall|i: int|
                0 <= i < fields@.len() && (forall|j: int|
                    i < j < fields@.len() ==> (#[trigger] fields@[j]).0@ != fields@[i].0@)
                    ==> m.contains_key((#[trigger] fields@[i]).0@) && reflected(
                    fields@[i].1,
                    depth + 1,
                ) == Some(m[fields@[i].0@])
            &&& forall|k: Seq<char>| #[trigger]
                m.contains_key(k) ==> exists|i: int|
                    0 <= i < fields@.len() && (#[trigger] fields@[i]).0@ == k
        }),
        passable(Shape::Struct(fields)) <==> forall|i: int|
            0 <= i < fields@.len() ==> passable((#[trigger] fields@[i]).1),
        passable(Shape::StructVariant(fields)) == passable(Shape::Struct(fields)),
{
    lemma_named(fields@, depth);
    lemma_named_passable(fields@);
    if reflected_fields(fields@, depth) is Some {
        let m = reflected_fields(fields@, depth)->0;
        assert forall|i: int|
            0 <= i < fields@.len() && (forall|j: int|
                i < j < fields@.len() ==> (#[trigger] fields@[j]).0@
                    != fields@[i].0@) implies m.contains_key((#[trigger] fields@[i]).0@)
            && reflected(fields@[i].1, depth + 1) == Some(m[fields@[i].0@]) by {
            lemma_named_value(fields@, depth, i);
        }
        assert forall|k: Seq<char>| #[trigger] m.contains_key(k) implies exists|i: int|
            0 <= i < fields@.len() && (#[trigger] fields@[i]).0@ == k by {
            let i = lemma_named_names(fields@, depth, k);
            assert(fields@[i].0@ == k);
        }
    }
}

proof fn lemma_named(fields: Seq<(String, Shape)>, depth: nat)
    ensures
        reflected_fields(fields, depth) is Some <==> fields.len() == 0 || depth + 1 < 32 && forall|
            i: int,
        | 0 <= i < fields.len() ==> reflected((#[trigger] fields[i]).1, depth + 1) is Some,
    decreases fields.len(),
{
    if fields.len() > 0 {
        let some = fields.drop_last();
        let n = fields.len() - 1;
        lemma_named(some, depth);
        if reflected_fields(fields, depth) is Some {
            assert forall|i: int| 0 <= i < fields.len() implies reflected(
                (#[trigger] fields[i]).1,
                depth + 1,
            ) is Some by {
                if i < n {
                    assert(some[i] == fields[i]);
                }
            }
        } else if depth + 1 < 32 && forall|i: int|
            0 <= i < fields.len() ==> reflected((#[trigger] fields[i]).1, depth + 1) is Some {
            assert forall|i: int| 0 <= i < some.len() implies reflected(
                (#[trigger] some[i]).1,
                depth + 1,
            ) is Some by {
                assert(some[i] == fields[i]);
            }
            assert(reflected(fields[n].1, depth + 1) is Some);
        }
    }
}

proof fn lemma_named_value(fields: Seq<(String, Shape)>, depth: nat, i: int)
    requires
        reflected_fields(fields, depth) is Some,
        0 <= i < fields.len(),
        forall|j: int| i < j < fields.len() ==> (#[trigger] fields[j]).0@ != fields[i].0@,
    ensures
        reflected_fields(fields, depth)->0.contains_key(fields[i].0@),
        reflected(fields[i].1, depth + 1) == Some(reflected_fields(fields, depth)->0[fields[i].0@]),
    decreases fields.len(),
{
    let some = fields.drop_last();
    let n = fields.len() - 1;
    if i < n {
        assert(some[i] == fields[i]);
        assert forall|j: int| i < j < some.len() implies (#[trigger] some[j]).0@
            != some[i].0@ by {
            assert(some[j] == fields[j]);
        }
        assert(fields[n].0@ != fields[i].0@);
        lemma_named_value(some, depth, i);
    }
}

proof fn lemma_named_names(fields: Seq<(String, Shape)>, depth: nat, k: Seq<char>) -> (i: int)
    requires
        reflected_fields(fields, depth) is Some,
        reflected_fields(fields, depth)->0.contains_key(k),
    ensures
        0 <= i < fields.len(),
        fields[i].0@ == k,
    decreases fields.len(),
{
    if fields.last().0@ == k {
        fields.len() - 1
    } else {
        let i = lemma_named_names(fields.drop_last(), depth, k);
        assert(fields.drop_last()[i] == fields[i]);
        i
    }
}

proof fn lemma_named_passable(fields: Seq<(String, Shape)>)
    ensures
        passable_fields(fields) <==> forall|i: int|
            0 <= i < fields.len() ==> passable((#[trigger] fields[i]).1),
    decreases fields.len(),
{
    if fields.len() > 0 {
        let some = fields.drop_last();
        let n = fields.len() - 1;
        lemma_named_passable(some);
        if passable_fields(fields) {
            assert forall|i: int| 0 <= i < fields.len() implies passable(
                (#[trigger] fields[i]).1,
            ) by {
                if i < n {
                    assert(some[i] == fields[i]);
                }
            }
        } else if forall|i: int| 0 <= i < fields.len() ==> passable((#[trigger] fields[i]).1) {
            assert forall|i: int| 0 <= i < some.len() implies passable((#[trigger] some[i]).1) by {
                assert(some[i] == fields[i]);
            }
            assert(passable(fields[n].1));
        }
    }
}

/// A map is made of the values that follow a key, by the name of that key, one
/// level down; of values of one name the last counts. It cannot be taken where a
/// key or a value cannot be, where a key makes no name, where a value does not
/// follow a key, or where the map is nested too deep and not empty.
pub proof fn law_entries_are_taken_by_key(events: Vec<MapEvent>, depth: nat)
    ensures
        reflected(Shape::Entries(events), depth) is Some <==> events@.len() == 0 || depth + 1 < 32
            && forall|i: int|
            0 <= i < events@.len() ==> match #[trigger] events@[i] {
                MapEvent::Key(k) => reflected(k, depth + 1) is Some && key_name(
                    reflected(k, depth + 1)->0,
                ) is Some,
                MapEvent::Value(x) => i > 0 && events@[i - 1] is Key && reflected(x, depth + 1)
                    is Some,
            },
        reflected(Shape::Entries(events), depth) matches Some(v) ==> (v matches Value::Mapping(m) && {
            &&& forall|i: int|
                0 < i < events@.len() && events@[i] is Value && (forall|j: int|
                    i < j < events@.len() && (#[trigger] events@[j]) is Value ==> key_name(
                        reflected(events@[j - 1]->Key_0, depth + 1)->0,
                    ) != key_name(reflected(events@[i - 1]->Key_0, depth + 1)->0)) ==> {
                    let name = key_name(reflected(events@[i - 1]->Key_0, depth + 1)->0)->0;
                    m.contains_key(name) && reflected(
                        (#[trigger] events@[i])->Value_0,
                        depth + 1,
                    ) == Some(m[name])
                }
            &&& forall|k: Seq<char>| #[trigger]
                m.contains_key(k) ==> exists|i: int|
                    0 < i < events@.len() && (#[trigger] events@[i]) is Value && key_name(
                        reflected(events@[i - 1]->Key_0, depth + 1)->0,
                    ) == Some(k)
        }),
        passable(Shape::Entries(events)) <==> forall|i: int|
            0 <= i < events@.len() ==> match #[trigger] events@[i] {
                MapEvent::Key(k) => passable(k),
                MapEvent::Value(x) => passable(x),
            },
{
    lemma_keyed(events@, depth);
    lemma_keyed_passable(events@);
    if reflected_events(events@, depth) is Some {
        let m = (reflected_events(events@, depth)->0).0;
        assert forall|i: int|
            0 < i < events@.len() && events@[i] is Value && (forall|j: int|
                i < j < events@.len() && (#[trigger] events@[j]) is Value ==> key_name(
                    reflected(events@[j - 1]->Key_0, depth + 1)->0,
                ) != key_name(reflected(events@[i - 1]->Key_0, depth + 1)->0)) implies {
            let name = key_name(reflected(events@[i - 1]->Key_0, depth + 1)->0)->0;
            m.contains_key(name) && reflected((#[trigger] events@[i])->Value_0, depth + 1) == Some(
                m[name],
            )
        } by {
            lemma_keyed_value(events@, depth, i);
        }
        assert forall|k: Seq<char>| #[trigger] m.contains_key(k) implies exists|i: int|
            0 < i < events@.len() && (#[trigger] events@[i]) is Value && key_name(
                reflected(events@[i - 1]->Key_0, depth + 1)->0,
            ) == Some(k) by {
            let i = lemma_keyed_names(events@, depth, k);
            assert(events@[i] is Value);
        }
    }
}

/// The event `i` of a map at a given depth can be taken.
spec fn event_ok(events: Seq<MapEvent>, depth: nat, i: int) -> bool {
    match events[i] {
        MapEvent::Key(k) => reflected(k, depth + 1) is Some && key_name(reflected(k, depth + 1)->0)
            is Some,
        MapEvent::Value(x) => i > 0 && events[i - 1] is Key && reflected(x, depth + 1) is Some,
    }
}

proof fn lemma_keyed(events: Seq<MapEvent>, depth: nat)
    ensures
        reflected_events(events, depth) is Some <==> events.len() == 0 || depth + 1 < 32 && forall|
            i: int,
        | 0 <= i < events.len() ==> #[trigger] event_ok(events, depth, i),
        reflected_events(events, depth) is Some <==> events.len() == 0 || depth + 1 < 32 && forall|
            i: int,
        |
            0 <= i < events.len() ==> match #[trigger] events[i] {
                MapEvent::Key(k) => reflected(k, depth + 1) is Some && key_name(
                    reflected(k, depth + 1)->0,
                ) is Some,
                MapEvent::Value(x) => i > 0 && events[i - 1] is Key && reflected(x, depth + 1)
                    is Some,
            },
        reflected_events(events, depth) is Some && events.len() > 0 ==> (reflected_events(
            events,
            depth,
        )->0).1 == match events.last() {
            MapEvent::Key(k) => key_name(reflected(k, depth + 1)->0),
            MapEvent::Value(_) => None,
        },
    decreases events.len(),
{
    if events.len() > 0 {
        let some = events.drop_last();
        let n = events.len() - 1;
        lemma_keyed(some, depth);
        assert forall|i: int| 0 <= i < n implies event_ok(some, depth, i) == #[trigger] event_ok(
            events,
            depth,
            i,
        ) by {
            assert(some[i] == events[i]);
            assert(i > 0 ==> some[i - 1] == events[i - 1]);
        }
        if n > 0 {
            assert(some.last() == events[n - 1]);
        }
        if reflected_events(events, depth) is Some {
            assert forall|i: int| 0 <= i < events.len() implies #[trigger] event_ok(
                events,
                depth,
                i,
            ) by {
                if i < n {
                    assert(event_ok(some, depth, i));
                }
            }
        } else if depth + 1 < 32 && forall|i: int|
            0 <= i < events.len() ==> #[trigger] event_ok(events, depth, i) {
            assert forall|i: int| 0 <= i < some.len() implies #[trigger] event_ok(
                some,
                depth,
                i,
            ) by {
                assert(event_ok(events, depth, i));
            }
            assert(event_ok(events, depth, n));
        }
        assert forall|i: int| 0 <= i < events.len() implies event_ok(events, depth, i)
            == match #[trigger] events[i] {
            MapEvent::Key(k) => reflected(k, depth + 1) is Some && key_name(
                reflected(k, depth + 1)->0,
            ) is Some,
            MapEvent::Value(x) => i > 0 && events[i - 1] is Key && reflected(x, depth + 1)
                is Some,
        } by {}
    }
}

proof fn lemma_keyed_prefix(events: Seq<MapEvent>, depth: nat, i: int)
    requires
        reflected_events(events, depth) is Some,
        0 <= i < events.len(),
    ensures
        event_ok(events, depth, i),
{
    lemma_keyed(events, depth);
}

proof fn lemma_keyed_value(events: Seq<MapEvent>, depth: nat, i: int)
    requires
        reflected_events(events, depth) is Some,
        0 < i < events.len(),
        events[i] is Value,
        forall|j: int|
            i < j < events.len() && (#[trigger] events[j]) is Value ==> key_name(
                reflected(events[j - 1]->Key_0, depth + 1)->0,
            ) != key_name(reflected(events[i - 1]->Key_0, depth + 1)->0),
    ensures
        ({
            let m = (reflected_events(events, depth)->0).0;
            let name = key_name(reflected(events[i - 1]->Key_0, depth + 1)->0)->0;
            m.contains_key(name) && reflected(events[i]->Value_0, depth + 1) == Some(m[name])
        }),
    decreases events.len(),
{
    let some = events.drop_last();
    let n = events.len() - 1;
    lemma_keyed(some, depth);
    lemma_keyed_prefix(events, depth, i);
    lemma_keyed_prefix(events, depth, i - 1);
    lemma_keyed_prefix(events, depth, n);
    if n > 0 {
        assert(some.last() == events[n - 1]);
        lemma_keyed_prefix(events, depth, n - 1);
    }
    if i < n {
        assert(some[i] == events[i] && some[i - 1] == events[i - 1]);
        assert forall|j: int| i < j < some.len() && (#[trigger] some[j]) is Value implies key_name(
            reflected(some[j - 1]->Key_0, depth + 1)->0,
        ) != key_name(reflected(some[i - 1]->Key_0, depth + 1)->0) by {
            assert(some[j] == events[j] && some[j - 1] == events[j - 1]);
        }
        lemma_keyed_value(some, depth, i);
        assert(events[n] is Value ==> key_name(reflected(events[n - 1]->Key_0, depth + 1)->0)
            != key_name(reflected(events[i - 1]->Key_0, depth + 1)->0));
    }
}

proof fn lemma_keyed_names(events: Seq<MapEvent>, depth: nat, k: Seq<char>) -> (i: int)
    requires
        reflected_events(events, depth) is Some,
        (reflected_events(events, depth)->0).0.contains_key(k),
    ensures
        0 < i < events.len(),
        events[i] is Value,
        key_name(reflected(events[i - 1]->Key_0, depth + 1)->0) == Some(k),
    decreases events.len(),
{
    let some = events.drop_last();
    let n = events.len() - 1;
    lemma_keyed(some, depth);
    lemma_keyed_prefix(events, depth, n);
    if n > 0 {
        assert(some.last() == events[n - 1]);
        lemma_keyed_prefix(events, depth, n - 1);
    }
    if (reflected_events(some, depth)->0).0.contains_key(k) {
        let i = lemma_keyed_names(some, depth, k);
        assert(some[i] == events[i] && some[i - 1] == events[i - 1]);
        i
    } else {
        n
    }
}

proof fn lemma_keyed_passable(events: Seq<MapEvent>)
    ensures
        passable_events(events) <==> forall|i: int|
            0 <= i < events.len() ==> match #[trigger] events[i] {
                MapEvent::Key(k) => passable(k),
                MapEvent::Value(x) => passable(x),
            },
    decreases events.len(),
{
    if events.len() > 0 {
        let some = events.drop_last();
        let n = events.len() - 1;
        lemma_keyed_passable(some);
        if passable_events(events) {
            assert forall|i: int| 0 <= i < events.len() implies match #[trigger] events[i] {
                MapEvent::Key(k) => passable(k),
                MapEvent::Value(x) => passable(x),
            } by {
                if i < n {
                    assert(some[i] == events[i]);
                }
            }
        } else if forall|i: int|
            0 <= i < events.len() ==> match #[trigger] events[i] {
                MapEvent::Key(k) => passable(k),
                MapEvent::Value(x) => passable(x),
            } {
            assert forall|i: int| 0 <= i < some.len() implies match #[trigger] some[i] {
                MapEvent::Key(k) => passable(k),
                MapEvent::Value(x) => passable(x),
            } by {
                assert(some[i] == events[i]);
            }
            assert(events[n] == events.last());
        }
    }
}

/// Whatever holds one value or nothing can be passed over, and only what
/// refuses cannot.
pub proof fn law_only_refusals_cannot_be_passed_over(s: Shape)
    requires
        s is Bool || s is Signed || s is I128 || s is Unsigned || s is U128 || s is Float || s
            is Char || s is Text || s is Bytes || s is Absent || s is Unit || s is UnitStruct || s
            is UnitVariant,
    ensures
        passable(s),
        !passable(Shape::Refused),
{
}

/// Text makes itself as a name, a truth value makes its word, and a number makes
/// its digits, behind a sign where it is negative. Nothing else makes a name.
pub proof fn law_names_of_keys(v: Value)
    ensures
        key_name(v) is Some <==> v is String || v is U64 || v is I64 || v is Bool,
        v matches Value::String(s) ==> key_name(v) == Some(s),
        v matches Value::Bool(b) ==> key_name(v) == Some(
            if b {
                seq!['t', 'r', 'u', 'e']
            } else {
                seq!['f', 'a', 'l', 's', 'e']
            },
        ),
        v matches Value::U64(n) ==> key_name(v) == Some(decimal(n as nat)),
        v matches Value::I64(n) ==> n >= 0 ==> key_name(v) == Some(decimal(n as nat)),
        v matches Value::I64(n) ==> n < 0 ==> key_name(v)->0[0] == '-' && key_name(v)->0.skip(1)
            == decimal((-n) as nat),
{
    if let Value::I64(n) = v {
        if n < 0 {
            assert(key_name(v)->0.skip(1) =~= decimal((-n) as nat));
        }
    }
}

/// The digits of a number are digits, spell the number, and do not begin with
/// zero unless the number is zero.
pub proof fn law_decimal_digits(n: nat)
    ensures
        decimal(n).len() > 0,
        forall|i: int| 0 <= i < decimal(n).len() ==> '0' <= #[trigger] decimal(n)[i] <= '9',
        n > 0 ==> decimal(n)[0] != '0',
        n == 0 ==> decimal(n) == seq!['0'],
        decimal(n).fold_left(0int, |sum: int, c: char| 10 * sum + (c as int - '0' as int)) == n,
    decreases n,
{
    let step = |sum: int, c: char| 10 * sum + (c as int - '0' as int);
    if n < 10 {
        let d = decimal(n);
        assert(d.drop_last() =~= Seq::<char>::empty());
        reveal_with_fuel(Seq::fold_left, 2);
        assert(d.fold_left(0int, step) == n);
        assert(n == 0 ==> d =~= seq!['0']);
    } else {
        law_decimal_digits(n / 10);
        let d = decimal(n);
        let ahead = decimal(n / 10);
        assert(d.drop_last() =~= ahead);
        reveal_with_fuel(Seq::fold_left, 2);
        assert(d.fold_left(0int, step) == step(ahead.fold_left(0int, step), d.last()));
        assert forall|i: int| 0 <= i < d.len() implies '0' <= #[trigger] d[i] <= '9' by {
            if i < ahead.len() {
                assert(d[i] == ahead[i]);
            }
        }
    }
}

/// Of a struct the wanted fields are found, each under its name and with the
/// value of the last field of that name, and no others are. It cannot be looked
/// at where a wanted field cannot be taken or another cannot be passed over.
pub proof fn law_wanted_fields_are_found(fields: Vec<(String, Shape)>, wanted: Seq<Seq<char>>)
    ensures
        projected(Shape::StructVariant(fields), wanted) == projected(
            Shape::Struct(fields),
            wanted,
        ),
        projected(Shape::Struct(fields), wanted) is Some <==> forall|i: int|
            0 <= i < fields@.len() ==> if wanted.contains((#[trigger] fields@[i]).0@) {
                reflected(fields@[i].1, 1) is Some
            } else {
                passable(fields@[i].1)
            },
        projected(Shape::Struct(fields), wanted) matches Some(m) ==> {
            &&& forall|i: int|
                0 <= i < fields@.len() && wanted.contains(fields@[i].0@) && (forall|j: int|
                    i < j < fields@.len() ==> (#[trigger] fields@[j]).0@ != fields@[i].0@)
                    ==> m.contains_key((#[trigger] fields@[i]).0@) && reflected(
                    fields@[i].1,
                    1,
                ) == Some(m[fields@[i].0@])
            &&& forall|k: Seq<char>| #[trigger]
                m.contains_key(k) ==> wanted.contains(k) && exists|i: int|
                    0 <= i < fields@.len() && (#[trigger] fields@[i]).0@ == k
        },
{
    lemma_found(fields@, wanted);
    if projected_fields(fields@, wanted) is Some {
        let m = projected_fields(fields@, wanted)->0;
        assert forall|i: int|
            0 <= i < fields@.len() && wanted.contains(fields@[i].0@) && (forall|j: int|
                i < j < fields@.len() ==> (#[trigger] fields@[j]).0@
                    != fields@[i].0@) implies m.contains_key((#[trigger] fields@[i]).0@)
            && reflected(fields@[i].1, 1) == Some(m[fields@[i].0@]) by {
            lemma_found_value(fields@, wanted, i);
        }
        assert forall|k: Seq<char>| #[trigger] m.contains_key(k) implies wanted.contains(k)
            && exists|i: int| 0 <= i < fields@.len() && (#[trigger] fields@[i]).0@ == k by {
            let i = lemma_found_names(fields@, wanted, k);
            assert(fields@[i].0@ == k);
        }
    }
}

proof fn lemma_found(fields: Seq<(String, Shape)>, wanted: Seq<Seq<char>>)
    ensures
        projected_fields(fields, wanted) is Some <==> forall|i: int|
            0 <= i < fields.len() ==> if wanted.contains((#[trigger] fields[i]).0@) {
                reflected(fields[i].1, 1) is Some
            } else {
                passable(fields[i].1)
            },
    decreases fields.len(),
{
    if fields.len() > 0 {
        let some = fields.drop_last();
        let n = fields.len() - 1;
        lemma_found(some, wanted);
        if projected_fields(fields, wanted) is Some {
            assert forall|i: int| 0 <= i < fields.len() implies if wanted.contains(
                (#[trigger] fields[i]).0@,
            ) {
                reflected(fields[i].1, 1) is Some
            } else {
                passable(fields[i].1)
            } by {
                if i < n {
                    assert(some[i] == fields[i]);
                }
            }
        } else if forall|i: int|
            0 <= i < fields.len() ==> if wanted.contains((#[trigger] fields[i]).0@) {
                reflected(fields[i].1, 1) is Some
            } else {
                passable(fields[i].1)
            } {
            assert forall|i: int| 0 <= i < some.len() implies if wanted.contains(
                (#[trigger] some[i]).0@,
            ) {
                reflected(some[i].1, 1) is Some
            } else {
                passable(some[i].1)
            } by {
                assert(some[i] == fields[i]);
            }
            assert(fields[n] == fields.last());
        }
    }
}

proof fn lemma_found_value(fields: Seq<(String, Shape)>, wanted: Seq<Seq<char>>, i: int)
    requires
        projected_fields(fields, wanted) is Some,
        0 <= i < fields.len(),
        wanted.contains(fields[i].0@),
        forall|j: int| i < j < fields.len() ==> (#[trigger] fields[j]).0@ != fields[i].0@,
    ensures
        projected_fields(fields, wanted)->0.contains_key(fields[i].0@),
        reflected(fields[i].1, 1) == Some(projected_fields(fields, wanted)->0[fields[i].0@]),
    decreases fields.len(),
{
    let some = fields.drop_last();
    let n = fields.len() - 1;
    if i < n {
        assert(some[i] == fields[i]);
        assert forall|j: int| i < j < some.len() implies (#[trigger] some[j]).0@
            != some[i].0@ by {
            assert(some[j] == fields[j]);
        }
        assert(fields[n].0@ != fields[i].0@);
        lemma_found_value(some, wanted, i);
    }
}

proof fn lemma_found_names(
    fields: Seq<(String, Shape)>,
    wanted: Seq<Seq<char>>,
    k: Seq<char>,
) -> (i: int)
    requires
        projected_fields(fields, wanted) is Some,
        projected_fields(fields, wanted)->0.contains_key(k),
    ensures
        wanted.contains(k),
        0 <= i < fields.len(),
        fields[i].0@ == k,
    decreases fields.len(),
{
    let some = fields.drop_last();
    if projected_fields(some, wanted)->0.contains_key(k) {
        let i = lemma_found_names(some, wanted, k);
        assert(some[i] == fields[i]);
        i
    } else {
        fields.len() - 1
    }
}

/// Of a map the wanted entries are found, each under the name of its key and
/// with the last value under that name, and no others are. It cannot be looked
/// at where a key cannot be taken or makes no name, where a value does not follow
/// a key, where a wanted value cannot be taken, or another cannot be passed over.
pub proof fn law_wanted_entries_are_found(events: Vec<MapEvent>, wanted: Seq<Seq<char>>)
    ensures
        projected(Shape::Entries(events), wanted) is Some <==> forall|i: int|
            0 <= i < events@.len() ==> match #[trigger] events@[i] {
                MapEvent::Key(k) => reflected(k, 1) is Some && key_name(reflected(k, 1)->0) is Some,
                MapEvent::Value(x) => i > 0 && events@[i - 1] is Key && if wanted.contains(
                    key_name(reflected(events@[i - 1]->Key_0, 1)->0)->0,
                ) {
                    reflected(x, 1) is Some
                } else {
                    passable(x)
                },
            },
        projected(Shape::Entries(events), wanted) matches Some(m) ==> {
            &&& forall|i: int|
                0 < i < events@.len() && events@[i] is Value && wanted.contains(
                    key_name(reflected(events@[i - 1]->Key_0, 1)->0)->0,
                ) && (forall|j: int|
                    i < j < events@.len() && (#[trigger] events@[j]) is Value ==> key_name(
                        reflected(events@[j - 1]->Key_0, 1)->0,
                    ) != key_name(reflected(events@[i - 1]->Key_0, 1)->0)) ==> {
                    let name = key_name(reflected(events@[i - 1]->Key_0, 1)->0)->0;
                    m.contains_key(name) && reflected((#[trigger] events@[i])->Value_0, 1) == Some(
                        m[name],
                    )
                }
            &&& forall|k: Seq<char>| #[trigger]
                m.contains_key(k) ==> wanted.contains(k) && exists|i: int|
                    0 < i < events@.len() && (#[trigger] events@[i]) is Value && key_name(
                        reflected(events@[i - 1]->Key_0, 1)->0,
                    ) == Some(k)
        },
{
    lemma_picked(events@, wanted);
    if projected_events(events@, wanted) is Some {
        let m = (projected_events(events@, wanted)->0).0;
        assert forall|i: int|
            0 < i < events@.len() && events@[i] is Value && wanted.contains(
                key_name(reflected(events@[i - 1]->Key_0, 1)->0)->0,
            ) && (forall|j: int|
                i < j < events@.len() && (#[trigger] events@[j]) is Value ==> key_name(
                    reflected(events@[j - 1]->Key_0, 1)->0,
                ) != key_name(reflected(events@[i - 1]->Key_0, 1)->0)) implies {
            let name = key_name(reflected(events@[i - 1]->Key_0, 1)->0)->0;
            m.contains_key(name) && reflected((#[trigger] events@[i])->Value_0, 1) == Some(m[name])
        } by {
            lemma_picked_value(events@, wanted, i);
        }
        assert forall|k: Seq<char>| #[trigger] m.contains_key(k) implies wanted.contains(k)
            && exists|i: int|
            0 < i < events@.len() && (#[trigger] events@[i]) is Value && key_name(
                reflected(events@[i - 1]->Key_0, 1)->0,
            ) == Some(k) by {
            let i = lemma_picked_names(events@, wanted, k);
            assert(events@[i] is Value);
        }
    }
}

/// The event `i` of a map can be looked at.
spec fn pick_ok(events: Seq<MapEvent>, wanted: Seq<Seq<char>>, i: int) -> bool {
    match events[i] {
        MapEvent::Key(k) => reflected(k, 1) is Some && key_name(reflected(k, 1)->0) is Some,
        MapEvent::Value(x) => i > 0 && events[i - 1] is Key && if wanted.contains(
            key_name(reflected(events[i - 1]->Key_0, 1)->0)->0,
        ) {
            reflected(x, 1) is Some
        } else {
            passable(x)
        },
    }
}

proof fn lemma_picked(events: Seq<MapEvent>, wanted: Seq<Seq<char>>)
    ensures
        projected_events(events, wanted) is Some <==> forall|i: int|
            0 <= i < events.len() ==> #[trigger] pick_ok(events, wanted, i),
        projected_events(events, wanted) is Some <==> forall|i: int|
            0 <= i < events.len() ==> match #[trigger] events[i] {
                MapEvent::Key(k) => reflected(k, 1) is Some && key_name(reflected(k, 1)->0) is Some,
                MapEvent::Value(x) => i > 0 && events[i - 1] is Key && if wanted.contains(
                    key_name(reflected(events[i - 1]->Key_0, 1)->0)->0,
                ) {
                    reflected(x, 1) is Some
                } else {
                    passable(x)
                },
            },
        projected_events(events, wanted) is Some && events.len() > 0 ==> (projected_events(
            events,
            wanted,
        )->0).1 == match events.last() {
            MapEvent::Key(k) => key_name(reflected(k, 1)->0),
            MapEvent::Value(_) => None,
        },
    decreases events.len(),
{
    if events.len() > 0 {
        let some = events.drop_last();
        let n = events.len() - 1;
        lemma_picked(some, wanted);
        assert forall|i: int| 0 <= i < n implies pick_ok(some, wanted, i) == #[trigger] pick_ok(
            events,
            wanted,
            i,
        ) by {
            assert(some[i] == events[i]);
            assert(i > 0 ==> some[i - 1] == events[i - 1]);
        }
        if n > 0 {
            assert(some.last() == events[n - 1]);
            if projected_events(some, wanted) is Some {
                assert(pick_ok(some, wanted, n - 1));
            }
        }
        if projected_events(events, wanted) is Some {
            assert forall|i: int| 0 <= i < events.len() implies #[trigger] pick_ok(
                events,
                wanted,
                i,
            ) by {
                if i < n {
                    assert(pick_ok(some, wanted, i));
                }
            }
        } else if forall|i: int| 0 <= i < events.len() ==> #[trigger] pick_ok(events, wanted, i) {
            assert forall|i: int| 0 <= i < some.len() implies #[trigger] pick_ok(
                some,
                wanted,
                i,
            ) by {
                assert(pick_ok(events, wanted, i));
            }
            assert(pick_ok(events, wanted, n));
        }
        assert forall|i: int| 0 <= i < events.len() implies pick_ok(events, wanted, i)
            == match #[trigger] events[i] {
            MapEvent::Key(k) => reflected(k, 1) is Some && key_name(reflected(k, 1)->0) is Some,
            MapEvent::Value(x) => i > 0 && events[i - 1] is Key && if wanted.contains(
                key_name(reflected(events[i - 1]->Key_0, 1)->0)->0,
            ) {
                reflected(x, 1) is Some
            } else {
                passable(x)
            },
        } by {}
    }
}

proof fn lemma_picked_value(events: Seq<MapEvent>, wanted: Seq<Seq<char>>, i: int)
    requires
        projected_events(events, wanted) is Some,
        0 < i < events.len(),
        events[i] is Value,
        wanted.contains(key_name(reflected(events[i - 1]->Key_0, 1)->0)->0),
        forall|j: int|
            i < j < events.len() && (#[trigger] events[j]) is Value ==> key_name(
                reflected(events[j - 1]->Key_0, 1)->0,
            ) != key_name(reflected(events[i - 1]->Key_0, 1)->0),
    ensures
        ({
            let m = (projected_events(events, wanted)->0).0;
            let name = key_name(reflected(events[i - 1]->Key_0, 1)->0)->0;
            m.contains_key(name) && reflected(events[i]->Value_0, 1) == Some(m[name])
        }),
    decreases events.len(),
{
    let some = events.drop_last();
    let n = events.len() - 1;
    lemma_picked(events, wanted);
    lemma_picked(some, wanted);
    assert(pick_ok(events, wanted, i));
    assert(pick_ok(events, wanted, i - 1));
    assert(pick_ok(events, wanted, n));
    if n > 0 {
        assert(some.last() == events[n - 1]);
        assert(pick_ok(events, wanted, n - 1));
    }
    if i < n {
        assert(some[i] == events[i] && some[i - 1] == events[i - 1]);
        assert forall|j: int| i < j < some.len() && (#[trigger] some[j]) is Value implies key_name(
            reflected(some[j - 1]->Key_0, 1)->0,
        ) != key_name(reflected(some[i - 1]->Key_0, 1)->0) by {
            assert(some[j] == events[j] && some[j - 1] == events[j - 1]);
        }
        lemma_picked_value(some, wanted, i);
        assert(events[n] is Value ==> key_name(reflected(events[n - 1]->Key_0, 1)->0) != key_name(
            reflected(events[i - 1]->Key_0, 1)->0,
        ));
    }
}

proof fn lemma_picked_names(
    events: Seq<MapEvent>,
    wanted: Seq<Seq<char>>,
    k: Seq<char>,
) -> (i: int)
    requires
        projected_events(events, wanted) is Some,
        (projected_events(events, wanted)->0).0.contains_key(k),
    ensures
        wanted.contains(k),
        0 < i < events.len(),
        events[i] is Value,
        key_name(reflected(events[i - 1]->Key_0, 1)->0) == Some(k),
    decreases events.len(),
{
    let some = events.drop_last();
    let n = events.len() - 1;
    lemma_picked(events, wanted);
    lemma_picked(some, wanted);
    assert(pick_ok(events, wanted, n));
    if n > 0 {
        assert(some.last() == events[n - 1]);
        assert(pick_ok(events, wanted, n - 1));
    }
    if (projected_events(some, wanted)->0).0.contains_key(k) {
        let i = lemma_picked_names(some, wanted, k);
        assert(some[i] == events[i] && some[i - 1] == events[i - 1]);
        i
    } else {
        n
    }
}

/// A document that is a sequence, a tuple, or refuses, cannot be looked at. One
/// that is a single value has no fields.
pub proof fn law_documents_without_fields(s: Shape, wanted: Seq<Seq<char>>)
    ensures
        s is List || s is Tuple || s is TupleStruct || s is TupleVariant || s is Refused
            ==> projected(s, wanted) is None,
        s is Bool || s is Signed || s is I128 || s is Unsigned || s is U128 || s is Float || s
            is Char || s is Text || s is Bytes || s is Absent || s is Unit || s is UnitStruct || s
            is UnitVariant || s is NewtypeVariant ==> projected(s, wanted) == Some(
            Map::<Seq<char>, Value>::empty(),
        ),
{
}

/// What comes of looking for the keys of a document, in terms of the fields that
/// were found in it.
///
/// A document that cannot be looked at is refused, and so is one that lacks a
/// field; the first it lacks is named. An index on one field makes one key, the
/// encoding of the field. An index on the elements of a sequence makes a key of
/// each, in order. A composite index makes one key of its fields, in the order
/// in which it names them.
pub proof fn law_keys_of_a_document(kind: IndexKind, paths: Seq<Seq<char>>, doc: Shape)
    requires
        kind is Composite ==> paths.len() >= 2,
        !(kind is Composite) ==> paths.len() == 1,
    ensures
        projected(doc, paths) is None <==> extracted(kind, paths, doc) is Unreadable,
        forall|i: int|
            projected(doc, paths) is Some && 0 <= i < paths.len() && !projected(
                doc,
                paths,
            )->0.contains_key(#[trigger] paths[i]) && (forall|j: int|
                0 <= j < i ==> projected(doc, paths)->0.contains_key(#[trigger] paths[j]))
                ==> extracted(kind, paths, doc) == Extraction::Missing(paths[i]),
        projected(doc, paths) matches Some(m) ==> (forall|i: int|
            0 <= i < paths.len() ==> m.contains_key(#[trigger] paths[i])) ==> match kind {
            IndexKind::Standard | IndexKind::Unique => extracted(kind, paths, doc)
                == match key::field_error(m[paths[0]]) {
                None => Extraction::Keys(seq![key::field_bytes(m[paths[0]])]),
                Some(e) => Extraction::Unencodable(e),
            },
            IndexKind::Each => match m[paths[0]] {
                Value::Sequence(items) => if items.len() > 16384 {
                    extracted(kind, paths, doc) == Extraction::TooLarge(items.len())
                } else if key::fields_error(items) is Some {
                    extracted(kind, paths, doc) == Extraction::Unencodable(
                        key::fields_error(items)->0,
                    )
                } else {
                    extracted(kind, paths, doc) matches Extraction::Keys(ks) && ks.len()
                        == items.len() && forall|i: int|
                        0 <= i < items.len() ==> #[trigger] ks[i] == key::field_bytes(items[i])
                },
                _ => extracted(kind, paths, doc) matches Extraction::NotASequence(p, _) && p
                    == paths[0],
            },
            IndexKind::Composite => {
                let vs = Seq::new(paths.len(), |i: int| m[paths[i]]);
                &&& key::fields_error(vs) is None <==> extracted(kind, paths, doc) is Keys
                &&& key::fields_error(vs) is None ==> extracted(kind, paths, doc)
                    == Extraction::Keys(seq![key::key_bytes(IndexKind::Composite, vs)])
                &&& forall|i: int|
                    0 <= i < vs.len() && key::field_error(#[trigger] vs[i]) is Some && (forall|
                        j: int,
                    | 0 <= j < i ==> key::field_error(#[trigger] vs[j]) is None) ==> extracted(
                        kind,
                        paths,
                        doc,
                    ) == if vs[i] is Mapping {
                        Extraction::NotAScalar(paths[i])
                    } else {
                        Extraction::Unencodable(key::field_error(vs[i])->0)
                    }
            },
        },
{
    if let Some(m) = projected(doc, paths) {
        lemma_resolved(paths, m);
        assert forall|i: int|
            0 <= i < paths.len() && !m.contains_key(#[trigger] paths[i]) && (forall|j: int|
                0 <= j < i ==> m.contains_key(#[trigger] paths[j])) implies extracted(
            kind,
            paths,
            doc,
        ) == Extraction::Missing(paths[i]) by {
            lemma_first_missing(paths, m, i);
        }
        if forall|i: int| 0 <= i < paths.len() ==> m.contains_key(#[trigger] paths[i]) {
            let vs = Seq::new(paths.len(), |i: int| m[paths[i]]);
            assert(resolved(paths, m) == Resolved::Found(vs));
            if !(kind is Composite) {
                assert(vs.drop_last() =~= Seq::<Value>::empty());
                assert(key::fields_error(Seq::<Value>::empty()) is None);
                assert(vs.last() == m[paths[0]]);
            } else {
                key::law_first_unfit_value_decides(vs);
                assert forall|i: int|
                    0 <= i < vs.len() && key::field_error(#[trigger] vs[i]) is Some && (forall|
                        j: int,
                    | 0 <= j < i ==> key::field_error(#[trigger] vs[j]) is None) implies extracted(
                    kind,
                    paths,
                    doc,
                ) == if vs[i] is Mapping {
                    Extraction::NotAScalar(paths[i])
                } else {
                    Extraction::Unencodable(key::field_error(vs[i])->0)
                } by {
                    lemma_first_mapping(vs, i);
                }
                lemma_mapping_is_an_error(vs);
            }
        }
    }
}

proof fn lemma_resolved(paths: Seq<Seq<char>>, m: Map<Seq<char>, Value>)
    ensures
        (forall|i: int| 0 <= i < paths.len() ==> m.contains_key(#[trigger] paths[i]))
            ==> resolved(paths, m) == Resolved::Found(
            Seq::new(paths.len(), |i: int| m[paths[i]]),
        ),
    decreases paths.len(),
{
    let vs = Seq::new(paths.len(), |i: int| m[paths[i]]);
    if paths.len() > 0 {
        let some = paths.drop_last();
        lemma_resolved(some, m);
        if forall|i: int| 0 <= i < paths.len() ==> m.contains_key(#[trigger] paths[i]) {
            assert forall|i: int| 0 <= i < some.len() implies m.contains_key(
                #[trigger] some[i],
            ) by {
                assert(some[i] == paths[i]);
            }
            assert(m.contains_key(paths[paths.len() - 1]));
            assert(Seq::new(some.len(), |i: int| m[some[i]]).push(m[paths.last()]) =~= vs);
        }
    } else {
        assert(vs =~= Seq::<Value>::empty());
    }
}

proof fn lemma_first_missing(paths: Seq<Seq<char>>, m: Map<Seq<char>, Value>, i: int)
    requires
        0 <= i < paths.len(),
        !m.contains_key(paths[i]),
        forall|j: int| 0 <= j < i ==> m.contains_key(#[trigger] paths[j]),
    ensures
        resolved(paths, m) == Resolved::Missing(paths[i]),
{
    let ahead = paths.take(i);
    assert forall|j: int| 0 <= j < ahead.len() implies m.contains_key(#[trigger] ahead[j]) by {
        assert(ahead[j] == paths[j]);
    }
    lemma_resolved(ahead, m);
    assert(paths.take(i + 1).drop_last() =~= ahead);
    assert(paths.take(i + 1).last() == paths[i]);
    lemma_missing_stays(paths, m, i + 1);
}

proof fn lemma_first_mapping(vs: Seq<Value>, i: int)
    requires
        0 <= i < vs.len(),
        key::field_error(vs[i]) is Some,
        forall|j: int| 0 <= j < i ==> key::field_error(#[trigger] vs[j]) is None,
    ensures
        first_mapping(vs) == if vs[i] is Mapping {
            Some(i)
        } else {
            None::<int>
        },
{
    let ahead = vs.take(i);
    assert forall|j: int| 0 <= j < ahead.len() implies key::field_error(#[trigger] ahead[j])
        is None by {
        assert(ahead[j] == vs[j]);
    }
    key::law_first_unfit_value_decides(ahead);
    lemma_mapping_is_an_error(ahead);
    assert(vs.take(i + 1).drop_last() =~= ahead);
    assert(vs.take(i + 1).last() == vs[i]);
    lemma_first_mapping_stays(vs, i + 1);
}

/// What is told of an extraction: its keys, each as its bytes and in order, or
/// an error that names the collection, the index and the field.
pub proof fn law_extractions_are_told(
    r: Result<Vec<EncodedIndexKey>, Error>,
    x: Extraction,
    collection: Seq<char>,
    index: Seq<char>,
)
    requires
        tells(r, x, collection, index),
    ensures
        r is Ok <==> x is Keys,
        x matches Extraction::Keys(ks) ==> (r matches Ok(v) && v@.len() == ks.len() && forall|i: int|
            0 <= i < ks.len() ==> (#[trigger] v@[i])@ == ks[i]),
        x matches Extraction::Missing(p) ==> (r matches Err(
            Error::IndexFieldMissing { collection: c, index: i, path },
        ) && c@ == collection && i@ == index && path@ == p),
        x matches Extraction::NotASequence(p, found) ==> (r matches Err(
            Error::IndexFieldTypeMismatch { collection: c, index: i, path, expected, found: f },
        ) && c@ == collection && i@ == index && path@ == p && f == found),
        x matches Extraction::NotAScalar(p) ==> (r matches Err(
            Error::IndexFieldTypeMismatch { collection: c, index: i, path, expected, found },
        ) && c@ == collection && i@ == index && path@ == p),
        x matches Extraction::TooLarge(n) ==> (r matches Err(
            Error::EachIndexTooLarge { collection: c, index: i, len, max },
        ) && c@ == collection && i@ == index && len == n && max == 16384),
        x matches Extraction::Unencodable(e) ==> r == Err::<Vec<EncodedIndexKey>, Error>(e),
        x is Unreadable ==> (r matches Err(Error::InvalidArgument(_))),
{
    if let Extraction::Keys(ks) = x {
        let v = r->Ok_0;
        assert forall|i: int| 0 <= i < ks.len() implies (#[trigger] v@[i])@ == ks[i] by {
            assert(v@.map_values(|k: EncodedIndexKey| k@)[i] == ks[i]);
        }
        assert(v@.len() == v@.map_values(|k: EncodedIndexKey| k@).len());
    }
}

/// A result is a value, or fields, where it stands for them, and is refused where
/// there are none.
pub proof fn law_results_stand_for_values(
    r: Option<Dynamic>,
    v: Option<Value>,
    m: Option<DynamicMap>,
    f: Option<Map<Seq<char>, Value>>,
)
    ensures
        is_value(r, v) <==> (r is None && v is None) || (r is Some && v is Some && r->0.value()
            == v->0),
        is_fields(m, f) <==> (m is None && f is None) || (m is Some && f is Some && m->0.fields()
            == f->0),
{
}

} // verus!
