//! Values whose shape is known only at run time.

use crate::bytes;
use crate::bytes::bytes_lt;
use vstd::prelude::*;

verus! {

/// A run-time value, as contracts speak of it. A floating-point number is its
/// bit pattern.
pub enum Value {
    /// Nothing.
    Null,
    /// A truth value.
    Bool(bool),
    /// An unsigned number.
    U64(u64),
    /// A signed number.
    I64(i64),
    /// The bits of a floating-point number.
    F64(u64),
    /// Text.
    String(Seq<char>),
    /// Bytes.
    Bytes(Seq<u8>),
    /// A sequence.
    Sequence(Seq<Value>),
    /// Named values.
    Mapping(Map<Seq<char>, Value>),
    /// A variant of an enumeration.
    Enum {
        /// Name of the variant.
        variant: Seq<char>,
        /// What it carries.
        payload: Box<Value>,
    },
}

/// A run-time value. A floating-point number is held as its bit pattern.
#[derive(Debug, PartialEq)]
pub enum Dynamic {
    /// Nothing.
    Null,
    /// A truth value.
    Bool(bool),
    /// An unsigned number.
    U64(u64),
    /// A signed number.
    I64(i64),
    /// The bits of a floating-point number.
    F64(u64),
    /// Text.
    String(String),
    /// Bytes.
    Bytes(Vec<u8>),
    /// A sequence.
    Sequence(Vec<Dynamic>),
    /// Named values.
    Mapping(DynamicMap),
    /// A variant of an enumeration.
    Enum {
        /// Name of the variant.
        variant: String,
        /// What it carries.
        payload: Box<Dynamic>,
    },
}

/// Named values, each name once, in the order of the names.
#[derive(Debug, PartialEq)]
pub struct DynamicMap {
    entries: Vec<(String, Dynamic)>,
}

impl Dynamic {
    /// The value.
    pub open spec fn value(&self) -> Value
        decreases self,
    {
        match self {
            Dynamic::Null => Value::Null,
            Dynamic::Bool(b) => Value::Bool(*b),
            Dynamic::U64(n) => Value::U64(*n),
            Dynamic::I64(n) => Value::I64(*n),
            Dynamic::F64(bits) => Value::F64(*bits),
            Dynamic::String(s) => Value::String(s@),
            Dynamic::Bytes(b) => Value::Bytes(b@),
            Dynamic::Sequence(items) => Value::Sequence(values(items@)),
            Dynamic::Mapping(m) => Value::Mapping(m.fields()),
            Dynamic::Enum { variant, payload } => Value::Enum {
                variant: variant@,
                payload: Box::new(payload.value()),
            },
        }
    }
}

/// The values of a list.
pub open spec fn values(items: Seq<Dynamic>) -> Seq<Value>
    decreases items,
{
    if items.len() == 0 {
        Seq::empty()
    } else {
        values(items.drop_last()).push(items.last().value())
    }
}

spec fn entry_fields(entries: Seq<(String, Dynamic)>) -> Map<Seq<char>, Value>
    decreases entries,
{
    if entries.len() == 0 {
        Map::empty()
    } else {
        entry_fields(entries.drop_last()).insert(entries.last().0@, entries.last().1.value())
    }
}

/// The bytes of a name, by which names are ordered.
pub open spec fn name_bytes(name: Seq<char>) -> Seq<u8> {
    vstd::utf8::encode_utf8(name)
}

spec fn ordered(entries: Seq<(String, Dynamic)>) -> bool {
    forall|i: int, j: int|
        0 <= i < j < entries.len() ==> bytes::lex_lt(
            name_bytes((#[trigger] entries[i]).0@),
            name_bytes((#[trigger] entries[j]).0@),
        )
}

impl DynamicMap {
    /// The value of each name.
    pub closed spec fn fields(&self) -> Map<Seq<char>, Value>
        decreases self,
    {
        entry_fields(self.entries@)
    }

    #[verifier::type_invariant]
    spec fn inv(self) -> bool {
        ordered(self.entries@)
    }

    /// No names.
    pub fn new() -> (r: Self)
        ensures
            r.fields() == Map::<Seq<char>, Value>::empty(),
    {
        DynamicMap { entries: Vec::new() }
    }

    /// Number of names.
    pub fn len(&self) -> (r: usize)
        ensures
            r == self.fields().dom().len(),
    {
        proof {
            use_type_invariant(self);
            lemma_fields(self.entries@);
            lemma_fields_len(self.entries@);
        }
        self.entries.len()
    }

    /// `true` iff there are no names.
    pub fn is_empty(&self) -> (r: bool)
        ensures
            r == (self.fields() == Map::<Seq<char>, Value>::empty()),
    {
        proof {
            use_type_invariant(self);
            lemma_fields(self.entries@);
            if self.entries@.len() > 0 {
                assert(self.fields().contains_key(self.entries@[0].0@));
            }
        }
        self.entries.len() == 0
    }

    /// Where `name` stands, or where it would go.
    fn find(&self, name: &str) -> (r: Result<usize, usize>)
        ensures
            match r {
                Ok(i) => i < self.entries@.len() && self.entries@[i as int].0@ == name@,
                Err(i) => {
                    &&& i <= self.entries@.len()
                    &&& forall|j: int|
                        0 <= j < i ==> bytes::lex_lt(
                            name_bytes((#[trigger] self.entries@[j]).0@),
                            name_bytes(name@),
                        )
                    &&& forall|j: int|
                        i <= j < self.entries@.len() ==> bytes::lex_lt(
                            name_bytes(name@),
                            name_bytes((#[trigger] self.entries@[j]).0@),
                        )
                },
            },
    {
        proof {
            use_type_invariant(self);
        }
        let key: &[u8] = name.as_bytes();
        let mut i: usize = 0;
        while i < self.entries.len()
            invariant
                i <= self.entries@.len(),
                key@ == name_bytes(name@),
                ordered(self.entries@),
                forall|j: int|
                    0 <= j < i ==> bytes::lex_lt(
                        name_bytes((#[trigger] self.entries@[j]).0@),
                        key@,
                    ),
            decreases self.entries.len() - i,
        {
            let held: &[u8] = self.entries[i].0.as_str().as_bytes();
            if !bytes_lt(held, key) {
                if bytes_lt(key, held) {
                    proof {
                        assert forall|j: int| i <= j < self.entries@.len() implies bytes::lex_lt(
                            name_bytes(name@),
                            name_bytes((#[trigger] self.entries@[j]).0@),
                        ) by {
                            if j > i {
                                bytes::lemma_lex_trans(
                                    key@,
                                    name_bytes(self.entries@[i as int].0@),
                                    name_bytes(self.entries@[j].0@),
                                );
                            }
                        }
                    }
                    return Err(i);
                }
                proof {
                    bytes::lemma_lex_total(held@, key@);
                    lemma_same_name(self.entries@[i as int].0@, name@);
                }
                return Ok(i);
            }
            i = i + 1;
        }
        Err(i)
    }

    /// The value of `name`.
    pub fn get(&self, name: &str) -> (r: Option<&Dynamic>)
        ensures
            r is Some <==> self.fields().contains_key(name@),
            r matches Some(d) ==> d.value() == self.fields()[name@],
    {
        proof {
            use_type_invariant(self);
            lemma_fields(self.entries@);
        }
        match self.find(name) {
            Ok(i) => {
                proof {
                    assert(self.fields().contains_key(self.entries@[i as int].0@));
                }
                Some(&self.entries[i].1)
            },
            Err(i) => {
                proof {
                    lemma_absent(self.entries@, name@, i as int);
                }
                None
            },
        }
    }

    /// Give `name` a value, in place of the one it may have had.
    pub fn insert(&mut self, name: String, value: Dynamic)
        ensures
            final(self).fields() == old(self).fields().insert(name@, value.value()),
    {
        proof {
            use_type_invariant(&*self);
            lemma_fields(self.entries@);
        }
        let ghost before = self.entries@;
        let place = self.find(name.as_str());
        let mut entries: Vec<(String, Dynamic)> = Vec::new();
        std::mem::swap(&mut entries, &mut self.entries);
        let ghost key = name@;
        let ghost val = value.value();
        match place {
            Ok(i) => {
                entries.set(i, (name, value));
                proof {
                    assert forall|a: int, b: int|
                        0 <= a < b < entries@.len() implies bytes::lex_lt(
                        name_bytes((#[trigger] entries@[a]).0@),
                        name_bytes((#[trigger] entries@[b]).0@),
                    ) by {
                        assert(entries@[a].0@ == before[a].0@ && entries@[b].0@ == before[b].0@);
                    }
                    lemma_fields(entries@);
                    assert(entry_fields(entries@) =~= entry_fields(before).insert(key, val)) by {
                        assert forall|n: Seq<char>| #[trigger]
                            entry_fields(entries@).contains_key(n) <==> entry_fields(
                                before,
                            ).insert(key, val).contains_key(n) by {
                            if entry_fields(entries@).contains_key(n) {
                                let j = entry_at(entries@, n);
                                assert(before[j].0@ == n);
                            }
                            if entry_fields(before).contains_key(n) {
                                let j = entry_at(before, n);
                                assert(entries@[j].0@ == n);
                            }
                            assert(entries@[i as int].0@ == key);
                        }
                        assert forall|n: Seq<char>| #[trigger]
                            entry_fields(entries@).contains_key(n) implies entry_fields(entries@)[n]
                            == entry_fields(before).insert(key, val)[n] by {
                            let j = entry_at(entries@, n);
                            if n == key {
                                assert(entries@[i as int].0@ == key);
                            } else {
                                assert(entries@[j] == before[j]);
                            }
                        }
                    }
                }
            },
            Err(i) => {
                proof {
                    lemma_absent(before, key, i as int);
                }
                entries.insert(i, (name, value));
                proof {
                    assert forall|a: int, b: int|
                        0 <= a < b < entries@.len() implies bytes::lex_lt(
                        name_bytes((#[trigger] entries@[a]).0@),
                        name_bytes((#[trigger] entries@[b]).0@),
                    ) by {
                        if a < i {
                            assert(entries@[a] == before[a]);
                        } else if a > i {
                            assert(entries@[a] == before[a - 1]);
                        }
                        if b < i {
                            assert(entries@[b] == before[b]);
                        } else if b > i {
                            assert(entries@[b] == before[b - 1]);
                        }
                    }
                    lemma_fields(entries@);
                    assert(entry_fields(entries@) =~= entry_fields(before).insert(key, val)) by {
                        assert forall|n: Seq<char>| #[trigger]
                            entry_fields(entries@).contains_key(n) <==> entry_fields(
                                before,
                            ).insert(key, val).contains_key(n) by {
                            if entry_fields(entries@).contains_key(n) && n != key {
                                let j = entry_at(entries@, n);
                                assert(before[if j < i {
                                    j
                                } else {
                                    j - 1
                                }].0@ == n);
                            }
                            if entry_fields(before).contains_key(n) {
                                let j = entry_at(before, n);
                                assert(entries@[if j < i {
                                    j
                                } else {
                                    j + 1
                                }].0@ == n);
                            }
                            assert(entries@[i as int].0@ == key);
                        }
                        assert forall|n: Seq<char>| #[trigger]
                            entry_fields(entries@).contains_key(n) implies entry_fields(entries@)[n]
                            == entry_fields(before).insert(key, val)[n] by {
                            let j = entry_at(entries@, n);
                            if n == key {
                                assert(entries@[i as int].0@ == key);
                            } else {
                                assert(entries@[j] == before[if j < i {
                                    j
                                } else {
                                    j - 1
                                }]);
                            }
                        }
                    }
                }
            },
        }
        self.entries = entries;
    }

    /// Take `name` out, and return its value.
    pub fn remove(&mut self, name: &str) -> (r: Option<Dynamic>)
        ensures
            r is Some <==> old(self).fields().contains_key(name@),
            r matches Some(d) ==> d.value() == old(self).fields()[name@],
            final(self).fields() == old(self).fields().remove(name@),
    {
        proof {
            use_type_invariant(&*self);
            lemma_fields(self.entries@);
        }
        let ghost before = self.entries@;
        match self.find(name) {
            Ok(i) => {
                let mut entries: Vec<(String, Dynamic)> = Vec::new();
                std::mem::swap(&mut entries, &mut self.entries);
                let (_, value) = entries.remove(i);
                proof {
                    assert forall|a: int, b: int|
                        0 <= a < b < entries@.len() implies bytes::lex_lt(
                        name_bytes((#[trigger] entries@[a]).0@),
                        name_bytes((#[trigger] entries@[b]).0@),
                    ) by {
                        let x = if a < i {
                            a
                        } else {
                            a + 1
                        };
                        let y = if b < i {
                            b
                        } else {
                            b + 1
                        };
                        assert(entries@[a] == before[x] && entries@[b] == before[y]);
                    }
                    lemma_fields(entries@);
                    assert(before[i as int].0@ == name@);
                    assert(entry_fields(entries@) =~= entry_fields(before).remove(name@)) by {
                        assert forall|n: Seq<char>| #[trigger]
                            entry_fields(entries@).contains_key(n) <==> entry_fields(
                                before,
                            ).remove(name@).contains_key(n) by {
                            if entry_fields(entries@).contains_key(n) {
                                let j = entry_at(entries@, n);
                                let x = if j < i {
                                    j
                                } else {
                                    j + 1
                                };
                                assert(before[x].0@ == n);
                                if n == name@ {
                                    lemma_distinct_names(before, x, i as int);
                                }
                            }
                            if entry_fields(before).contains_key(n) && n != name@ {
                                let j = entry_at(before, n);
                                assert(entries@[if j < i {
                                    j
                                } else {
                                    j - 1
                                }].0@ == n);
                            }
                        }
                        assert forall|n: Seq<char>| #[trigger]
                            entry_fields(entries@).contains_key(n) implies entry_fields(entries@)[n]
                            == entry_fields(before).remove(name@)[n] by {
                            let j = entry_at(entries@, n);
                            let x = if j < i {
                                j
                            } else {
                                j + 1
                            };
                            assert(entries@[j] == before[x]);
                            assert(before[x].0@ == n);
                        }
                    }
                }
                self.entries = entries;
                Some(value)
            },
            Err(i) => {
                proof {
                    lemma_absent(before, name@, i as int);
                    assert(entry_fields(before).remove(name@) =~= entry_fields(before));
                }
                None
            },
        }
    }
}

spec fn entry_at(entries: Seq<(String, Dynamic)>, n: Seq<char>) -> int {
    choose|i: int| 0 <= i < entries.len() && (#[trigger] entries[i]).0@ == n
}

/// Names with the same bytes are the same name.
pub proof fn lemma_same_name(a: Seq<char>, b: Seq<char>)
    ensures
        name_bytes(a) == name_bytes(b) ==> a == b,
{
    vstd::utf8::encode_utf8_decode_utf8(a);
    vstd::utf8::encode_utf8_decode_utf8(b);
}

proof fn lemma_distinct_names(entries: Seq<(String, Dynamic)>, i: int, j: int)
    requires
        ordered(entries),
        0 <= i < entries.len(),
        0 <= j < entries.len(),
        entries[i].0@ == entries[j].0@,
    ensures
        i == j,
{
    bytes::lemma_lex_irreflexive(name_bytes(entries[i].0@));
    if i < j {
        assert(bytes::lex_lt(name_bytes(entries[i].0@), name_bytes(entries[j].0@)));
    } else if j < i {
        assert(bytes::lex_lt(name_bytes(entries[j].0@), name_bytes(entries[i].0@)));
    }
}

/// The names and values that a list of entries stands for.
proof fn lemma_fields(entries: Seq<(String, Dynamic)>)
    requires
        ordered(entries),
    ensures
        forall|n: Seq<char>| #[trigger]
            entry_fields(entries).contains_key(n) ==> 0 <= entry_at(entries, n) < entries.len()
                && entries[entry_at(entries, n)].0@ == n,
        forall|i: int|
            #![trigger entries[i]]
            0 <= i < entries.len() ==> entry_fields(entries).contains_key(entries[i].0@)
                && entry_fields(entries)[entries[i].0@] == entries[i].1.value(),
    decreases entries.len(),
{
    if entries.len() > 0 {
        let rest = entries.drop_last();
        assert forall|i: int, j: int| 0 <= i < j < rest.len() implies bytes::lex_lt(
            name_bytes((#[trigger] rest[i]).0@),
            name_bytes((#[trigger] rest[j]).0@),
        ) by {
            assert(rest[i] == entries[i] && rest[j] == entries[j]);
        }
        lemma_fields(rest);
        assert forall|n: Seq<char>| #[trigger] entry_fields(entries).contains_key(n) implies 0
            <= entry_at(entries, n) < entries.len() && entries[entry_at(entries, n)].0@ == n by {
            if n == entries.last().0@ {
                assert(entries[entries.len() - 1].0@ == n);
            } else {
                let i = entry_at(rest, n);
                assert(entries[i] == rest[i]);
            }
        }
        assert forall|i: int|
            #![trigger entries[i]]
            0 <= i < entries.len() implies entry_fields(entries).contains_key(entries[i].0@)
            && entry_fields(entries)[entries[i].0@] == entries[i].1.value() by {
            if i < rest.len() {
                assert(rest[i] == entries[i]);
                if entries[i].0@ == entries.last().0@ {
                    lemma_distinct_names(entries, i, entries.len() - 1);
                }
            }
        }
    }
}

proof fn lemma_fields_len(entries: Seq<(String, Dynamic)>)
    requires
        ordered(entries),
    ensures
        entry_fields(entries).dom().finite(),
        entry_fields(entries).dom().len() == entries.len(),
    decreases entries.len(),
{
    if entries.len() > 0 {
        let rest = entries.drop_last();
        assert forall|i: int, j: int| 0 <= i < j < rest.len() implies bytes::lex_lt(
            name_bytes((#[trigger] rest[i]).0@),
            name_bytes((#[trigger] rest[j]).0@),
        ) by {
            assert(rest[i] == entries[i] && rest[j] == entries[j]);
        }
        lemma_fields_len(rest);
        lemma_fields(rest);
        if entry_fields(rest).contains_key(entries.last().0@) {
            let i = entry_at(rest, entries.last().0@);
            assert(entries[i] == rest[i]);
            lemma_distinct_names(entries, i, entries.len() - 1);
        }
        assert(entry_fields(entries).dom() =~= entry_fields(rest).dom().insert(
            entries.last().0@,
        ));
    }
}

/// A name that would go between two entries is not there.
proof fn lemma_absent(entries: Seq<(String, Dynamic)>, n: Seq<char>, i: int)
    requires
        ordered(entries),
        0 <= i <= entries.len(),
        forall|j: int|
            0 <= j < i ==> bytes::lex_lt(name_bytes((#[trigger] entries[j]).0@), name_bytes(n)),
        forall|j: int|
            i <= j < entries.len() ==> bytes::lex_lt(
                name_bytes(n),
                name_bytes((#[trigger] entries[j]).0@),
            ),
    ensures
        !entry_fields(entries).contains_key(n),
{
    lemma_fields(entries);
    bytes::lemma_lex_irreflexive(name_bytes(n));
    if entry_fields(entries).contains_key(n) {
        let j = entry_at(entries, n);
        assert(entries[j].0@ == n);
    }
}

/// The values of a list, one by one.
pub proof fn lemma_values(items: Seq<Dynamic>)
    ensures
        values(items).len() == items.len(),
        forall|i: int|
            0 <= i < items.len() ==> #[trigger] values(items)[i] == items[i].value(),
    decreases items.len(),
{
    if items.len() > 0 {
        lemma_values(items.drop_last());
        assert forall|i: int| 0 <= i < items.len() implies #[trigger] values(items)[i]
            == items[i].value() by {
            if i < items.len() - 1 {
                assert(items.drop_last()[i] == items[i]);
                assert(values(items.drop_last())[i] == items.drop_last()[i].value());
            }
        }
    }
}

impl Dynamic {
    /// The value of the top-level field `name`, if this is a mapping that has
    /// it.
    pub fn get(&self, name: &str) -> (r: Option<&Dynamic>)
        ensures
            r is Some <==> (self.value() matches Value::Mapping(m) && m.contains_key(name@)),
            r matches Some(d) ==> (self.value() matches Value::Mapping(m) && d.value() == m[name@]),
    {
        match self {
            Dynamic::Mapping(m) => m.get(name),
            _ => None,
        }
    }
}

impl Clone for Dynamic {
    fn clone(&self) -> (r: Self)
        ensures
            r.value() == self.value(),
    {
        copy_value(self)
    }
}

/// A value of its own that is the same.
fn copy_value(d: &Dynamic) -> (r: Dynamic)
    ensures
        r.value() == d.value(),
    decreases d,
{
    match d {
        Dynamic::Null => Dynamic::Null,
        Dynamic::Bool(b) => Dynamic::Bool(*b),
        Dynamic::U64(n) => Dynamic::U64(*n),
        Dynamic::I64(n) => Dynamic::I64(*n),
        Dynamic::F64(bits) => Dynamic::F64(*bits),
        Dynamic::String(s) => Dynamic::String(s.clone()),
        Dynamic::Bytes(b) => {
            let mut copy: Vec<u8> = Vec::new();
            copy.extend_from_slice(b.as_slice());
            proof {
                assert(copy@ =~= b@);
            }
            Dynamic::Bytes(copy)
        },
        Dynamic::Sequence(items) => Dynamic::Sequence(copy_items(items)),
        Dynamic::Mapping(m) => Dynamic::Mapping(copy_fields(m)),
        Dynamic::Enum { variant, payload } => Dynamic::Enum {
            variant: variant.clone(),
            payload: Box::new(copy_value(payload)),
        },
    }
}

fn copy_items(items: &Vec<Dynamic>) -> (r: Vec<Dynamic>)
    ensures
        values(r@) == values(items@),
    decreases items,
{
    let mut out: Vec<Dynamic> = Vec::new();
    let mut i: usize = 0;
    while i < items.len()
        invariant
            i <= items@.len(),
            out@.len() == i,
            forall|j: int| 0 <= j < i ==> (#[trigger] out@[j]).value() == items@[j].value(),
        decreases items.len() - i,
    {
        proof {
            assert(decreases_to!(items@ => items@[i as int]));
        }
        out.push(copy_value(&items[i]));
        i = i + 1;
    }
    proof {
        lemma_values(items@);
        lemma_values(out@);
        assert(values(out@) =~= values(items@));
    }
    out
}

fn copy_fields(m: &DynamicMap) -> (r: DynamicMap)
    ensures
        r.fields() == m.fields(),
    decreases m,
{
    proof {
        use_type_invariant(m);
    }
    let mut out: Vec<(String, Dynamic)> = Vec::new();
    let mut i: usize = 0;
    while i < m.entries.len()
        invariant
            i <= m.entries@.len(),
            out@.len() == i,
            forall|j: int|
                0 <= j < i ==> (#[trigger] out@[j]).0@ == m.entries@[j].0@ && out@[j].1.value()
                    == m.entries@[j].1.value(),
        decreases m.entries.len() - i,
    {
        proof {
            assert(decreases_to!(m.entries@ => m.entries@[i as int]));
        }
        out.push((m.entries[i].0.clone(), copy_value(&m.entries[i].1)));
        i = i + 1;
    }
    proof {
        lemma_same_fields(out@, m.entries@);
    }
    DynamicMap { entries: out }
}

/// Entries of the same names and values stand for the same fields.
proof fn lemma_same_fields(a: Seq<(String, Dynamic)>, b: Seq<(String, Dynamic)>)
    requires
        a.len() == b.len(),
        forall|j: int|
            0 <= j < a.len() ==> (#[trigger] a[j]).0@ == b[j].0@ && a[j].1.value() == b[j].1.value(),
    ensures
        entry_fields(a) == entry_fields(b),
        ordered(b) ==> ordered(a),
    decreases a.len(),
{
    if ordered(b) {
        assert forall|i: int, j: int| 0 <= i < j < a.len() implies bytes::lex_lt(
            name_bytes((#[trigger] a[i]).0@),
            name_bytes((#[trigger] a[j]).0@),
        ) by {
            assert(b[i].0@ == a[i].0@ && b[j].0@ == a[j].0@);
        }
    }
    if a.len() > 0 {
        lemma_same_fields(a.drop_last(), b.drop_last());
    }
}

/// What a run-time value stands for: the same, with text as characters, and with
/// what it is made of taken likewise.
pub proof fn law_what_values_stand_for(d: Dynamic)
    ensures
        match d {
            Dynamic::Null => d.value() == Value::Null,
            Dynamic::Bool(b) => d.value() == Value::Bool(b),
            Dynamic::U64(n) => d.value() == Value::U64(n),
            Dynamic::I64(n) => d.value() == Value::I64(n),
            Dynamic::F64(bits) => d.value() == Value::F64(bits),
            Dynamic::String(s) => d.value() == Value::String(s@),
            Dynamic::Bytes(b) => d.value() == Value::Bytes(b@),
            Dynamic::Sequence(items) => d.value() is Sequence && d.value()->Sequence_0
                == items@.map_values(|e: Dynamic| e.value()),
            Dynamic::Mapping(m) => d.value() == Value::Mapping(m.fields()),
            Dynamic::Enum { variant, payload } => d.value() == (Value::Enum {
                variant: variant@,
                payload: Box::new(payload.value()),
            }),
        },
{
    if let Dynamic::Sequence(items) = d {
        lemma_values(items@);
        assert(values(items@) =~= items@.map_values(|e: Dynamic| e.value()));
    }
}

/// Names are ordered by their bytes, and no two have the same bytes.
pub proof fn law_names_are_told_apart_by_their_bytes(a: Seq<char>, b: Seq<char>)
    ensures
        name_bytes(a) == vstd::utf8::encode_utf8(a),
        name_bytes(a) == name_bytes(b) ==> a == b,
{
    if name_bytes(a) == name_bytes(b) {
        lemma_same_name(a, b);
    }
}

} // verus!
