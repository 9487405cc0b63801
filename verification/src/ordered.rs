//! The keys of a map, and the members of a set, in increasing order.

use std::collections::{HashMap, HashSet};
use vstd::prelude::*;

verus! {

broadcast use vstd::std_specs::hash::group_hash_axioms;

/// `s` is increasing.
pub open spec fn increasing(s: Seq<u64>) -> bool {
    forall|i: int, j: int| 0 <= i < j < s.len() ==> s[i] < s[j]
}

/// `s` never decreases.
pub open spec fn nondecreasing(s: Seq<u64>) -> bool {
    forall|i: int, j: int| 0 <= i < j < s.len() ==> s[i] <= s[j]
}

/// Sort `v`.
///
/// Calls `<[u64]>::sort_unstable`. Claimed: the result never decreases and
/// holds the same numbers as often.
#[verifier::external_body]
fn sort_numbers(v: &mut Vec<u64>)
    ensures
        nondecreasing(final(v)@),
        final(v)@.to_multiset() == old(v)@.to_multiset(),
{
    v.sort_unstable();
}

/// The keys of `m`, smallest first.
pub fn sorted_keys<V>(m: &HashMap<u64, V>) -> (r: Vec<u64>)
    ensures
        increasing(r@),
        r@.no_duplicates(),
        r@.to_set() == m@.dom(),
        forall|k: u64| #[trigger] r@.contains(k) <==> m@.contains_key(k),
{
    let mut out: Vec<u64> = Vec::new();
    let ghost all: Seq<u64> = vstd::std_specs::iter::IteratorSpec::remaining(
        &m.keys(),
    ).unref();
    for k in it: m.keys()
        invariant
            it.seq().unref() == all,
            out@ == all.take(it.index() as int),
    {
        out.push(*k);
    }
    let ghost collected = out@;
    proof {
        assert(collected =~= all);
        assert(collected.no_duplicates());
    }
    sort_numbers(&mut out);
    proof {
        lemma_same_members(collected, out@);
    }
    out
}

/// The members of `m`, smallest first.
pub fn sorted_members(m: &HashSet<u64>) -> (r: Vec<u64>)
    ensures
        increasing(r@),
        r@.no_duplicates(),
        r@.to_set() == m@,
{
    let mut out: Vec<u64> = Vec::new();
    let ghost all: Seq<u64> = vstd::std_specs::iter::IteratorSpec::remaining(&m.iter()).unref();
    for k in it: m.iter()
        invariant
            it.seq().unref() == all,
            out@ == all.take(it.index() as int),
    {
        out.push(*k);
    }
    let ghost collected = out@;
    proof {
        assert(collected =~= all);
        assert(collected.no_duplicates());
        assert(collected.to_set() =~= m@);
    }
    sort_numbers(&mut out);
    proof {
        lemma_same_members(collected, out@);
    }
    out
}

/// Two lists with the same members as often, one of which has none twice.
proof fn lemma_same_members(a: Seq<u64>, b: Seq<u64>)
    requires
        a.no_duplicates(),
        a.to_multiset() == b.to_multiset(),
        nondecreasing(b),
    ensures
        b.no_duplicates(),
        increasing(b),
        b.to_set() == a.to_set(),
        forall|k: u64| #[trigger] b.contains(k) <==> a.contains(k),
{
    broadcast use vstd::seq_lib::group_to_multiset_ensures;

    a.lemma_multiset_has_no_duplicates();
    assert forall|x: u64| b.to_multiset().count(x) <= 1 by {
        if b.to_multiset().contains(x) {
        }
    }
    b.lemma_multiset_has_no_duplicates_conv();
    assert forall|k: u64| #[trigger] b.contains(k) <==> a.contains(k) by {
        assert(a.contains(k) <==> a.to_multiset().count(k) > 0);
        assert(b.contains(k) <==> b.to_multiset().count(k) > 0);
    }
    assert(b.to_set() =~= a.to_set());
}

/// The members of a prefix and of the prefix one longer.
pub proof fn lemma_prefix_members(s: Seq<u64>, i: int)
    requires
        0 <= i < s.len(),
        s.no_duplicates(),
    ensures
        forall|k: u64| #[trigger]
            s.take(i + 1).contains(k) <==> k == s[i] || s.take(i).contains(k),
        !s.take(i).contains(s[i]),
{
    let a = s.take(i);
    let b = s.take(i + 1);
    assert forall|k: u64| #[trigger] b.contains(k) <==> k == s[i] || a.contains(k) by {
        if a.contains(k) {
            let j = choose|j: int| 0 <= j < a.len() && a[j] == k;
            assert(b[j] == k);
        }
        assert(b[i] == s[i]);
        if b.contains(k) && k != s[i] {
            let j = choose|j: int| 0 <= j < b.len() && b[j] == k;
            assert(a[j] == k);
        }
    }
    if a.contains(s[i]) {
        let j = choose|j: int| 0 <= j < a.len() && a[j] == s[i];
        assert(s[j] == s[i]);
    }
}

} // verus!
