//! Identifiers of documents.

use crate::bytes::get_be;
use vstd::prelude::*;

verus! {

/// The number that eight bytes, most significant first, spell, unless it is
/// zero.
pub open spec fn id_of(bytes: Seq<u8>) -> Option<u64> {
    if bytes.len() == 8 && crate::bytes::be_nat(bytes) != 0 {
        Some(crate::bytes::be_nat(bytes) as u64)
    } else {
        None
    }
}

/// Identifier of a document. Never zero.
#[derive(Debug, Clone, Copy, PartialEq, Eq, Structural, Hash, PartialOrd, Ord)]
pub struct Id {
    raw: u64,
}

impl View for Id {
    type V = u64;

    closed spec fn view(&self) -> u64 {
        self.raw
    }
}

impl Id {
    #[verifier::type_invariant]
    spec fn nonzero(self) -> bool {
        self.raw != 0
    }

    /// The identifier `raw`, or `None` if `raw` is zero.
    pub fn new(raw: u64) -> (r: Option<Self>)
        ensures
            r is None <==> raw == 0,
            r matches Some(id) ==> id@ == raw,
    {
        if raw == 0 {
            None
        } else {
            Some(Id { raw })
        }
    }

    /// The underlying number. Never zero.
    pub fn get(self) -> (r: u64)
        ensures
            r == self@,
            r != 0,
    {
        proof {
            use_type_invariant(&self);
        }
        self.raw
    }

    /// The identifier that eight bytes, most significant first, spell.
    pub fn from_be_bytes(bytes: &[u8]) -> (r: Option<Self>)
        ensures
            match r {
                Some(id) => id_of(bytes@) == Some(id@),
                None => id_of(bytes@) is None,
            },
    {
        if bytes.len() != 8 {
            return None;
        }
        proof {
            crate::bytes::lemma_be_bound(bytes@);
            crate::bytes::lemma_pow256();
        }
        Id::new(get_be(bytes))
    }
}

/// Every number but zero is read back from the eight bytes that spell it; zero,
/// and any other number of bytes, is no identifier.
pub proof fn law_identifiers_are_spelled_in_eight_bytes(n: u64, bytes: Seq<u8>)
    ensures
        n != 0 ==> id_of(crate::bytes::be_seq(n as nat, 8)) == Some(n),
        id_of(crate::bytes::be_seq(0, 8)) is None,
        bytes.len() != 8 ==> id_of(bytes) is None,
        bytes.len() == 8 && (exists|i: int| 0 <= i < 8 && bytes[i] != 0) ==> (id_of(
            bytes,
        ) matches Some(m) && crate::bytes::be_seq(m as nat, 8) == bytes),
{
    crate::bytes::lemma_pow256();
    crate::bytes::lemma_be_seq_len(n as nat, 8);
    crate::bytes::lemma_be_round_trip(n as nat, 8);
    crate::bytes::lemma_be_seq_len(0, 8);
    crate::bytes::lemma_be_round_trip(0, 8);
    if bytes.len() == 8 {
        crate::bytes::lemma_be_bound(bytes);
        crate::bytes::law_bytes_spell_one_number(bytes);
        if crate::bytes::be_nat(bytes) == 0 {
            assert forall|i: int| 0 <= i < 8 implies bytes[i] == 0 by {
                crate::bytes::law_big_endian_digits(0, 8, 7 - i);
                let d = vstd::arithmetic::power::pow(256, (7 - i) as nat);
                vstd::arithmetic::power::lemma_pow_positive(256, (7 - i) as nat);
                assert(0int / d == 0) by (nonlinear_arith)
                    requires
                        d > 0,
                ;
                assert(bytes == crate::bytes::be_seq(0, 8));
            }
        }
    }
}

} // verus!
