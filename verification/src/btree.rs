//! Tree nodes as a decoder hands them out.

use vstd::prelude::*;

verus! {

/// Number of levels that a tree may have below its root.
pub const MAX_BTREE_DEPTH: usize = 32;

/// Number of nodes that one walk over a tree visits at most.
pub const MAX_RANGE_NODES: usize = 1_048_576;

/// The two kinds of nodes.
#[derive(Debug, Clone, Copy, PartialEq, Eq, Structural)]
pub enum NodeKind {
    /// Holds entries.
    Leaf,
    /// Holds pivots and the pages of its children.
    Internal,
}

/// An entry of a leaf.
#[derive(Debug, Clone)]
pub struct LeafEntry {
    /// The key.
    pub key: Vec<u8>,
    /// The value.
    pub value: Vec<u8>,
}

/// A pivot of an internal node.
#[derive(Debug, Clone)]
pub struct InternalEntry {
    /// The key.
    pub key: Vec<u8>,
}

/// A node.
#[derive(Debug, Clone)]
pub struct DecodedNode {
    /// Leaf or internal.
    pub kind: NodeKind,
    /// Distance from the leaves.
    pub level: u8,
    /// The next leaf, or zero.
    pub next_sibling: u64,
    /// Pages of the children of an internal node.
    pub children: Vec<u64>,
    /// Entries of a leaf.
    pub leaves: Vec<LeafEntry>,
    /// Pivots of an internal node.
    pub internals: Vec<InternalEntry>,
}

/// What a walk reads of a node.
#[verifier::ext_equal]
pub struct Node {
    /// It is a leaf.
    pub leaf: bool,
    /// Distance from the leaves.
    pub level: int,
    /// Keys of its entries or of its pivots.
    pub keys: Seq<Seq<u8>>,
    /// Pages of its children.
    pub children: Seq<u64>,
}

impl View for DecodedNode {
    type V = Node;

    open spec fn view(&self) -> Node {
        Node {
            leaf: self.kind is Leaf,
            level: self.level as int,
            keys: match self.kind {
                NodeKind::Leaf => Seq::new(self.leaves@.len(), |i: int| self.leaves@[i].key@),
                NodeKind::Internal => Seq::new(
                    self.internals@.len(),
                    |i: int| self.internals@[i].key@,
                ),
            },
            children: self.children@,
        }
    }
}

/// The keys go up from one to the next.
pub open spec fn ascending(keys: Seq<Seq<u8>>) -> bool {
    forall|i: int, j: int|
        0 <= i < j < keys.len() ==> crate::bytes::lex_lt(#[trigger] keys[i], #[trigger] keys[j])
}

/// The level fits the kind: zero for a leaf, more for an internal node.
pub open spec fn level_fits(n: Node) -> bool {
    n.leaf == (n.level == 0)
}

/// The level that the children of a node have, if the node can have any.
pub open spec fn child_level(n: Node) -> Option<int> {
    if n.level > 0 {
        Some(n.level - 1)
    } else {
        None
    }
}

impl DecodedNode {
    /// Number of keys.
    pub fn key_count(&self) -> (r: usize)
        ensures
            r == self@.keys.len(),
    {
        match self.kind {
            NodeKind::Leaf => self.leaves.len(),
            NodeKind::Internal => self.internals.len(),
        }
    }

    /// Key number `i`.
    pub fn key(&self, i: usize) -> (r: &[u8])
        requires
            i < self@.keys.len(),
        ensures
            r@ == self@.keys[i as int],
    {
        match self.kind {
            NodeKind::Leaf => self.leaves[i].key.as_slice(),
            NodeKind::Internal => self.internals[i].key.as_slice(),
        }
    }
}

/// Keys go up where each is below the next.
pub proof fn law_neighbours_decide_the_order(keys: Seq<Seq<u8>>)
    ensures
        ascending(keys) <==> forall|i: int|
            1 <= i < keys.len() ==> crate::bytes::lex_lt(keys[i - 1], #[trigger] keys[i]),
{
    if forall|i: int|
        1 <= i < keys.len() ==> crate::bytes::lex_lt(keys[i - 1], #[trigger] keys[i]) {
        assert forall|i: int, j: int| 0 <= i < j < keys.len() implies crate::bytes::lex_lt(
            #[trigger] keys[i],
            #[trigger] keys[j],
        ) by {
            lemma_climb(keys, i, j);
        }
    }
}

proof fn lemma_climb(keys: Seq<Seq<u8>>, i: int, j: int)
    requires
        0 <= i < j < keys.len(),
        forall|k: int|
            1 <= k < keys.len() ==> crate::bytes::lex_lt(keys[k - 1], #[trigger] keys[k]),
    ensures
        crate::bytes::lex_lt(keys[i], keys[j]),
    decreases j - i,
{
    assert(crate::bytes::lex_lt(keys[j - 1], keys[j]));
    if i < j - 1 {
        lemma_climb(keys, i, j - 1);
        crate::bytes::lemma_lex_trans(keys[i], keys[j - 1], keys[j]);
    }
}

/// Leaves have level zero, internal nodes a higher one, and the children of a
/// node are one level below it.
pub proof fn law_levels(n: Node)
    requires
        n.level >= 0,
    ensures
        level_fits(n) <==> (n.leaf && n.level == 0) || (!n.leaf && n.level >= 1),
        n.level >= 1 ==> child_level(n) == Some(n.level - 1),
        n.level == 0 ==> child_level(n) is None,
{
}

} // verus!
