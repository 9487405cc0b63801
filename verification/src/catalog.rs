//! Rows of the catalog.

use crate::index::spec::IndexKind;
use vstd::prelude::*;

verus! {

/// Whether an index is in use.
#[derive(Debug, Clone, Copy, PartialEq, Eq, Structural)]
pub enum IndexStatus {
    /// In use.
    Active,
    /// No longer in use.
    Dropped,
}

/// An index of a collection.
#[derive(Debug, Clone)]
pub struct IndexDescriptor {
    /// Name of the index.
    pub name: String,
    /// Kind of the index.
    pub kind: IndexKind,
    /// Paths of the fields that make up a key.
    pub key_paths: Vec<String>,
    /// Root page of the tree of the index.
    pub root_page_id: u64,
    /// Whether the index is in use.
    pub status: IndexStatus,
}

/// A collection.
#[derive(Debug, Clone)]
pub struct CollectionDescriptor {
    /// Root page of the tree of documents.
    pub primary_root: u64,
    /// Indexes of the collection.
    pub indexes: Vec<IndexDescriptor>,
}

} // verus!
