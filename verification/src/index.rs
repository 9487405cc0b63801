//! Secondary indexes: what an index declares, how its keys are encoded so that
//! their byte order is the order of the values, and how the keys of a document
//! are found.

pub mod extract;
pub mod key;
pub mod spec;

pub use crate::index::extract::{extract_index_keys, MAX_EACH_ENTRIES};
pub use crate::index::key::{
    encode_field, encode_index_key, encode_index_key_parts, encoded_id_suffix_len, EncodedIndexKey,
    COMPOSITE_TAG,
};
pub use crate::index::spec::{IndexKind, IndexSpec};
