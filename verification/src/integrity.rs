//! The integrity walk: what it can find, and the checks that find it.

pub mod chain;
pub mod crossref;
pub mod report;
pub mod stack;
pub mod walk;

pub use crate::integrity::chain::walk_freelist;
pub use crate::integrity::crossref::{
    check_catalog_pointers, check_primary_to_index, collect_primary_ids, cross_reference_index,
    quick_check,
};
pub use crate::integrity::report::{IntegrityFailure, IntegrityReport};
pub use crate::integrity::stack::fresh_descent_stack;
pub use crate::integrity::walk::{walk_btree, TreeContext};
