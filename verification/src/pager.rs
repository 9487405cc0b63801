//! The page store: page allocation, the freelist, the cache, and the log-aware
//! write path.

pub mod backend;
pub mod cache;
pub mod checksum;
pub mod config;
pub mod disk;
pub mod freelist;
pub mod header;
pub mod history;
pub mod laws;
pub mod page;
pub mod paths;
pub mod snapshot;
pub mod state;
pub mod store;

pub use crate::pager::config::{encryption_feature_compiled_in, CompressionMode, Config};
pub use crate::pager::disk::decode_page_v1;
pub use crate::pager::page::PAGE_SIZE as PAGER_PAGE_SIZE;
pub use crate::pager::paths::{lock_path_for, wal_path_for};
pub use crate::pager::snapshot::{
    HeaderSnapshot, PageHandle, PageRef, ReaderSnapshot, SnapshotId,
};
pub use crate::pager::store::Pager;
