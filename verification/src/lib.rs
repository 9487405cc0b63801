//! Core of an embedded document store: the page store with its write-ahead
//! log, the order-preserving index-key codec, and the integrity walk.

pub mod btree;
pub mod bytes;
pub mod catalog;
pub mod codec;
pub mod error;
pub mod id;
pub mod index;
pub mod integrity;
pub mod ordered;
pub mod pager;
pub mod platform;
pub mod txn;
pub mod wal;

pub use crate::catalog::{CollectionDescriptor, IndexDescriptor, IndexStatus};
pub use crate::error::{Error, LockKind};
pub use crate::id::Id;
pub use crate::index::{IndexKind, IndexSpec};
pub use crate::integrity::{IntegrityFailure, IntegrityReport};
pub use crate::pager::{CompressionMode, PageHandle, ReaderSnapshot, SnapshotId};
pub use crate::platform::{FileBackend, SyncMode};
pub use crate::txn::{ReadTxn, WriteTxn, DEFAULT_BUSY_TIMEOUT};
pub use crate::wal::Lsn;
