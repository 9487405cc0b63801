//! What the page store asks of the machine: a file, locks, and a source of
//! entropy.

pub mod env;
pub mod fault;
pub mod file;
pub mod lock;

pub use crate::platform::env::{Entropy, Kept, OsEntropy, SeededEntropy};
pub use crate::platform::file::{FileBackend, MemoryFile, SyncMode};
