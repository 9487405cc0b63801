//! The error type shared by every layer.

use vstd::prelude::*;

verus! {

/// An operating-system error, carried through unread.
#[verifier::external_type_specification]
#[verifier::external_body]
pub struct ExIoError(std::io::Error);

/// Which lock a busy caller was waiting for.
#[derive(Debug, Clone, Copy, PartialEq, Eq, Structural)]
pub enum LockKind {
    /// The cross-process writer byte.
    Writer,
    /// The in-process write-serialization gate.
    WriterInProcess,
    /// A cross-process reader slot.
    Reader,
}

/// Everything that can go wrong.
#[derive(Debug)]
pub enum Error {
    /// The operating system refused a request.
    Io(std::io::Error),
    /// A caller handed over a value outside the accepted range.
    InvalidArgument(&'static str),
    /// A file does not look like a database of this format.
    InvalidFormat {
        /// What was found to be wrong.
        reason: &'static str,
    },
    /// The file needs a feature that this build does not have.
    FormatFeatureUnsupported {
        /// The missing feature.
        feature: &'static str,
    },
    /// A page failed its integrity check.
    Corruption {
        /// The damaged page.
        page_id: u64,
    },
    /// The write-ahead log is damaged ahead of its last commit.
    WalCorruption {
        /// Byte offset of the damaged frame.
        offset: u64,
    },
    /// The file is encrypted and no key was given.
    EncryptionKeyRequired,
    /// A key was given for a file that is not encrypted.
    EncryptionKeyMismatch,
    /// A backup was asked of a memory-backed pager.
    BackupNotSupportedForMemoryPager,
    /// A lock did not become free in time.
    Busy {
        /// The lock that was waited for.
        kind: LockKind,
    },
    /// A tree broke one of its structural rules.
    BTreeInvariantViolated {
        /// The rule that was broken.
        reason: &'static str,
    },
    /// An indexed field is absent from the document.
    IndexFieldMissing {
        /// Owning collection.
        collection: String,
        /// Owning index.
        index: String,
        /// The absent field path.
        path: String,
    },
    /// An indexed field has the wrong shape.
    IndexFieldTypeMismatch {
        /// Owning collection.
        collection: String,
        /// Owning index.
        index: String,
        /// The field path.
        path: String,
        /// The shape the index needs.
        expected: &'static str,
        /// The shape that was found.
        found: &'static str,
    },
    /// A sequence field holds more elements than an index takes.
    EachIndexTooLarge {
        /// Owning collection.
        collection: String,
        /// Owning index.
        index: String,
        /// Number of elements found.
        len: usize,
        /// Number of elements allowed.
        max: usize,
    },
}

} // verus!
