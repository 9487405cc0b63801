//! How a pager is set up, and what this build can open.

use crate::error::Error;
use crate::pager::header::{
    FileHeader, FEATURE_FLAG_COMPRESSION, FEATURE_FLAG_ENCRYPTION,
};
use crate::platform::env::Entropy;
use crate::platform::file::SyncMode;
use crate::wal::{WalConfig, DEFAULT_CHECKPOINT_THRESHOLD, DEFAULT_WAL_SIZE_LIMIT};
use vstd::prelude::*;

verus! {

/// Cache size where none is asked for.
pub const DEFAULT_CACHE_FRAMES: usize = 64;

/// This build reads and writes compressed pages.
const COMPRESSION_COMPILED_IN: bool = true;

/// This build does not read or write encrypted pages.
const ENCRYPTION_COMPILED_IN: bool = false;

/// Whether new files use page compression. An existing file is used the way
/// its own header says.
#[derive(Debug, Clone, Copy, PartialEq, Eq, Structural)]
#[non_exhaustive]
pub enum CompressionMode {
    /// Pages are stored as they are.
    Off,
    /// Pages are stored as LZ4 blocks where that helps.
    Lz4,
}

impl Default for CompressionMode {
    fn default() -> (r: Self)
        ensures
            r == CompressionMode::Off,
    {
        CompressionMode::Off
    }
}

/// A master key as it is held in memory.
pub type MasterKeyBytes = [u8; 32];

/// How a pager is set up.
#[derive(Clone, Copy)]
pub struct Config {
    /// Number of cache frames, at least one.
    pub cache_frames: usize,
    /// How a commit syncs.
    pub sync_mode: SyncMode,
    /// The log may not grow beyond this many bytes.
    pub wal_size_limit: u64,
    /// Number of log frames from which on a commit rolls the log forward.
    pub checkpoint_threshold: u64,
    /// Whether new files use page compression.
    pub compression_mode: CompressionMode,
    /// Master key for page encryption.
    pub encryption_key: Option<MasterKeyBytes>,
}

impl Default for Config {
    fn default() -> (r: Self)
        ensures
            r.cache_frames == DEFAULT_CACHE_FRAMES,
            r.sync_mode == SyncMode::Full,
            r.wal_size_limit == DEFAULT_WAL_SIZE_LIMIT,
            r.checkpoint_threshold == DEFAULT_CHECKPOINT_THRESHOLD,
            r.compression_mode == CompressionMode::Off,
            r.encryption_key is None,
    {
        Config {
            cache_frames: DEFAULT_CACHE_FRAMES,
            sync_mode: SyncMode::Full,
            wal_size_limit: DEFAULT_WAL_SIZE_LIMIT,
            checkpoint_threshold: DEFAULT_CHECKPOINT_THRESHOLD,
            compression_mode: CompressionMode::Off,
            encryption_key: None,
        }
    }
}

impl Config {
    /// Set the number of cache frames, which must not be zero.
    pub fn with_cache_frames(self, frames: usize) -> (r: Result<Self, Error>)
        ensures
            frames == 0 ==> r == Err::<Config, Error>(
                Error::InvalidArgument("cache_frames must be >= 1"),
            ),
            frames != 0 ==> r == Ok::<Config, Error>(
                (Config { cache_frames: frames, ..self }),
            ),
    {
        if frames == 0 {
            return Err(Error::InvalidArgument("cache_frames must be >= 1"));
        }
        Ok(Config { cache_frames: frames, ..self })
    }

    /// Set how a commit syncs.
    pub fn with_sync_mode(self, sync_mode: SyncMode) -> (r: Self)
        ensures
            r == (Config { sync_mode, ..self }),
    {
        Config { sync_mode, ..self }
    }

    /// Set the log size limit.
    pub fn with_wal_size_limit(self, limit: u64) -> (r: Self)
        ensures
            r == (Config { wal_size_limit: limit, ..self }),
    {
        Config { wal_size_limit: limit, ..self }
    }

    /// Set the checkpoint threshold.
    pub fn with_checkpoint_threshold(self, frames: u64) -> (r: Self)
        ensures
            r == (Config { checkpoint_threshold: frames, ..self }),
    {
        Config { checkpoint_threshold: frames, ..self }
    }

    /// Set whether new files use page compression.
    pub fn with_compression_mode(self, mode: CompressionMode) -> (r: Self)
        ensures
            r == (Config { compression_mode: mode, ..self }),
    {
        Config { compression_mode: mode, ..self }
    }

    /// Set or clear the master key.
    pub fn with_encryption_key(self, key: Option<[u8; 32]>) -> (r: Self)
        ensures
            r == (Config { encryption_key: key, ..self }),
    {
        Config { encryption_key: key, ..self }
    }

    /// The part of the set-up that the log goes by.
    pub open spec fn spec_wal_config(self) -> WalConfig {
        WalConfig {
            size_limit: self.wal_size_limit,
            checkpoint_threshold: self.checkpoint_threshold,
            sync_mode: self.sync_mode,
        }
    }

    /// The part of the set-up that the log goes by.
    pub fn wal_config(&self) -> (r: WalConfig)
        ensures
            r == self.spec_wal_config(),
    {
        WalConfig {
            size_limit: self.wal_size_limit,
            checkpoint_threshold: self.checkpoint_threshold,
            sync_mode: self.sync_mode,
        }
    }
}

/// `true` iff this build reads and writes encrypted pages.
pub fn encryption_feature_compiled_in() -> (r: bool)
    ensures
        r == false,
{
    ENCRYPTION_COMPILED_IN
}

/// What stands in the way of setting up a pager with `config`, if anything
/// does.
pub open spec fn config_error(config: Config) -> Option<Error> {
    if config.cache_frames == 0 {
        Some(Error::InvalidArgument("cache_frames must be >= 1"))
    } else if config.encryption_key is Some {
        Some(Error::FormatFeatureUnsupported { feature: "encryption" })
    } else {
        None
    }
}

/// Refuse a set-up that this build cannot serve.
pub fn check_config(config: &Config) -> (r: Result<(), Error>)
    ensures
        match config_error(*config) {
            Some(e) => r == Err::<(), Error>(e),
            None => r is Ok,
        },
{
    if config.cache_frames == 0 {
        return Err(Error::InvalidArgument("cache_frames must be >= 1"));
    }
    match refuse_compression_without_feature(config.compression_mode, COMPRESSION_COMPILED_IN) {
        Ok(_) => {},
        Err(e) => return Err(e),
    }
    refuse_encryption_without_feature(config.encryption_key.is_some(), ENCRYPTION_COMPILED_IN)
}

/// Refuse to create a compressed file in a build without compression.
pub fn refuse_compression_without_feature(mode: CompressionMode, compiled_in: bool) -> (r: Result<
    (),
    Error,
>)
    ensures
        mode == CompressionMode::Lz4 && !compiled_in ==> r == Err::<(), Error>(
            Error::FormatFeatureUnsupported { feature: "compression" },
        ),
        !(mode == CompressionMode::Lz4 && !compiled_in) ==> r is Ok,
{
    match mode {
        CompressionMode::Lz4 => if compiled_in {
            Ok(())
        } else {
            Err(Error::FormatFeatureUnsupported { feature: "compression" })
        },
        CompressionMode::Off => Ok(()),
    }
}

/// Refuse a key in a build without encryption.
pub fn refuse_encryption_without_feature(has_key: bool, compiled_in: bool) -> (r: Result<
    (),
    Error,
>)
    ensures
        has_key && !compiled_in ==> r == Err::<(), Error>(
            Error::FormatFeatureUnsupported { feature: "encryption" },
        ),
        !(has_key && !compiled_in) ==> r is Ok,
{
    if has_key && !compiled_in {
        return Err(Error::FormatFeatureUnsupported { feature: "encryption" });
    }
    Ok(())
}

/// What stands in the way of using a file with feature bits `flags`, in a
/// build with or without compression and encryption.
pub open spec fn feature_error(flags: u32, compression: bool, encryption: bool) -> Option<Error> {
    if flags & FEATURE_FLAG_COMPRESSION != 0 && !compression {
        Some(Error::FormatFeatureUnsupported { feature: "compression" })
    } else if flags & FEATURE_FLAG_ENCRYPTION != 0 && !encryption {
        Some(Error::FormatFeatureUnsupported { feature: "encryption" })
    } else {
        None
    }
}

/// Refuse a file that needs what the build does not have.
pub fn refuse_unsupported_features(
    header: &FileHeader,
    compression: bool,
    encryption: bool,
) -> (r: Result<(), Error>)
    ensures
        match feature_error(header.feature_flags, compression, encryption) {
            Some(e) => r == Err::<(), Error>(e),
            None => r is Ok,
        },
{
    if header.feature_flags & FEATURE_FLAG_COMPRESSION != 0 && !compression {
        return Err(Error::FormatFeatureUnsupported { feature: "compression" });
    }
    if header.feature_flags & FEATURE_FLAG_ENCRYPTION != 0 && !encryption {
        return Err(Error::FormatFeatureUnsupported { feature: "encryption" });
    }
    Ok(())
}

/// Whether a page key must be derived on opening a file; the error where a
/// file and a key do not go together.
///
/// | file       | build            | key  | result                          |
/// |------------|------------------|------|---------------------------------|
/// | plain      | any              | none | no key                          |
/// | plain      | any              | some | `EncryptionKeyMismatch`         |
/// | encrypted  | cannot decrypt   | any  | `FormatFeatureUnsupported`      |
/// | encrypted  | can decrypt      | none | `EncryptionKeyRequired`         |
/// | encrypted  | can decrypt      | some | derive one                      |
pub fn key_for_open(file_is_encrypted: bool, has_feature: bool, has_key: bool) -> (r: Result<
    bool,
    Error,
>)
    ensures
        r == match (file_is_encrypted, has_feature, has_key) {
            (false, _, false) => Ok::<bool, Error>(false),
            (false, _, true) => Err(Error::EncryptionKeyMismatch),
            (true, false, _) => Err(Error::FormatFeatureUnsupported { feature: "encryption" }),
            (true, true, false) => Err(Error::EncryptionKeyRequired),
            (true, true, true) => Ok(true),
        },
{
    match (file_is_encrypted, has_feature, has_key) {
        (false, _, false) => Ok(false),
        (false, _, true) => Err(Error::EncryptionKeyMismatch),
        (true, false, _) => Err(Error::FormatFeatureUnsupported { feature: "encryption" }),
        (true, true, false) => Err(Error::EncryptionKeyRequired),
        (true, true, true) => Ok(true),
    }
}

/// Refuse an existing file that `config` and this build cannot serve.
pub fn check_existing(config: &Config, header: &FileHeader) -> (r: Result<(), Error>)
    requires
        config_error(*config) is None,
    ensures
        match feature_error(header.feature_flags, true, false) {
            Some(e) => r == Err::<(), Error>(e),
            None => r is Ok,
        },
{
    match refuse_unsupported_features(header, COMPRESSION_COMPILED_IN, ENCRYPTION_COMPILED_IN) {
        Ok(_) => {},
        Err(e) => return Err(e),
    }
    match key_for_open(
        header.feature_flags & FEATURE_FLAG_ENCRYPTION != 0,
        ENCRYPTION_COMPILED_IN,
        config.encryption_key.is_some(),
    ) {
        Ok(_) => Ok(()),
        Err(e) => Err(e),
    }
}

/// The feature bits of a new file.
pub open spec fn new_file_flags(mode: CompressionMode, encrypted: bool) -> u32 {
    match (mode, encrypted) {
        (CompressionMode::Off, false) => 0,
        (CompressionMode::Lz4, false) => FEATURE_FLAG_COMPRESSION,
        (CompressionMode::Off, true) => FEATURE_FLAG_ENCRYPTION,
        (CompressionMode::Lz4, true) => crate::pager::header::FEATURE_FLAGS_KNOWN,
    }
}

/// The header of a new file. A salt for key derivation is drawn only for an
/// encrypted one.
pub fn build_new_file_header(
    mode: CompressionMode,
    encrypted: bool,
    entropy: &mut Box<dyn Entropy>,
) -> (r: FileHeader)
    ensures
        r.is_fresh(new_file_flags(mode, encrypted)),
        r.well_formed(),
        !encrypted ==> crate::pager::header::all_zero(r.kdf_salt@),
        !encrypted ==> *final(entropy) == *old(entropy),
        encrypted ==> old(entropy).may_give(r.kdf_salt@),
{
    match (mode, encrypted) {
        (CompressionMode::Off, false) => FileHeader::new_empty(),
        (CompressionMode::Lz4, false) => FileHeader::new_empty_with_compression(),
        (CompressionMode::Off, true) => {
            let salt: [u8; 32] = fresh_kdf_salt(entropy);
            FileHeader::new_empty_with_encryption(salt)
        },
        (CompressionMode::Lz4, true) => {
            let salt: [u8; 32] = fresh_kdf_salt(entropy);
            FileHeader::new_empty_with_encryption_and_compression(salt)
        },
    }
}

/// Draw a salt for key derivation.
fn fresh_kdf_salt(entropy: &mut Box<dyn Entropy>) -> (r: [u8; 32])
    ensures
        old(entropy).may_give(r@),
{
    let mut out: [u8; 32] = [0u8; 32];
    entropy.fill_bytes(vstd::array::ref_mut_array_unsizing_coercion(&mut out));
    out
}

/// A set-up is refused exactly where it asks for no cache or for encryption; the
/// cache is looked at first.
pub proof fn law_refused_set_ups(config: Config)
    ensures
        config_error(config) is None <==> config.cache_frames > 0 && config.encryption_key is None,
        config.cache_frames == 0 ==> config_error(config) == Some(
            Error::InvalidArgument("cache_frames must be >= 1"),
        ),
        config.cache_frames > 0 && config.encryption_key is Some ==> config_error(config) == Some(
            Error::FormatFeatureUnsupported { feature: "encryption" },
        ),
{
}

/// A file is refused exactly where one of its two feature bits asks for what the
/// build lacks; compression is looked at first.
pub proof fn law_refused_features(flags: u32, compression: bool, encryption: bool)
    ensures
        feature_error(flags, compression, encryption) is None <==> (flags % 2 == 1 ==> compression)
            && (flags / 2 % 2 == 1 ==> encryption),
        flags % 2 == 1 && !compression ==> feature_error(flags, compression, encryption) == Some(
            Error::FormatFeatureUnsupported { feature: "compression" },
        ),
        (flags % 2 == 1 ==> compression) && flags / 2 % 2 == 1 && !encryption ==> feature_error(
            flags,
            compression,
            encryption,
        ) == Some(Error::FormatFeatureUnsupported { feature: "encryption" }),
{
    assert((flags & 1 != 0) == (flags % 2 == 1)) by (bit_vector);
    assert((flags & 2 != 0) == (flags / 2 % 2 == 1)) by (bit_vector);
}

/// A new file has the features that were asked for, and no other, so that a
/// build that has them can use it.
pub proof fn law_features_of_new_files(mode: CompressionMode, encrypted: bool)
    ensures
        new_file_flags(mode, encrypted) % 2 == 1 <==> mode == CompressionMode::Lz4,
        new_file_flags(mode, encrypted) / 2 % 2 == 1 <==> encrypted,
        new_file_flags(mode, encrypted) < 4,
        feature_error(
            new_file_flags(mode, encrypted),
            mode == CompressionMode::Lz4,
            encrypted,
        ) is None,
{
    law_refused_features(
        new_file_flags(mode, encrypted),
        mode == CompressionMode::Lz4,
        encrypted,
    );
}

/// The log goes by the limit, the threshold and the sync mode of the set-up.
pub proof fn law_log_set_up(config: Config)
    ensures
        config.spec_wal_config().size_limit == config.wal_size_limit,
        config.spec_wal_config().checkpoint_threshold == config.checkpoint_threshold,
        config.spec_wal_config().sync_mode == config.sync_mode,
{
}

/// What a pager is set up with where nothing is asked for: 64 cache frames, a log
/// of at most 64 MiB, and a checkpoint from 1000 frames on.
pub proof fn law_default_limits()
    ensures
        DEFAULT_CACHE_FRAMES == 64,
        DEFAULT_WAL_SIZE_LIMIT == 64 * 1024 * 1024,
        DEFAULT_CHECKPOINT_THRESHOLD == 1000,
{
}

} // verus!
