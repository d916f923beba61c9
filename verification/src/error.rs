//! Error type for the crate.
use vstd::prelude::*;

use crate::persistence::PersistenceError;

verus! {

#[verifier::external_type_specification]
#[verifier::external_body]
pub struct ExRegexError(regex::Error);

/// Errors returned by the miner and its configuration.
#[derive(Debug)]
#[non_exhaustive]
pub enum LogdrainError {
    /// A builder option failed validation.
    InvalidConfig(String),
    /// A mask regex failed to compile.
    RegexCompile(regex::Error),
    /// A persistence backend failed.
    Persistence(PersistenceError),
    /// Snapshot bytes did not start with the expected magic.
    BadMagic,
    /// Snapshot version is not one this build understands.
    UnsupportedSnapshotVersion { found: u32, max: u32 },
    /// The snapshot body could not be decoded.
    Decode(String),
}

} // verus!
