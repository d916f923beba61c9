//! Online log-template mining: an implementation of the Drain algorithm with masks,
//! path-preserving tokenization, stack-trace clustering and persistence.
use vstd::prelude::*;

pub mod builtin_masks;
pub mod cluster;
pub mod consistency;
pub mod error;
pub mod format;
pub mod ingest;
pub mod event_time;
pub mod mask;
pub mod miner;
pub mod options;
pub mod persistence;
pub mod records;
pub mod retokenize;
pub mod similarity;
pub mod snapshot;
pub mod shards;
pub mod table;
mod text;
pub mod tokenize;
pub mod tree;

pub use crate::cluster::Cluster;
pub use crate::error::LogdrainError;
pub use crate::mask::Mask;
pub use crate::miner::{AddResult, Miner, UpdateType};
pub use crate::options::{MinerBuilder, Options, Ratio};
pub use crate::persistence::{MemoryPersistence, Persistence, PersistenceError};
pub use crate::tokenize::{OwnedToken, Token};

verus! {

/// Stable, process-unique identifier for a cluster.
pub type ClusterId = u64;

} // verus!
