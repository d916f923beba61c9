//! Pluggable persistence: a small synchronous trait plus an in-memory backend. The
//! miner serializes via `Miner::snapshot` and hands the bytes to a backend.
use vstd::prelude::*;

verus! {

#[verifier::external_type_specification]
#[verifier::external_body]
pub struct ExIoError(std::io::Error);

/// Error from a persistence backend.
#[derive(Debug)]
pub enum PersistenceError {
    /// Underlying I/O failure.
    Io(std::io::Error),
    /// Failure reported by an external backend (Redis, Kafka, ...).
    Backend(String),
}

/// The bytes an optional blob holds.
pub open spec fn opt_bytes(o: Option<Vec<u8>>) -> Option<Seq<u8>> {
    match o {
        Some(b) => Some(b@),
        None => None,
    }
}

/// A place to store and retrieve a serialized miner snapshot.
///
/// A store keeps one blob: `save` replaces it and `load` reads back the most recent one.
/// A verified implementation that keeps to that sets `keeps_last_blob` and says in
/// `stored` which blob it holds; the clauses of `save` and `load` then bind it. One whose
/// `save` and `load` cannot fail sets `never_fails`. For an implementation that leaves
/// these false the clauses say nothing.
pub trait Persistence {
    /// Whether this store's `save` and `load` keep to `stored`.
    open spec fn keeps_last_blob(&self) -> bool {
        false
    }

    /// The blob this store holds, if any.
    open spec fn stored(&self) -> Option<Seq<u8>> {
        None
    }

    /// Whether this store's `save` and `load` always succeed.
    open spec fn never_fails(&self) -> bool {
        false
    }

    /// Persist a snapshot blob, replacing any previous one.
    fn save(&mut self, blob: &[u8]) -> (r: Result<(), PersistenceError>)
        ensures
            old(self).keeps_last_blob() ==> final(self).keeps_last_blob() && (r is Ok
                ==> final(self).stored() == Some(blob@)),
            old(self).never_fails() ==> final(self).never_fails() && r is Ok,
    ;

    /// Load the most recent snapshot blob, or `None` if nothing is stored.
    fn load(&self) -> (r: Result<Option<Vec<u8>>, PersistenceError>)
        ensures
            self.keeps_last_blob() ==> (r matches Ok(o) ==> opt_bytes(o) == self.stored()),
            self.never_fails() ==> r is Ok,
    ;
}

/// In-memory backend. Useful for tests and ephemeral processes.
#[derive(Debug)]
pub struct MemoryPersistence {
    blob: Option<Vec<u8>>,
}

impl MemoryPersistence {
    /// Create an empty in-memory store.
    pub fn new() -> (p: MemoryPersistence)
        ensures
            p.stored() is None,
    {
        MemoryPersistence { blob: None }
    }

    /// Store a copy of `blob`, replacing any previous one.
    pub fn store(&mut self, blob: &[u8])
        ensures
            final(self).stored() == Some(blob@),
    {
        self.blob = Some(vstd::slice::slice_to_vec(blob));
    }

    /// A copy of the stored blob, if any.
    pub fn fetch(&self) -> (r: Option<Vec<u8>>)
        ensures
            opt_bytes(r) == self.stored(),
    {
        match &self.blob {
            Some(b) => Some(vstd::slice::slice_to_vec(b.as_slice())),
            None => None,
        }
    }
}

impl Persistence for MemoryPersistence {
    open spec fn keeps_last_blob(&self) -> bool {
        true
    }

    open spec fn never_fails(&self) -> bool {
        true
    }

    closed spec fn stored(&self) -> Option<Seq<u8>> {
        opt_bytes(self.blob)
    }

    fn save(&mut self, blob: &[u8]) -> (r: Result<(), PersistenceError>)
        ensures
            r is Ok,
    {
        self.store(blob);
        Ok(())
    }

    fn load(&self) -> (r: Result<Option<Vec<u8>>, PersistenceError>)
        ensures
            r is Ok,
    {
        Ok(self.fetch())
    }
}

} // verus!
