//! The configuration of the chain application.
use vstd::prelude::*;

verus! {

/// Where the export keys are found: the replica's signing key and the
/// exporter's public key, as file paths.
pub struct Export {
    pub signing_key: String,
    pub exporter_identity: String,
}

/// The configuration of the chain application.
pub struct Config {
    /// The number of transactions at which a block is cut.
    pub max_block_messages: usize,
    pub export: Export,
}

/// The failure model the replicas run under: one where a client sends to
/// all replicas, or one where each replica runs its own source of requests.
#[derive(PartialEq, Eq, Structural)]
pub enum Fm {
    One,
    Two { me: u64 },
}

} // verus!
