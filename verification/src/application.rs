//! The replicated chain application: block cutting, the chain on a store,
//! exports, pruning and checkpoints.
pub mod chain;
pub mod config;
pub mod crypto;
pub mod railchain;
pub mod request_generator;
pub mod osf;
