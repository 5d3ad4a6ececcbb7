//! Railchain: a replicated blockchain for railway telemetry, with the OSF
//! (Ocean Stream Format) decoder that feeds it.
pub mod application;
pub mod bft;
pub mod blockchain;
pub mod export;
pub mod broadcaster;
pub mod cli;
pub mod osf;
pub mod text;
pub mod victoria;
pub mod wire;
