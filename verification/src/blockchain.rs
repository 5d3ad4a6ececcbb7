//! The chain itself: blocks, hashing, the genesis block and block storage.
pub mod proto;
pub mod hashing;
pub mod genesis;
pub mod storage;
pub mod display;
