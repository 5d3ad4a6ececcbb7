//! The Ocean Stream Format: stream headers, data blocks and UDP datagrams.
pub mod header;
pub mod block;
pub mod datagram;
