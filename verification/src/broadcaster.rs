//! The test client that broadcasts programs of requests to the replicas, and
//! its benchmark modes.
pub mod bench;
pub mod program;
pub mod replies;
