//! The bookkeeping of the ordering protocol's primary: which requests it has
//! already put into a proposal.
pub mod assigned_reqs;
