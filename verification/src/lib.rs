//! Peer-to-peer file distribution: wire codec, piece bookkeeping and
//! peer coordination, with machine-checked contracts.

pub mod common;
pub mod file;
pub mod network;
pub mod peer;
pub mod protocol;
