//! Sessions with peers and talk with trackers, as far as they are
//! decisions.

pub mod connection;
pub mod engine;
pub mod session;
pub mod tracker;
