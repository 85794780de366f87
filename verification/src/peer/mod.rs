//! Peers: what is known of each, the registry of all, and the decisions on
//! whom to serve and what to ask for.

pub mod choking;
pub mod manager;
pub mod ranking;
pub mod scheduler;
pub mod peer;
