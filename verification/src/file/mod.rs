//! Pieces in memory and files on disk.

pub mod layout;
pub mod manager;
pub mod piece_manager;
pub mod torrent_parser;
pub mod whole;
