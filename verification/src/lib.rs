pub mod errors;
pub mod decimal;
pub mod bencode_parser;
pub mod utils;
pub mod peer;
pub mod messages;
pub mod hashing;
pub mod piece_manager;
pub mod text;
pub mod bytes_be;
pub mod tracker;
pub mod disk;
pub mod peer_table;
pub mod torrent;
