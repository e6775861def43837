pub mod bencode;
pub mod download;
pub mod encode;
pub mod error;
pub mod hash;
pub mod laws;
pub mod peer;
pub mod query;
pub mod text;
pub mod torrent;
pub mod tracker;
