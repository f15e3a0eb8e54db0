//! Bencode decoding and encoding with exact byte spans, and the SHA-1 digest
//! that turns a span into a content identifier.

pub mod bencode;
pub mod commands;
pub mod endian;
pub mod sha1;
pub mod state;
pub mod torrent_file;
pub mod tracker;
