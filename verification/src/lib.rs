//! A BitTorrent client library: bencode encoding and decoding, torrent
//! metainfo, piece and block bookkeeping, piece picking and the peer wire
//! protocol, with their contracts proved by Verus.

pub mod text;
pub mod hash;
mod io;
pub mod fs;
pub mod partial_piece;
pub mod bitfield;
pub mod piece_picker;
pub mod picker;
pub mod tracker;
pub mod session;
pub mod metainfo;
pub mod message;
pub mod handshake;
pub mod block;
pub mod store;
pub mod info;
pub mod bencode;
pub mod client;
pub mod config;
pub mod stats;
pub mod torrent;

use vstd::prelude::*;

verus! {

/// Most commonly used block size: 16 KiB.
pub const BLOCK_SIZE: usize = 0x4000;

/// A 20 byte SHA1 info hash or peer id.
pub type ID = [u8; 20];

} // verus!
