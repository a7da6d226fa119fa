//! Core of a BitTorrent client: bencode codec, metainfo and magnet parsing,
//! bitfields and piece selection, the piece manager that verifies downloaded
//! data, the disk mapper that projects pieces onto files, the peer wire
//! protocol, and the pure decision logic of the peer session and engine.
//!
//! Network and file I/O live outside this crate; everything here is a
//! function from plain values to plain values, with its contract checked.

pub mod bencode;
pub mod bitfield;
pub mod disk;
pub mod download;
pub mod engine;
pub mod error;
pub mod handshake;
pub mod hashing;
pub mod piece;
pub mod magnet;
pub mod message;
pub mod session;
pub mod strategy;
pub mod text;
pub mod torrent;
pub mod tracker;
pub mod util;

#[allow(unused_imports)]
use vstd::prelude::*;

verus! {

/// Size of a block, the unit in which pieces are requested from peers.
pub const BLOCK_SIZE: usize = 16384;

} // verus!
