//! Core of a BitTorrent-style peer-to-peer file downloader: the bencode
//! codec with canonical re-encoding, the metainfo projection with its info
//! fingerprint, the piece-space file mapping with sparse reads and writes,
//! the per-piece block accounting, and the download coordinator.
//!
//! All I/O (disk, network, terminal) lives outside this crate; the library
//! works on plain values and is verified.

pub mod util;
pub mod hashing;
pub mod digits;
pub mod bencode;
pub mod text;
pub mod torrent;
pub mod files;
pub mod piece_manager;
pub mod block_manager;
pub mod peer;
pub mod message;
pub mod logger;
pub mod tracker;
