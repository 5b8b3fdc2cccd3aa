//! The peer wire protocol's message alphabet. The connection machinery that
//! sends and receives these lives outside the library; the coordinator only
//! consumes the block payloads they carry.

use vstd::prelude::*;

verus! {

/// A message of the peer wire protocol.
#[derive(Debug, Clone)]
pub enum PeerMessage {
    Choke,
    Unchoke,
    Interested,
    NotInterested,
    /// The sender has the given piece.
    Have(u32),
    /// The sender's piece bitmap.
    Bitfield(Vec<u8>),
    /// Request a block: piece index, begin, length.
    Request(u32, u32, u32),
    /// A block's bytes: piece index, begin, data.
    Piece(u32, u32, Vec<u8>),
    /// Withdraw a request: piece index, begin, length.
    Cancel(u32, u32, u32),
    /// The sender's DHT port.
    Port(u16),
    KeepAlive,
    /// The 68-byte opening handshake.
    Handshake([u8; 68]),
}

} // verus!
