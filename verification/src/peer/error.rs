//! Why a peer session fails.

use vstd::prelude::*;

verus! {

#[derive(Debug, Clone, Copy, PartialEq, Eq, Structural)]
pub enum PeerError {
    /// A frame or a handshake that does not follow the wire format.
    Malformed,
    /// A message id outside the protocol.
    UnknownMessage(u8),
    /// The peer answered the handshake for another torrent.
    HandshakeMismatch,
    /// A message that the state of the session does not allow.
    UnexpectedMessage,
    /// A block other than the one that was asked for.
    BlockMismatch,
    /// The piece does not hash to what the metainfo says.
    HashMismatch,
}

} // verus!
