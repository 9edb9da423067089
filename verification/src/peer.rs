//! The peer wire protocol: handshake, framed messages, the block pipeline
//! of a piece and the states of a session.

pub mod error;
pub mod message;
pub mod piece;
pub mod session;

pub use error::PeerError;
pub use message::{PeerHandShakePacket, PeerMessage};
pub use piece::PieceDescriptor;
pub use session::{Connected, Disconnected, Peer};
