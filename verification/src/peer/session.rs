//! A session with one peer, as states and the steps between them. The
//! caller moves the bytes; the session says what each message leads to.

use vstd::prelude::*;
use bytes::Bytes;
use crate::buffer::bytes_contents;
use crate::peer::error::PeerError;
use crate::peer::message::{Message, PeerHandShakePacket, PeerMessage, parse_handshake};
use crate::peer::piece::{PieceBlockRequest, PieceBlockResponse, PieceDescriptor, PieceDownload};
use crate::util::{PeerAddress, PeerId, Sha1Hash, bytes_equal, sha1_digest};

verus! {

/// A peer and how far the session with it has come.
#[derive(Debug)]
pub struct Peer<C> {
    pub socket_addr: PeerAddress,
    pub connection: C,
}

/// No handshake yet.
#[derive(Debug, Clone, Copy, PartialEq, Eq)]
pub struct Disconnected;

/// Where a session stands once the handshake is done.
#[derive(Debug, Clone, Copy, PartialEq, Eq, Structural)]
pub enum Phase {
    /// The peer's first message is awaited.
    AwaitingBitfield,
    /// We said we are interested and may not ask for blocks yet.
    AwaitingUnchoke,
    /// Unchoked, with no piece in hand.
    Ready,
    /// A piece is being downloaded.
    Downloading,
    /// The session is over.
    Failed,
}

/// The handshake is done.
#[derive(Debug)]
pub struct Connected {
    pub peer_id: PeerId,
    pub phase: Phase,
    pub download: Option<PieceDownload>,
}

/// What the caller does after a message.
#[derive(Debug, PartialEq, Eq)]
pub enum Reaction {
    /// Read the next message.
    Continue,
    /// Send this message, then read the next.
    Send(PeerMessage),
    /// The piece is whole and hashes as it should: write it out.
    Done { piece: PieceDescriptor, data: Vec<u8> },
    /// The peer choked us: the piece goes back to the queue.
    Aborted(PieceDescriptor),
    /// The session failed: drop the peer, and put back the piece if one
    /// was in hand.
    Failed(PeerError),
}

/// Control messages that concern no download and are passed over.
pub open spec fn passed_over(m: Message) -> bool {
    m is KeepAlive || m is Have
}

impl Connected {
    /// A piece is in hand exactly while downloading, and it is not whole.
    pub open spec fn wf(&self) -> bool {
        &&& self.phase is Downloading <==> self.download is Some
        &&& self.download matches Some(d) ==> d.wf() && !d.complete()
    }
}

/// The step that a session in state `pre` takes on message `m`: the state
/// `post` it is in afterwards, and what the caller is told.
pub open spec fn steps(pre: Connected, m: Message, post: Connected, reaction: Reaction) -> bool {
    let unexpected = post.phase is Failed && post.download is None && reaction == Reaction::Failed(
        PeerError::UnexpectedMessage,
    );
    let unchanged = post == pre && reaction == Reaction::Continue;
    &&& post.peer_id == pre.peer_id
    &&& match pre.phase {
        Phase::Failed => unexpected,
        Phase::AwaitingBitfield => {
            if m is KeepAlive {
                unchanged
            } else if m is Bitfield || m is Have || m is Choke {
                post.phase is AwaitingUnchoke && post.download is None && reaction
                    == Reaction::Send(PeerMessage::Interested)
            } else if m is Unchoke {
                post.phase is Ready && post.download is None && reaction == Reaction::Send(
                    PeerMessage::Interested,
                )
            } else {
                unexpected
            }
        },
        Phase::AwaitingUnchoke => {
            if m is Unchoke {
                post.phase is Ready && post.download is None && reaction == Reaction::Continue
            } else if passed_over(m) || m is Choke {
                unchanged
            } else {
                unexpected
            }
        },
        Phase::Ready => {
            if m is Choke {
                post.phase is AwaitingUnchoke && post.download is None && reaction
                    == Reaction::Continue
            } else if passed_over(m) || m is Unchoke {
                unchanged
            } else {
                unexpected
            }
        },
        Phase::Downloading => {
            let download = pre.download.unwrap();
            if m is Choke {
                post.phase is AwaitingUnchoke && post.download is None && reaction
                    == Reaction::Aborted(download.piece)
            } else if passed_over(m) || m is Unchoke {
                unchanged
            } else if let Message::Piece { index, begin, block } = m {
                let expected = download.expected();
                if index == expected.index && begin == expected.begin && block.len()
                    == expected.length {
                    let buffer = download.buffer@.take(begin as int) + block
                        + download.buffer@.skip(begin + block.len());
                    if begin + block.len() < download.piece.length {
                        &&& post.phase is Downloading
                        &&& post.download matches Some(next)
                        &&& next.piece == download.piece
                        &&& next.received == begin + block.len()
                        &&& next.buffer@ == buffer
                        &&& reaction == Reaction::Send(
                            PeerMessage::Request {
                                index: next.expected().index,
                                begin: next.expected().begin,
                                length: next.expected().length,
                            },
                        )
                    } else if sha1_digest(buffer) == download.piece.hash@ {
                        &&& post.phase is Ready
                        &&& post.download is None
                        &&& reaction matches Reaction::Done { piece, data }
                        &&& piece == download.piece
                        &&& data@ == buffer
                    } else {
                        post.phase is Failed && post.download is None && reaction
                            == Reaction::Failed(PeerError::HashMismatch)
                    }
                } else {
                    post.phase is Failed && post.download is None && reaction == Reaction::Failed(
                        PeerError::BlockMismatch,
                    )
                }
            } else {
                unexpected
            }
        },
    }
}

impl Peer<Disconnected> {
    pub fn from_socket(socket: PeerAddress) -> (peer: Self)
        ensures
            peer.socket_addr == socket,
    {
        Self { socket_addr: socket, connection: Disconnected }
    }

    /// Takes the peer's answer to our handshake, which was sent for
    /// `info_hash`. The answer must be a handshake for the same torrent.
    pub fn handshake(self, info_hash: Sha1Hash, response: Bytes) -> (r: Result<
        Peer<Connected>,
        PeerError,
    >)
        ensures
            match parse_handshake(bytes_contents(response)) {
                Err(e) => r is Err && r->Err_0 == e,
                Ok((hash, peer_id)) => if hash == info_hash@ {
                    &&& r matches Ok(peer)
                    &&& peer.socket_addr == self.socket_addr
                    &&& peer.connection.peer_id@ == peer_id
                    &&& peer.connection.phase is AwaitingBitfield
                    &&& peer.connection.download is None
                } else {
                    r is Err && r->Err_0 == PeerError::HandshakeMismatch
                },
            },
    {
        let packet = match PeerHandShakePacket::parse(response) {
            Err(e) => {
                return Err(e);
            },
            Ok(packet) => packet,
        };
        if !bytes_equal(packet.info_hash.as_slice(), info_hash.as_slice()) {
            return Err(PeerError::HandshakeMismatch);
        }
        Ok(
            Peer {
                socket_addr: self.socket_addr,
                connection: Connected {
                    peer_id: packet.peer_id,
                    phase: Phase::AwaitingBitfield,
                    download: None,
                },
            },
        )
    }
}

impl Peer<Connected> {
    pub fn peer_id(&self) -> (id: &PeerId)
        ensures
            *id == self.connection.peer_id,
    {
        &self.connection.peer_id
    }

    /// Whether a piece may be handed to the session.
    pub fn is_ready(&self) -> (ready: bool)
        ensures
            ready == (self.connection.phase is Ready),
    {
        match self.connection.phase {
            Phase::Ready => true,
            _ => false,
        }
    }

    /// Starts the download of `piece`; returns the request for its first
    /// block. The session must be ready and the piece not empty.
    pub fn download_piece(&mut self, piece: PieceDescriptor) -> (first: PeerMessage)
        requires
            old(self).connection.wf(),
            old(self).connection.phase is Ready,
            piece.length >= 1,
        ensures
            final(self).connection.wf(),
            final(self).socket_addr == old(self).socket_addr,
            final(self).connection.peer_id == old(self).connection.peer_id,
            final(self).connection.phase is Downloading,
            final(self).connection.download matches Some(d) && d.piece == piece && d.received == 0,
            first == (PeerMessage::Request {
                index: piece.index,
                begin: 0,
                length: if piece.length < 16384 {
                    piece.length
                } else {
                    16384
                },
            }),
    {
        let download = PieceDownload::new(piece);
        let request = match download.next_request() {
            Some(request) => request,
            None => PieceBlockRequest { index: piece.index, begin: 0, length: 0 },
        };
        self.connection.download = Some(download);
        self.connection.phase = Phase::Downloading;
        request.to_message()
    }

    /// Takes a message from the peer and says what to do next.
    pub fn receive(&mut self, message: PeerMessage) -> (reaction: Reaction)
        requires
            old(self).connection.wf(),
        ensures
            final(self).connection.wf(),
            final(self).socket_addr == old(self).socket_addr,
            steps(old(self).connection, message@, final(self).connection, reaction),
    {
        match self.connection.phase {
            Phase::Failed => {
                self.connection.download = None;
                Reaction::Failed(PeerError::UnexpectedMessage)
            },
            Phase::AwaitingBitfield => match message {
                PeerMessage::KeepAlive => Reaction::Continue,
                PeerMessage::Bitfield { .. } | PeerMessage::Have { .. } | PeerMessage::Choke => {
                    self.connection.phase = Phase::AwaitingUnchoke;
                    Reaction::Send(PeerMessage::Interested)
                },
                PeerMessage::Unchoke => {
                    self.connection.phase = Phase::Ready;
                    Reaction::Send(PeerMessage::Interested)
                },
                _ => self.fail(PeerError::UnexpectedMessage),
            },
            Phase::AwaitingUnchoke => match message {
                PeerMessage::Unchoke => {
                    self.connection.phase = Phase::Ready;
                    Reaction::Continue
                },
                PeerMessage::KeepAlive | PeerMessage::Have { .. } | PeerMessage::Choke => {
                    Reaction::Continue
                },
                _ => self.fail(PeerError::UnexpectedMessage),
            },
            Phase::Ready => match message {
                PeerMessage::Choke => {
                    self.connection.phase = Phase::AwaitingUnchoke;
                    Reaction::Continue
                },
                PeerMessage::KeepAlive | PeerMessage::Have { .. } | PeerMessage::Unchoke => {
                    Reaction::Continue
                },
                _ => self.fail(PeerError::UnexpectedMessage),
            },
            Phase::Downloading => match message {
                PeerMessage::Choke => {
                    let download = self.connection.download.take();
                    self.connection.phase = Phase::AwaitingUnchoke;
                    match download {
                        Some(d) => Reaction::Aborted(d.piece),
                        None => Reaction::Failed(PeerError::UnexpectedMessage),
                    }
                },
                PeerMessage::KeepAlive | PeerMessage::Have { .. } | PeerMessage::Unchoke => {
                    Reaction::Continue
                },
                PeerMessage::Piece { index, begin, block } => {
                    let response = PieceBlockResponse { index, begin, block };
                    self.receive_block(response)
                },
                _ => self.fail(PeerError::UnexpectedMessage),
            },
        }
    }

    /// Ends the session with `error`.
    fn fail(&mut self, error: PeerError) -> (reaction: Reaction)
        ensures
            final(self).socket_addr == old(self).socket_addr,
            final(self).connection.peer_id == old(self).connection.peer_id,
            final(self).connection.phase is Failed,
            final(self).connection.download is None,
            reaction == Reaction::Failed(error),
    {
        self.connection.phase = Phase::Failed;
        self.connection.download = None;
        Reaction::Failed(error)
    }

    /// Takes a block while downloading.
    fn receive_block(&mut self, response: PieceBlockResponse) -> (reaction: Reaction)
        requires
            old(self).connection.wf(),
            old(self).connection.phase is Downloading,
        ensures
            final(self).connection.wf(),
            final(self).socket_addr == old(self).socket_addr,
            steps(
                old(self).connection,
                Message::Piece {
                    index: response.index,
                    begin: response.begin,
                    block: bytes_contents(response.block),
                },
                final(self).connection,
                reaction,
            ),
    {
        let mut download = match self.connection.download.take() {
            Some(d) => d,
            None => {
                return self.fail(PeerError::UnexpectedMessage);
            },
        };
        let ghost before = download;
        match download.accept(&response) {
            Err(e) => {
                return self.fail(e);
            },
            Ok(_) => {},
        }
        proof {
            assert(before.buffer@.skip(download.received as int) =~= before.buffer@.skip(
                response.begin + bytes_contents(response.block).len(),
            ));
        }
        match download.next_request() {
            Some(request) => {
                self.connection.download = Some(download);
                Reaction::Send(request.to_message())
            },
            None => {
                let piece = download.piece;
                match download.finish() {
                    Ok(data) => {
                        self.connection.phase = Phase::Ready;
                        Reaction::Done { piece, data }
                    },
                    Err(e) => self.fail(e),
                }
            },
        }
    }
}

/// A failed session stays failed.
pub proof fn lemma_failed_is_final(pre: Connected, m: Message, post: Connected, reaction: Reaction)
    requires
        steps(pre, m, post, reaction),
        pre.phase is Failed,
    ensures
        post.phase is Failed,
        reaction is Failed,
{
}

/// A block is asked for only in the course of a download, which starts
/// from the ready state alone: never before the peer has unchoked us.
pub proof fn lemma_request_only_while_downloading(
    pre: Connected,
    m: Message,
    post: Connected,
    reaction: Reaction,
)
    requires
        steps(pre, m, post, reaction),
        reaction matches Reaction::Send(sent) && sent is Request,
    ensures
        pre.phase is Downloading,
        post.phase is Downloading,
{
}

/// A piece that is handed over has the length and the hash of its
/// descriptor.
pub proof fn lemma_done_is_verified(pre: Connected, m: Message, post: Connected, reaction: Reaction)
    requires
        pre.wf(),
        steps(pre, m, post, reaction),
        reaction is Done,
    ensures
        reaction matches Reaction::Done { piece, data } && pre.download == Some(pre.download.unwrap())
            && piece == pre.download.unwrap().piece && data@.len() == piece.length
            && sha1_digest(data@) == piece.hash@,
{
}

} // verus!
