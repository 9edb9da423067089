use bytes::Bytes;
use torrent_client::peer::message::{PeerHandShakePacket, PeerMessage};
use torrent_client::peer::piece::PieceDescriptor;
use torrent_client::peer::session::{Connected, Disconnected, Peer, Phase, Reaction};
use torrent_client::peer::PeerError;
use torrent_client::util::{hash_sha1, PeerAddress};

const ADDRESS: PeerAddress = PeerAddress { ip: 0x01020304, port: 6881 };

fn connected() -> Peer<Connected> {
    let answer = PeerHandShakePacket::new([5; 20], [6; 20]).into_bytes();
    Peer::<Disconnected>::from_socket(ADDRESS).handshake([5; 20], answer).unwrap()
}

fn ready() -> Peer<Connected> {
    let mut peer = connected();
    let bitfield = PeerMessage::Bitfield { payload: Bytes::from(vec![0xff]) };
    assert_eq!(peer.receive(bitfield), Reaction::Send(PeerMessage::Interested));
    assert_eq!(peer.receive(PeerMessage::Unchoke), Reaction::Continue);
    assert!(peer.is_ready());
    peer
}

fn block(index: u32, begin: u32, data: &[u8]) -> PeerMessage {
    PeerMessage::Piece { index, begin, block: Bytes::from(data.to_vec()) }
}

#[test]
fn handshake_checks_the_info_hash() {
    let peer = connected();
    assert_eq!(peer.socket_addr, ADDRESS);
    assert_eq!(peer.peer_id(), &[6; 20]);
    assert_eq!(peer.connection.phase, Phase::AwaitingBitfield);
    assert!(peer.connection.download.is_none());
    assert!(!peer.is_ready());

    let other = PeerHandShakePacket::new([9; 20], [6; 20]).into_bytes();
    let refused = Peer::<Disconnected>::from_socket(ADDRESS).handshake([5; 20], other);
    assert!(matches!(refused, Err(PeerError::HandshakeMismatch)));

    let garbage = Bytes::from(vec![0; 68]);
    let refused = Peer::<Disconnected>::from_socket(ADDRESS).handshake([5; 20], garbage);
    assert!(matches!(refused, Err(PeerError::Malformed)));
}

#[test]
fn a_session_becomes_ready_after_bitfield_and_unchoke() {
    let mut peer = connected();
    assert_eq!(peer.receive(PeerMessage::KeepAlive), Reaction::Continue);
    assert_eq!(peer.connection.phase, Phase::AwaitingBitfield);
    let bitfield = PeerMessage::Bitfield { payload: Bytes::new() };
    assert_eq!(peer.receive(bitfield), Reaction::Send(PeerMessage::Interested));
    assert_eq!(peer.connection.phase, Phase::AwaitingUnchoke);
    assert_eq!(peer.receive(PeerMessage::Have { index: 3 }), Reaction::Continue);
    assert_eq!(peer.receive(PeerMessage::Choke), Reaction::Continue);
    assert_eq!(peer.connection.phase, Phase::AwaitingUnchoke);
    assert_eq!(peer.receive(PeerMessage::Unchoke), Reaction::Continue);
    assert_eq!(peer.connection.phase, Phase::Ready);
}

#[test]
fn a_missing_bitfield_is_tolerated() {
    let mut peer = connected();
    assert_eq!(peer.receive(PeerMessage::Unchoke), Reaction::Send(PeerMessage::Interested));
    assert_eq!(peer.connection.phase, Phase::Ready);

    let mut peer = connected();
    assert_eq!(peer.receive(PeerMessage::Have { index: 0 }), Reaction::Send(PeerMessage::Interested));
    assert_eq!(peer.connection.phase, Phase::AwaitingUnchoke);
}

#[test]
fn unexpected_messages_fail_the_session_for_good() {
    let mut peer = connected();
    assert_eq!(peer.receive(block(0, 0, &[1])), Reaction::Failed(PeerError::UnexpectedMessage));
    assert_eq!(peer.connection.phase, Phase::Failed);
    assert_eq!(peer.receive(PeerMessage::Unchoke), Reaction::Failed(PeerError::UnexpectedMessage));
    assert_eq!(peer.connection.phase, Phase::Failed);

    let mut peer = ready();
    let request = PeerMessage::Request { index: 0, begin: 0, length: 1 };
    assert_eq!(peer.receive(request), Reaction::Failed(PeerError::UnexpectedMessage));
    assert_eq!(peer.connection.phase, Phase::Failed);
}

#[test]
fn a_piece_is_downloaded_block_by_block() {
    let content: Vec<u8> = (0..20000u32).map(|i| (i * 7 % 256) as u8).collect();
    let piece = PieceDescriptor::new(2, 20000, hash_sha1(&content));
    let mut peer = ready();
    assert_eq!(
        peer.download_piece(piece),
        PeerMessage::Request { index: 2, begin: 0, length: 16384 }
    );
    assert_eq!(peer.connection.phase, Phase::Downloading);
    assert_eq!(peer.receive(PeerMessage::Have { index: 1 }), Reaction::Continue);
    assert_eq!(
        peer.receive(block(2, 0, &content[..16384])),
        Reaction::Send(PeerMessage::Request { index: 2, begin: 16384, length: 3616 })
    );
    assert_eq!(
        peer.receive(block(2, 16384, &content[16384..])),
        Reaction::Done { piece, data: content }
    );
    assert_eq!(peer.connection.phase, Phase::Ready);
    assert!(peer.connection.download.is_none());

    let small = PieceDescriptor::new(3, 4, hash_sha1(&[1, 2, 3, 4]));
    assert_eq!(peer.download_piece(small), PeerMessage::Request { index: 3, begin: 0, length: 4 });
    assert_eq!(
        peer.receive(block(3, 0, &[1, 2, 3, 4])),
        Reaction::Done { piece: small, data: vec![1, 2, 3, 4] }
    );
}

#[test]
fn a_wrong_block_or_hash_fails_the_session() {
    let piece = PieceDescriptor::new(2, 4, hash_sha1(&[1, 2, 3, 4]));

    let mut peer = ready();
    peer.download_piece(piece);
    assert_eq!(peer.receive(block(1, 0, &[1, 2, 3, 4])), Reaction::Failed(PeerError::BlockMismatch));
    assert_eq!(peer.connection.phase, Phase::Failed);

    let mut peer = ready();
    peer.download_piece(piece);
    assert_eq!(peer.receive(block(2, 1, &[1, 2, 3, 4])), Reaction::Failed(PeerError::BlockMismatch));

    let mut peer = ready();
    peer.download_piece(piece);
    assert_eq!(peer.receive(block(2, 0, &[1, 2, 3])), Reaction::Failed(PeerError::BlockMismatch));

    let mut peer = ready();
    peer.download_piece(piece);
    assert_eq!(peer.receive(block(2, 0, &[4, 3, 2, 1])), Reaction::Failed(PeerError::HashMismatch));
    assert_eq!(peer.connection.phase, Phase::Failed);
    assert!(peer.connection.download.is_none());
}

#[test]
fn a_choke_puts_the_piece_back() {
    let piece = PieceDescriptor::new(2, 20000, [0; 20]);
    let mut peer = ready();
    peer.download_piece(piece);
    assert_eq!(peer.receive(PeerMessage::Choke), Reaction::Aborted(piece));
    assert_eq!(peer.connection.phase, Phase::AwaitingUnchoke);
    assert!(peer.connection.download.is_none());
    assert_eq!(peer.receive(PeerMessage::Unchoke), Reaction::Continue);
    assert!(peer.is_ready());

    assert_eq!(peer.receive(PeerMessage::Choke), Reaction::Continue);
    assert_eq!(peer.connection.phase, Phase::AwaitingUnchoke);
}
