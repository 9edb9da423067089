use bytes::Bytes;
use torrent_client::peer::message::{frame_length, PeerHandShakePacket, PeerMessage, PROTOCOL};
use torrent_client::peer::piece::{
    check_block_validity, generate_piece_block_requests, read_piece_block, PieceBlockRequest,
    PieceBlockResponse, PieceDescriptor, PieceDownload, PIECE_BLOCK_SIZE,
};
use torrent_client::peer::PeerError;
use torrent_client::util::hash_sha1;

fn raw(data: &[u8]) -> Bytes {
    Bytes::from(data.to_vec())
}

#[test]
fn handshake_bytes_have_the_fixed_layout() {
    let packet = PeerHandShakePacket::new([0x00; 20], [0xff; 20]);
    let sent = packet.into_bytes();
    let mut expected = vec![0x13];
    expected.extend_from_slice(b"BitTorrent protocol");
    expected.extend_from_slice(&[0x00; 8]);
    expected.extend_from_slice(&[0x00; 20]);
    expected.extend_from_slice(&[0xff; 20]);
    assert_eq!(expected.len(), 68);
    assert_eq!(sent.to_vec(), expected);
    assert_eq!(&PROTOCOL[..], &b"BitTorrent protocol"[..]);
}

#[test]
fn handshake_is_read_back() {
    let info_hash: [u8; 20] = [7; 20];
    let mut peer_id: [u8; 20] = [0; 20];
    for (i, byte) in peer_id.iter_mut().enumerate() {
        *byte = i as u8;
    }
    let packet = PeerHandShakePacket::new(info_hash, peer_id);
    assert_eq!(PeerHandShakePacket::parse(packet.into_bytes()), Ok(packet));

    let mut reserved = packet.into_bytes().to_vec();
    reserved[25] = 0x10;
    reserved.push(0xaa);
    assert_eq!(PeerHandShakePacket::parse(Bytes::from(reserved)), Ok(packet));
}

#[test]
fn broken_handshakes_are_refused() {
    let good = PeerHandShakePacket::new([1; 20], [2; 20]).into_bytes().to_vec();
    assert_eq!(PeerHandShakePacket::parse(raw(&[])), Err(PeerError::Malformed));
    assert_eq!(PeerHandShakePacket::parse(raw(&good[..67])), Err(PeerError::Malformed));
    assert_eq!(PeerHandShakePacket::parse(raw(&good[..10])), Err(PeerError::Malformed));
    let mut wrong_length = good.clone();
    wrong_length[0] = 18;
    assert_eq!(PeerHandShakePacket::parse(Bytes::from(wrong_length)), Err(PeerError::Malformed));
    let mut wrong_name = good.clone();
    wrong_name[5] = b'x';
    assert_eq!(PeerHandShakePacket::parse(Bytes::from(wrong_name)), Err(PeerError::Malformed));
    let mut long_header = good;
    long_header[0] = 200;
    assert_eq!(PeerHandShakePacket::parse(Bytes::from(long_header)), Err(PeerError::Malformed));
}

#[test]
fn request_serializes_with_its_length_prefix() {
    let message = PeerMessage::Request { index: 1, begin: 0, length: 16384 };
    assert_eq!(
        message.into_bytes().to_vec(),
        vec![
            0x00, 0x00, 0x00, 0x0d, 0x06, 0x00, 0x00, 0x00, 0x01, 0x00, 0x00, 0x00, 0x00, 0x00,
            0x00, 0x40, 0x00
        ]
    );
}

#[test]
fn every_message_has_its_frame() {
    let cases: Vec<(PeerMessage, Vec<u8>)> = vec![
        (PeerMessage::KeepAlive, vec![0, 0, 0, 0]),
        (PeerMessage::Choke, vec![0, 0, 0, 1, 0]),
        (PeerMessage::Unchoke, vec![0, 0, 0, 1, 1]),
        (PeerMessage::Interested, vec![0, 0, 0, 1, 2]),
        (PeerMessage::NotInterested, vec![0, 0, 0, 1, 3]),
        (PeerMessage::Have { index: 0x01020304 }, vec![0, 0, 0, 5, 4, 1, 2, 3, 4]),
        (PeerMessage::Bitfield { payload: raw(&[0xf0, 0x0f]) }, vec![0, 0, 0, 3, 5, 0xf0, 0x0f]),
        (
            PeerMessage::Piece { index: 2, begin: 0x4000, block: raw(&[9, 8, 7]) },
            vec![0, 0, 0, 12, 7, 0, 0, 0, 2, 0, 0, 0x40, 0, 9, 8, 7],
        ),
        (
            PeerMessage::Cancel { index: 0xffffffff, begin: 1, length: 2 },
            vec![0, 0, 0, 13, 8, 0xff, 0xff, 0xff, 0xff, 0, 0, 0, 1, 0, 0, 0, 2],
        ),
    ];
    for (message, frame) in cases {
        assert_eq!(message.clone().into_bytes().to_vec(), frame);
        let prefix = [frame[0], frame[1], frame[2], frame[3]];
        assert_eq!(frame_length(&prefix) as usize, frame.len() - 4);
        assert_eq!(PeerMessage::parse(raw(&frame[4..])), Ok(message));
    }
}

#[test]
fn frame_length_is_big_endian() {
    assert_eq!(frame_length(&[0, 0, 0, 0]), 0);
    assert_eq!(frame_length(&[0, 0, 0x40, 0x09]), 16393);
    assert_eq!(frame_length(&[0x12, 0x34, 0x56, 0x78]), 0x12345678);
    assert_eq!(frame_length(&[0xff, 0xff, 0xff, 0xff]), u32::MAX);
}

#[test]
fn broken_messages_are_refused() {
    assert_eq!(PeerMessage::parse(raw(&[1, 0])), Err(PeerError::Malformed));
    assert_eq!(PeerMessage::parse(raw(&[0, 0])), Err(PeerError::Malformed));
    assert_eq!(PeerMessage::parse(raw(&[2, 9, 9])), Err(PeerError::Malformed));
    assert_eq!(PeerMessage::parse(raw(&[4, 0, 0, 1])), Err(PeerError::Malformed));
    assert_eq!(PeerMessage::parse(raw(&[4, 0, 0, 0, 1, 0])), Err(PeerError::Malformed));
    assert_eq!(PeerMessage::parse(raw(&[6, 0, 0, 0, 1])), Err(PeerError::Malformed));
    assert_eq!(
        PeerMessage::parse(raw(&[6, 0, 0, 0, 1, 0, 0, 0, 0, 0, 0, 0x40, 0, 0])),
        Err(PeerError::Malformed)
    );
    assert_eq!(PeerMessage::parse(raw(&[7, 0, 0, 0, 1, 0, 0])), Err(PeerError::Malformed));
    assert_eq!(PeerMessage::parse(raw(&[8])), Err(PeerError::Malformed));
    assert_eq!(PeerMessage::parse(raw(&[9])), Err(PeerError::UnknownMessage(9)));
    assert_eq!(PeerMessage::parse(raw(&[20, 1, 2])), Err(PeerError::UnknownMessage(20)));
    assert_eq!(PeerMessage::parse(raw(&[255])), Err(PeerError::UnknownMessage(255)));
}

#[test]
fn empty_payloads_are_legal() {
    assert_eq!(PeerMessage::parse(raw(&[])), Ok(PeerMessage::KeepAlive));
    assert_eq!(PeerMessage::parse(raw(&[5])), Ok(PeerMessage::Bitfield { payload: raw(&[]) }));
    assert_eq!(
        PeerMessage::parse(raw(&[7, 0, 0, 0, 0, 0, 0, 0, 0])),
        Ok(PeerMessage::Piece { index: 0, begin: 0, block: raw(&[]) })
    );
}

fn request(index: u32, begin: u32, length: u32) -> PieceBlockRequest {
    PieceBlockRequest { index, begin, length }
}

#[test]
fn blocks_tile_the_piece() {
    assert_eq!(PIECE_BLOCK_SIZE, 16384);
    assert_eq!(generate_piece_block_requests(3, 0), vec![]);
    assert_eq!(generate_piece_block_requests(3, 1), vec![request(3, 0, 1)]);
    assert_eq!(generate_piece_block_requests(3, 16384), vec![request(3, 0, 16384)]);
    assert_eq!(
        generate_piece_block_requests(3, 16385),
        vec![request(3, 0, 16384), request(3, 16384, 1)]
    );
    assert_eq!(
        generate_piece_block_requests(0, 40000),
        vec![request(0, 0, 16384), request(0, 16384, 16384), request(0, 32768, 7232)]
    );
    let blocks = generate_piece_block_requests(9, 262144);
    assert_eq!(blocks.len(), 16);
    let mut offset = 0;
    for block in &blocks {
        assert_eq!(block.index, 9);
        assert_eq!(block.begin, offset);
        assert_eq!(block.length, 16384);
        offset += block.length;
    }
    assert_eq!(offset, 262144);
    let largest = generate_piece_block_requests(0, u32::MAX);
    assert_eq!(largest.len(), 262144);
    assert_eq!(largest[262143], request(0, 4294950912, 16383));
}

#[test]
fn a_request_is_the_message_that_asks_for_it() {
    assert_eq!(
        request(1, 16384, 100).to_message(),
        PeerMessage::Request { index: 1, begin: 16384, length: 100 }
    );
}

#[test]
fn blocks_are_checked_against_their_request() {
    let asked = request(1, 16384, 3);
    let answer = |index, begin, block: &[u8]| PieceBlockResponse { index, begin, block: raw(block) };
    assert_eq!(check_block_validity(&asked, &answer(1, 16384, &[1, 2, 3])), Ok(()));
    assert_eq!(
        check_block_validity(&asked, &answer(2, 16384, &[1, 2, 3])),
        Err(PeerError::BlockMismatch)
    );
    assert_eq!(
        check_block_validity(&asked, &answer(1, 0, &[1, 2, 3])),
        Err(PeerError::BlockMismatch)
    );
    assert_eq!(
        check_block_validity(&asked, &answer(1, 16384, &[1, 2])),
        Err(PeerError::BlockMismatch)
    );
    assert_eq!(
        check_block_validity(&asked, &answer(1, 16384, &[1, 2, 3, 4])),
        Err(PeerError::BlockMismatch)
    );
}

#[test]
fn only_a_piece_message_carries_a_block() {
    assert_eq!(
        read_piece_block(PeerMessage::Piece { index: 1, begin: 2, block: raw(&[3]) }),
        Ok(PieceBlockResponse { index: 1, begin: 2, block: raw(&[3]) })
    );
    assert_eq!(read_piece_block(PeerMessage::Unchoke), Err(PeerError::UnexpectedMessage));
    assert_eq!(read_piece_block(PeerMessage::KeepAlive), Err(PeerError::UnexpectedMessage));
}

#[test]
fn sha1_is_the_real_one() {
    assert_eq!(
        hash_sha1(b"hello world"),
        [
            0x2a, 0xae, 0x6c, 0x35, 0xc9, 0x4f, 0xcf, 0xb4, 0x15, 0xdb, 0xe9, 0x5f, 0x40, 0x8b,
            0x9c, 0xe9, 0x1e, 0xe8, 0x46, 0xed
        ]
    );
    assert_eq!(
        hash_sha1(b""),
        [
            0xda, 0x39, 0xa3, 0xee, 0x5e, 0x6b, 0x4b, 0x0d, 0x32, 0x55, 0xbf, 0xef, 0x95, 0x60,
            0x18, 0x90, 0xaf, 0xd8, 0x07, 0x09
        ]
    );
}

#[test]
fn a_piece_is_assembled_and_verified() {
    let content: Vec<u8> = (0..40000u32).map(|i| (i % 251) as u8).collect();
    let piece = PieceDescriptor::new(4, 40000, hash_sha1(&content));
    let mut download = PieceDownload::new(piece);
    assert!(!download.is_complete());
    assert_eq!(download.next_request(), Some(request(4, 0, 16384)));

    let wrong_offset = PieceBlockResponse { index: 4, begin: 16384, block: raw(&content[..16384]) };
    assert_eq!(download.accept(&wrong_offset), Err(PeerError::BlockMismatch));
    assert_eq!(download.received, 0);
    assert_eq!(download.buffer, vec![0; 40000]);

    for wanted in generate_piece_block_requests(4, 40000) {
        assert_eq!(download.next_request(), Some(wanted));
        let from = wanted.begin as usize;
        let to = from + wanted.length as usize;
        let block = PieceBlockResponse { index: 4, begin: wanted.begin, block: raw(&content[from..to]) };
        assert_eq!(download.accept(&block), Ok(()));
        assert_eq!(download.received as usize, to);
        assert_eq!(&download.buffer[..to], &content[..to]);
    }
    assert!(download.is_complete());
    assert_eq!(download.next_request(), None);
    assert_eq!(download.finish(), Ok(content));
}

#[test]
fn a_piece_with_the_wrong_hash_is_refused() {
    let piece = PieceDescriptor::new(0, 3, [0; 20]);
    let mut download = PieceDownload::new(piece);
    let block = PieceBlockResponse { index: 0, begin: 0, block: raw(&[1, 2, 3]) };
    assert_eq!(download.accept(&block), Ok(()));
    assert_eq!(download.finish(), Err(PeerError::HashMismatch));
}

#[test]
fn a_message_that_fits_is_framed() {
    let message = PeerMessage::Piece { index: 1, begin: 2, block: raw(&[3, 4]) };
    assert_eq!(
        message.try_into_bytes().map(|frame| frame.to_vec()),
        Some(vec![0, 0, 0, 11, 7, 0, 0, 0, 1, 0, 0, 0, 2, 3, 4])
    );
    assert_eq!(
        PeerMessage::KeepAlive.try_into_bytes().map(|frame| frame.to_vec()),
        Some(vec![0, 0, 0, 0])
    );
    assert_eq!(
        PeerMessage::Bitfield { payload: raw(&[]) }.try_into_bytes().map(|frame| frame.to_vec()),
        Some(vec![0, 0, 0, 1, 5])
    );
}
