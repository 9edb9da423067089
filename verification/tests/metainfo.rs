use sha1::{Digest, Sha1};
use torrent_client::bencode::{BencodeValue, Error};
use torrent_client::downloader::piece_descriptors;
use torrent_client::peer::piece::PieceDescriptor;
use torrent_client::torrent::{Torrent, TorrentError, TorrentInfo};
use torrent_client::util::{calculate_piece_length, ArrayChunksWithLength};

const H0: [u8; 20] = [0xa0; 20];
const H1: [u8; 20] = [0xb1; 20];

fn info_bytes() -> Vec<u8> {
    let mut info = b"d6:lengthi20e4:name1:x12:piece lengthi16e6:pieces40:".to_vec();
    info.extend_from_slice(&H0);
    info.extend_from_slice(&H1);
    info.push(b'e');
    info
}

fn metainfo(info: &[u8]) -> Vec<u8> {
    let mut contents = b"d8:announce31:http://tracker.example/announce4:info".to_vec();
    contents.extend_from_slice(info);
    contents.push(b'e');
    contents
}

fn digest(data: &[u8]) -> [u8; 20] {
    Sha1::digest(data).into()
}

#[test]
fn pieces_are_partitioned() {
    let info = TorrentInfo { name: b"x".to_vec(), length: 20, piece_length: 16, pieces: vec![H0, H1] };
    assert_eq!(
        piece_descriptors(&info.pieces, info.piece_length, info.length),
        vec![PieceDescriptor::new(0, 16, H0), PieceDescriptor::new(1, 4, H1)]
    );
}

#[test]
fn piece_lengths_follow_the_law() {
    assert_eq!(calculate_piece_length(16, 20, 0), 16);
    assert_eq!(calculate_piece_length(16, 20, 1), 4);
    assert_eq!(calculate_piece_length(16, 32, 1), 16);
    assert_eq!(calculate_piece_length(16, 33, 2), 1);
    assert_eq!(calculate_piece_length(16, 16, 1), 0);
    assert_eq!(calculate_piece_length(262144, 10_000_000_000, 0), 262144);
    assert_eq!(calculate_piece_length(262144, 10_000_000_000, 38145), 262144);
    assert_eq!(calculate_piece_length(262144, 10_000_000_000, 38146), 254976);
    assert_eq!(calculate_piece_length(u32::MAX, u64::MAX, u32::MAX), u32::MAX);

    let length: u64 = 1_000_003;
    let piece: u32 = 4096;
    let count = ((length - 1) / piece as u64 + 1) as u32;
    let total: u64 = (0..count).map(|i| calculate_piece_length(piece, length, i) as u64).sum();
    assert_eq!(total, length);
    assert_eq!(calculate_piece_length(piece, length, count - 1) as u64, (length - 1) % 4096 + 1);
}

#[test]
fn metainfo_is_read() {
    let torrent = Torrent::from_bytes(&metainfo(&info_bytes())).unwrap();
    assert_eq!(torrent.announce, "http://tracker.example/announce");
    assert_eq!(
        torrent.info,
        TorrentInfo { name: b"x".to_vec(), length: 20, piece_length: 16, pieces: vec![H0, H1] }
    );
    assert_eq!(torrent.info_hash, digest(&info_bytes()));
}

#[test]
fn the_info_hash_covers_the_whole_info_dictionary() {
    let mut info = b"d6:lengthi20e4:name1:x12:piece lengthi16e6:pieces20:".to_vec();
    info.extend_from_slice(&H0);
    info.extend_from_slice(b"7:privatei1ee");
    let torrent = Torrent::from_bytes(&metainfo(&info)).unwrap();
    assert_eq!(torrent.info.pieces, vec![H0]);
    assert_eq!(torrent.info_hash, digest(&info));
    assert_ne!(torrent.info_hash, digest(&info_bytes()));
}

#[test]
fn the_info_hash_is_that_of_the_canonical_order() {
    let mut shuffled = b"d4:name1:x6:pieces20:".to_vec();
    shuffled.extend_from_slice(&H0);
    shuffled.extend_from_slice(b"12:piece lengthi16e6:lengthi20ee");
    let mut canonical = b"d6:lengthi20e4:name1:x12:piece lengthi16e6:pieces20:".to_vec();
    canonical.extend_from_slice(&H0);
    canonical.push(b'e');
    let torrent = Torrent::from_bytes(&metainfo(&shuffled)).unwrap();
    assert_eq!(torrent.info_hash, digest(&canonical));
}

#[test]
fn bad_metainfo_is_refused() {
    let read = |contents: &[u8]| Torrent::from_bytes(contents).unwrap_err();
    assert_eq!(read(b"nonsense"), TorrentError::Parse(Error::Syntax));
    assert_eq!(read(b"dee"), TorrentError::Parse(Error::TrailingData));
    assert_eq!(read(b"le"), TorrentError::InvalidMetainfo(Error::InvalidType));
    assert_eq!(read(b"de"), TorrentError::InvalidMetainfo(Error::MissingField));
    assert_eq!(read(b"d8:announcei1ee"), TorrentError::InvalidMetainfo(Error::InvalidType));
    assert_eq!(read(b"d8:announce2:\xc3\x28e"), TorrentError::InvalidMetainfo(Error::InvalidValue));
    assert_eq!(read(b"d8:announce1:ue"), TorrentError::InvalidMetainfo(Error::MissingField));
    assert_eq!(read(b"d8:announce1:u4:infoi1ee"), TorrentError::InvalidMetainfo(Error::InvalidType));
    assert_eq!(
        read(b"d8:announce1:u4:infod4:name1:xee"),
        TorrentError::InvalidMetainfo(Error::MissingField)
    );
    assert_eq!(
        read(b"d8:announce1:u4:infod6:lengthi-1eee"),
        TorrentError::InvalidMetainfo(Error::InvalidValue)
    );
    assert_eq!(
        read(b"d8:announce1:u4:infod6:lengthi1e4:namei1eee"),
        TorrentError::InvalidMetainfo(Error::InvalidType)
    );
    assert_eq!(
        read(b"d8:announce1:u4:infod6:lengthi1e4:name1:x12:piece lengthi4294967296eee"),
        TorrentError::InvalidMetainfo(Error::InvalidValue)
    );
    assert_eq!(
        read(b"d8:announce1:u4:infod6:lengthi1e4:name1:x12:piece lengthi1e6:pieces3:abcee"),
        TorrentError::InvalidMetainfo(Error::InvalidValue)
    );
}

#[test]
fn an_info_record_is_written_back() {
    let info = TorrentInfo { name: b"x".to_vec(), length: 20, piece_length: 16, pieces: vec![H0, H1] };
    let value = info.to_value().unwrap();
    assert_eq!(value.to_byte_string(), info_bytes());
    assert_eq!(TorrentInfo::from_value(&value), Ok(info));
    let huge = TorrentInfo { name: vec![], length: u64::MAX, piece_length: 1, pieces: vec![] };
    assert_eq!(huge.to_value(), Err(Error::InvalidValue));
    assert_eq!(TorrentInfo::from_value(&BencodeValue::Integer(1)), Err(Error::InvalidType));
}

#[test]
fn chunks_split_and_join() {
    assert_eq!(
        ArrayChunksWithLength::<2>::deserialize_as(&[1, 2, 3, 4]),
        Some(vec![[1, 2], [3, 4]])
    );
    assert_eq!(ArrayChunksWithLength::<2>::deserialize_as(&[1, 2, 3]), None);
    assert_eq!(ArrayChunksWithLength::<3>::deserialize_as(&[]), Some(vec![]));
    assert_eq!(ArrayChunksWithLength::<20>::deserialize_as(&[7; 40]), Some(vec![[7; 20]; 2]));
    assert_eq!(ArrayChunksWithLength::<2>::serialize_as(&vec![[1, 2], [3, 4]]), vec![1, 2, 3, 4]);
    assert_eq!(ArrayChunksWithLength::<2>::serialize_as(&vec![]), Vec::<u8>::new());
}

#[test]
fn the_overview_is_rendered() {
    let torrent = Torrent::from_bytes(&metainfo(&info_bytes())).unwrap();
    let overview = torrent.overview();
    assert_eq!(overview.tracker_url, "http://tracker.example/announce");
    assert_eq!(overview.length, 20);
    assert_eq!(overview.piece_length, 16);
    assert_eq!(overview.pieces.len(), 2);
    let hash: String = torrent.info_hash.iter().map(|byte| format!("{:02x}", byte)).collect();
    assert_eq!(
        overview.render(),
        format!(
            "Tracker URL: http://tracker.example/announce\nlength: 20\nInfo Hash: {}\nPiece Length: 16\nPiece Hashes:\n{}\n{}\n",
            hash,
            "a0".repeat(20),
            "b1".repeat(20)
        )
    );
}
