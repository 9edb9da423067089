use std::collections::VecDeque;
use torrent_client::bencode::Error;
use torrent_client::downloader::{
    after_poll, generate_piece_queue, queue_of, PieceDownloadPending, PieceDownloadResult,
    PieceWrite, TorrentDownloader, MAX_CONCURRENT_DOWNLOADS, PIECE_DOWNLOAD_TIMEOUT,
};
use torrent_client::peer::piece::PieceDescriptor;
use torrent_client::torrent::{Torrent, TorrentError, TorrentInfo};
use torrent_client::tracker::{Peers, TrackerError, TrackerResponse};
use torrent_client::util::PeerAddress;

fn hash(i: usize) -> [u8; 20] {
    [i as u8; 20]
}

fn torrent(pieces: usize, piece_length: u32, length: u64) -> Torrent {
    Torrent {
        announce: "http://tracker.example/announce".to_string(),
        info: TorrentInfo {
            length,
            name: b"file".to_vec(),
            piece_length,
            pieces: (0..pieces).map(hash).collect(),
        },
        info_hash: [9; 20],
    }
}

fn peer(n: u32) -> PeerAddress {
    PeerAddress { ip: 0x0a000000 + n, port: 6881 }
}

fn peers(n: u32) -> Vec<PeerAddress> {
    (0..n).map(peer).collect()
}

/// A downloader whose queue is in index order.
fn ordered(pieces: usize, piece_length: u32, length: u64) -> TorrentDownloader {
    let mut downloader = TorrentDownloader::new(torrent(pieces, piece_length, length)).unwrap();
    downloader.piece_queue = queue_of(downloader.pieces.clone());
    downloader
}

fn indices(queue: &VecDeque<PieceDescriptor>) -> Vec<u32> {
    queue.iter().map(|piece| piece.index).collect()
}

#[test]
fn a_download_starts_with_every_piece_queued_once() {
    let downloader = TorrentDownloader::new(torrent(5, 16, 70)).unwrap();
    assert_eq!(downloader.piece_length, 16);
    assert_eq!(downloader.pieces.len(), 5);
    for (i, piece) in downloader.pieces.iter().enumerate() {
        let length = if i == 4 { 6 } else { 16 };
        assert_eq!(*piece, PieceDescriptor::new(i as u32, length, hash(i)));
    }
    let mut queued = indices(&downloader.piece_queue);
    queued.sort();
    assert_eq!(queued, vec![0, 1, 2, 3, 4]);
    assert_eq!(downloader.completed, vec![false; 5]);
    assert!(downloader.active_peers.is_empty());
    assert_eq!(downloader.tracker.url, "http://tracker.example/announce");
    assert_eq!(downloader.tracker.info_hash, [9; 20]);
    assert_eq!(downloader.tracker.left, 70);
    assert_eq!(downloader.client_peer_id, downloader.tracker.peer_id);
    assert!(!downloader.is_complete());
}

#[test]
fn the_queue_is_a_permutation_of_the_pieces() {
    let hashes: Vec<[u8; 20]> = (0..50).map(hash).collect();
    let queue = generate_piece_queue(hashes, 10, 495);
    assert_eq!(queue.len(), 50);
    let mut seen = vec![false; 50];
    for piece in &queue {
        let i = piece.index as usize;
        assert!(!seen[i]);
        seen[i] = true;
        assert_eq!(piece.hash, hash(i));
        assert_eq!(piece.length, if i == 49 { 5 } else { 10 });
    }
}

#[test]
fn inconsistent_metainfo_starts_no_download() {
    let refused = TorrentError::InvalidMetainfo(Error::InvalidValue);
    assert_eq!(TorrentDownloader::new(torrent(5, 16, 81)).unwrap_err(), refused);
    assert_eq!(TorrentDownloader::new(torrent(5, 16, 64)).unwrap_err(), refused);
    assert_eq!(TorrentDownloader::new(torrent(1, 0, 1)).unwrap_err(), refused);
    assert_eq!(TorrentDownloader::new(torrent(1, 16, 0)).unwrap_err(), refused);
    assert!(TorrentDownloader::new(torrent(5, 16, 80)).is_ok());
    assert!(TorrentDownloader::new(torrent(5, 16, 65)).is_ok());
    let empty = TorrentDownloader::new(torrent(0, 16, 0)).unwrap();
    assert!(empty.is_complete());
}

#[test]
fn pieces_are_dispatched_from_the_front_up_to_the_cap() {
    let mut downloader = ordered(30, 16, 480);
    let spawned = downloader.dispatch(&peers(25), 1000);
    assert_eq!(MAX_CONCURRENT_DOWNLOADS, 20);
    assert_eq!(spawned.len(), 20);
    for (i, session) in spawned.iter().enumerate() {
        assert_eq!(
            *session,
            PieceDownloadPending {
                peer: peer(i as u32),
                started_at: 1000,
                piece_des: downloader.pieces[i],
            }
        );
    }
    assert_eq!(downloader.active_peers, spawned);
    assert_eq!(indices(&downloader.piece_queue), (20..30).collect::<Vec<u32>>());
    assert_eq!(downloader.dispatch(&peers(25), 1001), vec![]);
    assert_eq!(downloader.fetch_new_peers(&peers(23)), vec![peer(20), peer(21), peer(22)]);
}

#[test]
fn a_peer_gets_one_piece_at_a_time() {
    let mut downloader = ordered(4, 16, 64);
    let twice = vec![peer(1), peer(1), peer(2)];
    let spawned = downloader.dispatch(&twice, 0);
    assert_eq!(spawned.len(), 2);
    assert_eq!(spawned[0].peer, peer(1));
    assert_eq!(spawned[1].peer, peer(2));
    assert_eq!(downloader.dispatch(&twice, 0), vec![]);
    assert_eq!(indices(&downloader.piece_queue), vec![2, 3]);
    assert_eq!(downloader.fetch_new_peers(&twice), vec![]);
    assert_eq!(downloader.position_of(peer(2)), Some(1));
    assert_eq!(downloader.position_of(peer(3)), None);
}

#[test]
fn a_success_is_written_at_its_offset_and_only_once() {
    let mut downloader = ordered(3, 16, 40);
    downloader.dispatch(&peers(3), 0);
    let done = PieceDownloadResult::Success { peer: peer(2), piece_index: 2 };
    assert_eq!(
        downloader.finish_task(done),
        Some(PieceWrite { index: 2, offset: 32, length: 8 })
    );
    assert_eq!(downloader.completed, vec![false, false, true]);
    assert_eq!(downloader.active_peers.len(), 2);
    assert_eq!(downloader.finish_task(done), None);
    assert_eq!(downloader.complete(peer(7), 2), None);
    assert_eq!(downloader.complete(peer(7), 3), None);
    assert_eq!(downloader.mark_written(2), None);
    assert_eq!(downloader.completed, vec![false, false, true]);
    assert_eq!(
        downloader.complete(peer(0), 0),
        Some(PieceWrite { index: 0, offset: 0, length: 16 })
    );
    assert_eq!(
        downloader.complete(peer(1), 1),
        Some(PieceWrite { index: 1, offset: 16, length: 16 })
    );
    assert!(downloader.is_complete());
}

#[test]
fn offsets_do_not_overflow() {
    let mut downloader = ordered(0, 16, 0);
    downloader.piece_length = u32::MAX;
    downloader.pieces = vec![PieceDescriptor::new(0, 1, hash(0)); 1];
    downloader.completed = vec![false];
    downloader.piece_queue = queue_of(downloader.pieces.clone());
    assert_eq!(downloader.mark_written(0), Some(PieceWrite { index: 0, offset: 0, length: 1 }));
}

#[test]
fn a_failed_piece_goes_to_the_tail_of_the_queue() {
    let mut downloader = ordered(4, 16, 64);
    downloader.dispatch(&peers(2), 0);
    assert_eq!(indices(&downloader.piece_queue), vec![2, 3]);
    let failed =
        PieceDownloadResult::Error { peer_socket_addr: peer(0), piece_des: downloader.pieces[0] };
    assert_eq!(downloader.finish_task(failed), None);
    assert_eq!(indices(&downloader.piece_queue), vec![2, 3, 0]);
    assert_eq!(downloader.active_peers.len(), 1);
    assert_eq!(downloader.finish_task(failed), None);
    assert_eq!(indices(&downloader.piece_queue), vec![2, 3, 0]);
    downloader.fail(peer(9));
    assert_eq!(indices(&downloader.piece_queue), vec![2, 3, 0]);
    let spawned = downloader.dispatch(&peers(1), 5);
    assert_eq!(spawned.len(), 1);
    assert_eq!(spawned[0].piece_des.index, 2);
}

#[test]
fn stuck_sessions_are_cancelled_and_their_pieces_requeued() {
    assert_eq!(PIECE_DOWNLOAD_TIMEOUT, 5000);
    let mut downloader = ordered(4, 16, 64);
    downloader.dispatch(&peers(1), 1000);
    downloader.dispatch(&peers(2), 3000);
    assert_eq!(downloader.check_piece_download_timeout(5999), vec![]);
    assert_eq!(downloader.check_piece_download_timeout(500), vec![]);
    assert_eq!(downloader.active_peers.len(), 2);
    assert_eq!(downloader.check_piece_download_timeout(6000), vec![peer(0)]);
    assert_eq!(downloader.active_peers.len(), 1);
    assert_eq!(downloader.active_peers[0].peer, peer(1));
    assert_eq!(indices(&downloader.piece_queue), vec![2, 3, 0]);
    assert_eq!(downloader.check_piece_download_timeout(6000), vec![]);
    assert_eq!(downloader.check_piece_download_timeout(u64::MAX), vec![peer(1)]);
    assert_eq!(indices(&downloader.piece_queue), vec![2, 3, 0, 1]);
    assert!(downloader.active_peers.is_empty());
}

#[test]
fn a_success_after_a_cancellation_still_counts() {
    let mut downloader = ordered(2, 16, 32);
    downloader.dispatch(&peers(1), 0);
    assert_eq!(downloader.check_piece_download_timeout(5000), vec![peer(0)]);
    assert_eq!(indices(&downloader.piece_queue), vec![1, 0]);
    assert_eq!(
        downloader.complete(peer(0), 0),
        Some(PieceWrite { index: 0, offset: 0, length: 16 })
    );
    assert_eq!(indices(&downloader.piece_queue), vec![1]);
    downloader.dispatch(&peers(1), 6000);
    assert_eq!(
        downloader.complete(peer(0), 1),
        Some(PieceWrite { index: 1, offset: 16, length: 16 })
    );
    assert!(downloader.is_complete());
}

#[test]
fn reliable_peers_finish_the_download() {
    for (pieces, cohort) in [(1usize, 1u32), (7, 1), (7, 3), (45, 20), (45, 33), (100, 2)] {
        let mut downloader =
            TorrentDownloader::new(torrent(pieces, 16, 16 * pieces as u64 - 5)).unwrap();
        let writes = downloader.run_with_reliable_peers(&peers(cohort), 0);
        assert!(downloader.is_complete());
        assert_eq!(downloader.completed, vec![true; pieces]);
        assert_eq!(writes.len(), pieces);
        let mut seen = vec![false; pieces];
        let mut total = 0u64;
        for write in writes {
            assert!(!seen[write.index as usize]);
            seen[write.index as usize] = true;
            assert_eq!(write.offset, write.index as u64 * 16);
            total += write.length as u64;
        }
        assert_eq!(total, 16 * pieces as u64 - 5);
    }
}

#[test]
fn a_flaky_peer_delays_but_loses_nothing() {
    let pieces = 12;
    let mut downloader = ordered(pieces, 16, 16 * pieces as u64);
    let mut written = vec![0u32; pieces];
    let mut round = 0u64;
    while !downloader.is_complete() {
        round += 1;
        assert!(round < 100);
        let spawned = downloader.dispatch(&peers(3), round);
        assert!(downloader.active_peers.len() <= MAX_CONCURRENT_DOWNLOADS);
        for (i, session) in spawned.iter().enumerate() {
            let result = if (round as usize + i) % 2 == 0 {
                PieceDownloadResult::Error {
                    peer_socket_addr: session.peer,
                    piece_des: session.piece_des,
                }
            } else {
                PieceDownloadResult::Success {
                    peer: session.peer,
                    piece_index: session.piece_des.index,
                }
            };
            if let Some(write) = downloader.finish_task(result) {
                written[write.index as usize] += 1;
            }
        }
    }
    assert_eq!(written, vec![1; pieces]);
}

#[test]
fn the_poller_sleeps_the_interval_it_knows() {
    let answer: Result<TrackerResponse, TrackerError> =
        Ok(TrackerResponse { interval: 1800, peers: Peers(vec![]) });
    let error: Result<TrackerResponse, TrackerError> = Err(TrackerError::PeerList);
    assert_eq!(after_poll(None, &answer), (Some(1800), 1800));
    assert_eq!(after_poll(Some(60), &answer), (Some(1800), 1800));
    assert_eq!(after_poll(None, &error), (None, 0));
    assert_eq!(after_poll(Some(60), &error), (Some(60), 60));
}
