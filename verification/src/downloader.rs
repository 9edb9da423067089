//! The download scheduler: which piece goes to which peer and when, what
//! comes back, and when the download is over. The caller runs the tasks
//! and the clock.

use vstd::prelude::*;
use std::collections::VecDeque;
use crate::bencode::error::Error;
use crate::peer::piece::PieceDescriptor;
use crate::torrent::{Torrent, TorrentError};
use crate::tracker::{Tracker, TrackerResponse};
use crate::util::{
    PeerAddress, PeerId, Sha1Hash, calculate_piece_length, piece_count, piece_length_at,
};

verus! {

/// At most this many peer sessions run at a time.
pub const MAX_CONCURRENT_DOWNLOADS: usize = 20;

/// A session that has held a piece for this many milliseconds is cancelled.
pub const PIECE_DOWNLOAD_TIMEOUT: u64 = 5000;

/// A piece in the hands of a peer.
#[derive(Debug, Clone, Copy, PartialEq, Eq)]
pub struct PieceDownloadPending {
    pub peer: PeerAddress,
    pub started_at: u64,
    pub piece_des: PieceDescriptor,
}

/// How a peer task ended.
#[derive(Debug, Clone, Copy, PartialEq, Eq)]
pub enum PieceDownloadResult {
    Success { peer: PeerAddress, piece_index: u32 },
    Error { peer_socket_addr: PeerAddress, piece_des: PieceDescriptor },
}

/// Where the bytes of a finished piece go in the output.
#[derive(Debug, Clone, Copy, PartialEq, Eq, Structural)]
pub struct PieceWrite {
    pub index: u32,
    pub offset: u64,
    pub length: u32,
}

/// The state of a download.
#[derive(Debug)]
pub struct TorrentDownloader {
    pub piece_queue: VecDeque<PieceDescriptor>,
    pub tracker: Tracker,
    pub client_peer_id: PeerId,
    pub piece_length: u32,
    pub pieces: Vec<PieceDescriptor>,
    pub completed: Vec<bool>,
    pub active_peers: Vec<PieceDownloadPending>,
}

/// The descriptor of piece `i` of a torrent.
pub open spec fn descriptor_at(
    hashes: Seq<Sha1Hash>,
    piece_length: u32,
    torrent_length: u64,
    i: int,
) -> PieceDescriptor {
    PieceDescriptor {
        index: i as u32,
        length: piece_length_at(piece_length as nat, torrent_length as nat, i as nat) as u32,
        hash: hashes[i],
    }
}

/// The descriptors of all pieces of a torrent, by index.
pub open spec fn descriptors(hashes: Seq<Sha1Hash>, piece_length: u32, torrent_length: u64) -> Seq<
    PieceDescriptor,
> {
    Seq::new(hashes.len(), |i: int| descriptor_at(hashes, piece_length, torrent_length, i))
}

/// The hashes are as many as 32 bits can count, and every piece starts
/// inside the torrent.
pub open spec fn pieces_fit(count: nat, piece_length: u32, torrent_length: u64) -> bool {
    count <= u32::MAX && (count > 0 ==> (count - 1) * piece_length <= torrent_length)
}

/// The descriptor of every piece, in the order of the hashes.
pub fn piece_descriptors(piece_hashes: &Vec<Sha1Hash>, piece_length: u32, torrent_length: u64) -> (pieces:
    Vec<PieceDescriptor>)
    requires
        pieces_fit(piece_hashes@.len(), piece_length, torrent_length),
    ensures
        pieces@ == descriptors(piece_hashes@, piece_length, torrent_length),
{
    let mut pieces: Vec<PieceDescriptor> = Vec::new();
    let mut i: usize = 0;
    while i < piece_hashes.len()
        invariant
            i <= piece_hashes.len(),
            pieces_fit(piece_hashes@.len(), piece_length, torrent_length),
            pieces@.len() == i,
            forall|j: int|
                0 <= j < i ==> pieces@[j] == descriptor_at(
                    piece_hashes@,
                    piece_length,
                    torrent_length,
                    j,
                ),
        decreases piece_hashes.len() - i,
    {
        let index = i as u32;
        assert(index as nat * piece_length as nat <= torrent_length) by (nonlinear_arith)
            requires
                index as nat <= piece_hashes@.len() - 1,
                (piece_hashes@.len() - 1) * piece_length <= torrent_length,
        ;
        pieces.push(
            PieceDescriptor::new(
                index,
                calculate_piece_length(piece_length, torrent_length, index),
                piece_hashes[i],
            ),
        );
        i += 1;
    }
    proof {
        assert(pieces@ =~= descriptors(piece_hashes@, piece_length, torrent_length));
    }
    pieces
}

/// `SliceRandom::shuffle` with `rand::thread_rng`. Trusted: the vector
/// holds the same descriptors as before, in some order.
#[verifier::external_body]
fn shuffle_pieces(pieces: &mut Vec<PieceDescriptor>)
    ensures
        final(pieces)@.to_multiset() == old(pieces)@.to_multiset(),
{
    rand::seq::SliceRandom::shuffle(pieces.as_mut_slice(), &mut rand::thread_rng())
}

/// The pieces as a queue, in the order given.
pub fn queue_of(pieces: Vec<PieceDescriptor>) -> (queue: VecDeque<PieceDescriptor>)
    ensures
        queue@ == pieces@,
{
    let mut queue: VecDeque<PieceDescriptor> = VecDeque::new();
    let mut i: usize = 0;
    while i < pieces.len()
        invariant
            i <= pieces.len(),
            queue@ == pieces@.take(i as int),
        decreases pieces.len() - i,
    {
        queue.push_back(pieces[i]);
        proof {
            assert(queue@ =~= pieces@.take(i + 1));
        }
        i += 1;
    }
    proof {
        assert(pieces@.take(i as int) =~= pieces@);
    }
    queue
}

/// The queue that a download starts with: every piece once, in an order
/// drawn at random.
pub fn generate_piece_queue(piece_hashes: Vec<Sha1Hash>, piece_length: u32, torrent_length: u64) -> (queue:
    VecDeque<PieceDescriptor>)
    requires
        pieces_fit(piece_hashes@.len(), piece_length, torrent_length),
    ensures
        queue@.to_multiset() == descriptors(
            piece_hashes@,
            piece_length,
            torrent_length,
        ).to_multiset(),
{
    let mut pieces = piece_descriptors(&piece_hashes, piece_length, torrent_length);
    shuffle_pieces(&mut pieces);
    queue_of(pieces)
}

/// Some descriptor of the queue is that of piece `i`.
pub open spec fn queued(queue: Seq<PieceDescriptor>, i: int) -> bool {
    exists|k: int| 0 <= k < queue.len() && (#[trigger] queue[k]).index == i
}

/// Some peer holds piece `i`.
pub open spec fn assigned(active: Seq<PieceDownloadPending>, i: int) -> bool {
    exists|k: int| 0 <= k < active.len() && (#[trigger] active[k]).piece_des.index == i
}

/// A session with `peer` is running.
pub open spec fn is_active(active: Seq<PieceDownloadPending>, peer: PeerAddress) -> bool {
    exists|k: int| 0 <= k < active.len() && (#[trigger] active[k]).peer == peer
}

/// The metainfo has a hash for every piece and for no more.
pub open spec fn consistent(torrent: Torrent) -> bool {
    &&& torrent.info.piece_length > 0
    &&& torrent.info.pieces@.len() <= u32::MAX
    &&& torrent.info.pieces@.len() == piece_count(
        torrent.info.piece_length as nat,
        torrent.info.length as nat,
    )
}

impl TorrentDownloader {
    /// `d` is the descriptor of one of the torrent's pieces.
    pub open spec fn known(&self, d: PieceDescriptor) -> bool {
        d.index < self.pieces@.len() && self.pieces@[d.index as int] == d
    }

    /// The state is sound: no more sessions than allowed, one for a peer at
    /// most, only pieces of this torrent in flight, and every piece that is
    /// not written yet either waiting in the queue or in the hands of a peer.
    pub open spec fn wf(&self) -> bool {
        &&& self.pieces@.len() == self.completed@.len()
        &&& self.pieces@.len() <= u32::MAX
        &&& forall|i: int| 0 <= i < self.pieces@.len() ==> (#[trigger] self.pieces@[i]).index == i
        &&& self.active_peers@.len() <= MAX_CONCURRENT_DOWNLOADS
        &&& forall|k: int, l: int|
            0 <= k < l < self.active_peers@.len() ==> (#[trigger] self.active_peers@[k]).peer != (
            #[trigger] self.active_peers@[l]).peer
        &&& forall|k: int|
            0 <= k < self.piece_queue@.len() ==> self.known(#[trigger] self.piece_queue@[k])
        &&& forall|k: int|
            0 <= k < self.active_peers@.len() ==> self.known(
                (#[trigger] self.active_peers@[k]).piece_des,
            )
        &&& forall|i: int|
            0 <= i < self.pieces@.len() && !(#[trigger] self.completed@[i]) ==> queued(
                self.piece_queue@,
                i,
            ) || assigned(self.active_peers@, i)
        &&& forall|i: int|
            0 <= i < self.pieces@.len() && (#[trigger] self.completed@[i]) ==> !queued(
                self.piece_queue@,
                i,
            )
    }

    /// Every piece is written.
    pub open spec fn all_written(&self) -> bool {
        forall|i: int| 0 <= i < self.completed@.len() ==> #[trigger] self.completed@[i]
    }

    /// A download of `torrent` of which nothing is written and nothing in
    /// flight. Metainfo whose hashes do not match its lengths is refused.
    pub fn new(torrent: Torrent) -> (r: Result<Self, TorrentError>)
        ensures
            consistent(torrent) ==> (r matches Ok(downloader) && downloader.wf()
                && downloader.piece_length == torrent.info.piece_length && downloader.pieces@
                == descriptors(torrent.info.pieces@, torrent.info.piece_length, torrent.info.length)
                && downloader.piece_queue@.to_multiset() == downloader.pieces@.to_multiset()
                && downloader.active_peers@.len() == 0 && downloader.tracker.url
                == torrent.announce && downloader.tracker.info_hash == torrent.info_hash
                && downloader.tracker.left == torrent.info.length && downloader.tracker.port
                == 6881 && downloader.tracker.uploaded == 0 && downloader.tracker.downloaded == 0
                && downloader.client_peer_id
                == downloader.tracker.peer_id && forall|i: int|
                0 <= i < downloader.completed@.len() ==> !(#[trigger] downloader.completed@[i])),
            !consistent(torrent) ==> r is Err && r->Err_0 == TorrentError::InvalidMetainfo(
                Error::InvalidValue,
            ),
    {
        let torrent_length = torrent.info.length;
        let piece_length = torrent.info.piece_length;
        if piece_length == 0 {
            return Err(TorrentError::InvalidMetainfo(Error::InvalidValue));
        }
        let count: u64 = if torrent_length == 0 {
            0
        } else {
            (torrent_length - 1) / (piece_length as u64) + 1
        };
        if torrent.info.pieces.len() as u64 != count || count > 0xffff_ffff {
            return Err(TorrentError::InvalidMetainfo(Error::InvalidValue));
        }
        proof {
            if count > 0 {
                let p = piece_length as int;
                let l = torrent_length as int;
                assert((l - 1) / p * p <= l - 1) by (nonlinear_arith)
                    requires
                        p > 0,
                        l >= 1,
                ;
            }
        }
        let tracker = Tracker::new(torrent.announce, torrent.info_hash, torrent_length);
        let client_peer_id = *tracker.peer_id();
        let pieces = piece_descriptors(&torrent.info.pieces, piece_length, torrent_length);
        let piece_queue = generate_piece_queue(torrent.info.pieces, piece_length, torrent_length);
        let completed = vec![false; pieces.len()];
        let downloader = TorrentDownloader {
            piece_queue,
            tracker,
            client_peer_id,
            piece_length,
            pieces,
            completed,
            active_peers: Vec::new(),
        };
        proof {
            let all = downloader.pieces@;
            let queue = downloader.piece_queue@;
            broadcast use vstd::seq_lib::to_multiset_contains;

            assert forall|k: int| 0 <= k < queue.len() implies downloader.known(
                #[trigger] queue[k],
            ) by {
                assert(queue.contains(queue[k]));
                assert(queue.to_multiset().count(queue[k]) > 0);
                assert(all.contains(queue[k]));
                let j = choose|j: int| 0 <= j < all.len() && all[j] == queue[k];
                assert(all[j].index == j);
            }
            assert forall|i: int| 0 <= i < all.len() implies queued(queue, i) by {
                assert(all.contains(all[i]));
                assert(all.to_multiset().count(all[i]) > 0);
                assert(queue.contains(all[i]));
                let k = choose|k: int| 0 <= k < queue.len() && queue[k] == all[i];
                assert(queue[k].index == i);
            }
        }
        Ok(downloader)
    }

    /// The queue is empty and no session runs: the download is over.
    pub fn is_complete(&self) -> (done: bool)
        requires
            self.wf(),
        ensures
            done == (self.piece_queue@.len() == 0 && self.active_peers@.len() == 0),
            done ==> self.all_written(),
    {
        self.active_peers.len() == 0 && self.piece_queue.len() == 0
    }
}

/// Number of pieces that are not written yet.
pub open spec fn unwritten(completed: Seq<bool>) -> nat
    decreases completed.len(),
{
    if completed.len() == 0 {
        0
    } else if completed.last() {
        unwritten(completed.drop_last())
    } else {
        unwritten(completed.drop_last()) + 1
    }
}

/// Writing a piece that was not written leaves one piece less to write.
pub proof fn lemma_unwritten_update(completed: Seq<bool>, i: int)
    requires
        0 <= i < completed.len(),
        !completed[i],
    ensures
        unwritten(completed.update(i, true)) + 1 == unwritten(completed),
    decreases completed.len(),
{
    let after = completed.update(i, true);
    if i == completed.len() - 1 {
        assert(after.drop_last() =~= completed.drop_last());
    } else {
        lemma_unwritten_update(completed.drop_last(), i);
        assert(after.drop_last() =~= completed.drop_last().update(i, true));
    }
}

/// Nothing is left to write exactly when every piece is written.
pub proof fn lemma_unwritten_zero(completed: Seq<bool>)
    ensures
        unwritten(completed) == 0 <==> forall|i: int|
            0 <= i < completed.len() ==> #[trigger] completed[i],
    decreases completed.len(),
{
    if completed.len() > 0 {
        let front = completed.drop_last();
        lemma_unwritten_zero(front);
        if unwritten(completed) == 0 {
            assert forall|i: int| 0 <= i < completed.len() implies #[trigger] completed[i] by {
                if i < front.len() {
                    assert(front[i] == completed[i]);
                }
            }
        } else if completed.last() {
            let i = choose|i: int| 0 <= i < front.len() && !#[trigger] front[i];
            assert(!completed[i]);
        }
    }
}

/// No piece is lost: while a piece is left to write, one waits in the
/// queue or is in the hands of a peer, so the download is not over.
pub proof fn lemma_pending_somewhere(downloader: TorrentDownloader)
    requires
        downloader.wf(),
        !downloader.all_written(),
    ensures
        downloader.piece_queue@.len() > 0 || downloader.active_peers@.len() > 0,
{
    let i = choose|i: int|
        0 <= i < downloader.completed@.len() && !#[trigger] downloader.completed@[i];
    assert(queued(downloader.piece_queue@, i) || assigned(downloader.active_peers@, i));
}

/// The queue without the descriptors of piece `i`, the others in their order.
pub open spec fn without(queue: Seq<PieceDescriptor>, i: u32) -> Seq<PieceDescriptor>
    decreases queue.len(),
{
    if queue.len() == 0 {
        Seq::empty()
    } else if queue.last().index == i {
        without(queue.drop_last(), i)
    } else {
        without(queue.drop_last(), i).push(queue.last())
    }
}

/// What `without` keeps: every descriptor of the queue but those of piece `i`.
pub proof fn lemma_without(queue: Seq<PieceDescriptor>, i: u32)
    ensures
        !queued(without(queue, i), i as int),
        forall|j: int| j != i ==> (queued(without(queue, i), j) <==> queued(queue, j)),
        forall|k: int|
            0 <= k < without(queue, i).len() ==> queue.contains(#[trigger] without(queue, i)[k]),
    decreases queue.len(),
{
    if queue.len() > 0 {
        let front = queue.drop_last();
        let last = queue.last();
        lemma_without(front, i);
        let kept = without(queue, i);
        let kept_front = without(front, i);
        assert forall|k: int| 0 <= k < kept.len() implies queue.contains(#[trigger] kept[k]) by {
            if k < kept_front.len() {
                assert(front.contains(kept_front[k]));
                let w = choose|w: int| 0 <= w < front.len() && front[w] == kept_front[k];
                assert(queue[w] == kept[k]);
            } else {
                assert(queue[queue.len() - 1] == kept[k]);
            }
        }
        assert forall|j: int| j != i implies (queued(kept, j) <==> queued(queue, j)) by {
            if queued(queue, j) {
                let w = choose|w: int| 0 <= w < queue.len() && (#[trigger] queue[w]).index == j;
                if w < front.len() {
                    assert(front[w].index == j);
                    assert(queued(front, j));
                    let v = choose|v: int|
                        0 <= v < kept_front.len() && (#[trigger] kept_front[v]).index == j;
                    assert(kept[v].index == j);
                } else {
                    assert(kept[kept.len() - 1].index == j);
                }
            }
            if queued(kept, j) {
                let v = choose|v: int| 0 <= v < kept.len() && (#[trigger] kept[v]).index == j;
                assert(queue.contains(kept[v]));
                let w = choose|w: int| 0 <= w < queue.len() && queue[w] == kept[v];
                assert(queue[w].index == j);
            }
        }
        if queued(kept, i as int) {
            let v = choose|v: int| 0 <= v < kept.len() && (#[trigger] kept[v]).index == i;
            if v < kept_front.len() {
                assert(kept_front[v].index == i);
            }
        }
    }
}

impl TorrentDownloader {
    /// Nothing but the queue, the sessions and the written marks differs
    /// between the two states.
    pub open spec fn same_torrent(&self, post: Self) -> bool {
        &&& post.pieces == self.pieces
        &&& post.piece_length == self.piece_length
        &&& post.tracker == self.tracker
        &&& post.client_peer_id == self.client_peer_id
    }

    /// `post` is this state after the session with `peer` has ended: the
    /// session is gone, and its piece stands at the end of the queue unless
    /// it is written. Without such a session nothing changes.
    pub open spec fn after_fail(&self, post: Self, peer: PeerAddress) -> bool {
        &&& self.same_torrent(post)
        &&& post.completed == self.completed
        &&& !is_active(self.active_peers@, peer) ==> post.active_peers@ == self.active_peers@
            && post.piece_queue@ == self.piece_queue@
        &&& forall|k: int|
            0 <= k < self.active_peers@.len() && (#[trigger] self.active_peers@[k]).peer == peer
                ==> post.active_peers@ == self.active_peers@.remove(k) && post.piece_queue@
                == if self.completed@[self.active_peers@[k].piece_des.index as int] {
                self.piece_queue@
            } else {
                self.piece_queue@.push(self.active_peers@[k].piece_des)
            }
    }

    /// `post` is this state after piece `index` has come in whole, and
    /// `write` what is to be written: the piece is marked and leaves the
    /// queue, unless it was written before or is no piece of the torrent,
    /// and then nothing changes.
    pub open spec fn after_write(&self, post: Self, index: u32, write: Option<PieceWrite>) -> bool {
        &&& self.same_torrent(post)
        &&& post.active_peers == self.active_peers
        &&& if index < self.pieces@.len() && !self.completed@[index as int] {
            &&& write == Some(self.write_of(index))
            &&& post.completed@ == self.completed@.update(index as int, true)
            &&& post.piece_queue@ == without(self.piece_queue@, index)
        } else {
            &&& write is None
            &&& post.completed == self.completed
            &&& post.piece_queue == self.piece_queue
        }
    }

    /// Where piece `index` goes in the output.
    pub open spec fn write_of(&self, index: u32) -> PieceWrite {
        PieceWrite {
            index,
            offset: (index as u64 * self.piece_length as u64) as u64,
            length: self.pieces@[index as int].length,
        }
    }
}

/// A piece is written once: no end of a session and no other write takes
/// the mark from a written piece, and a later success with the same piece
/// asks for no write.
pub proof fn lemma_written_once(
    pre: TorrentDownloader,
    post: TorrentDownloader,
    index: u32,
    peer: PeerAddress,
    other: u32,
    write: Option<PieceWrite>,
)
    requires
        index < pre.completed@.len(),
        pre.pieces@.len() == pre.completed@.len(),
        pre.completed@[index as int],
    ensures
        pre.after_fail(post, peer) ==> post.completed@[index as int],
        pre.after_write(post, other, write) ==> post.completed@[index as int],
        pre.after_write(post, index, write) ==> write is None,
{
}

impl TorrentDownloader {
    /// Where in the list of sessions the one with `peer` stands.
    pub fn position_of(&self, peer: PeerAddress) -> (r: Option<usize>)
        ensures
            match r {
                Some(p) => p < self.active_peers@.len() && self.active_peers@[p as int].peer
                    == peer,
                None => !is_active(self.active_peers@, peer),
            },
    {
        let mut i: usize = 0;
        while i < self.active_peers.len()
            invariant
                i <= self.active_peers.len(),
                forall|k: int| 0 <= k < i ==> (#[trigger] self.active_peers@[k]).peer != peer,
            decreases self.active_peers.len() - i,
        {
            if self.active_peers[i].peer == peer {
                return Some(i);
            }
            i += 1;
        }
        None
    }

    /// Ends the session with `peer`, if one runs, and puts its piece back
    /// at the end of the queue unless that piece is written.
    pub fn fail(&mut self, peer: PeerAddress)
        requires
            old(self).wf(),
        ensures
            final(self).wf(),
            old(self).after_fail(*final(self), peer),
            !is_active(final(self).active_peers@, peer),
            final(self).active_peers@.len() <= old(self).active_peers@.len(),
            forall|x: PeerAddress|
                is_active(final(self).active_peers@, x) ==> is_active(old(self).active_peers@, x),
    {
        let p = match self.position_of(peer) {
            None => {
                return ;
            },
            Some(p) => p,
        };
        let ghost before = self.active_peers@;
        let ghost queue_before = self.piece_queue@;
        let entry = self.active_peers.remove(p);
        let piece = entry.piece_des;
        assert(old(self).known(piece));
        let requeue = !self.completed[piece.index as usize];
        if requeue {
            self.piece_queue.push_back(piece);
        }
        proof {
            let after = self.active_peers@;
            let queue = self.piece_queue@;
            assert(after =~= before.remove(p as int));
            assert forall|k: int| 0 <= k < after.len() implies #[trigger] after[k] == before[if k
                < p {
                k
            } else {
                k + 1
            }] by {}
            assert forall|k: int| 0 <= k < queue.len() implies self.known(#[trigger] queue[k]) by {
                if k < queue_before.len() {
                    assert(queue[k] == queue_before[k]);
                }
            }
            assert forall|i: int|
                0 <= i < self.pieces@.len() && !(#[trigger] self.completed@[i]) implies queued(
                queue,
                i,
            ) || assigned(after, i) by {
                if queued(queue_before, i) {
                    let w = choose|w: int|
                        0 <= w < queue_before.len() && (#[trigger] queue_before[w]).index == i;
                    assert(queue[w].index == i);
                } else {
                    let w = choose|w: int|
                        0 <= w < before.len() && (#[trigger] before[w]).piece_des.index == i;
                    if w == p {
                        assert(queue[queue.len() - 1].index == i);
                    } else if w < p {
                        assert(after[w].piece_des.index == i);
                    } else {
                        assert(after[w - 1].piece_des.index == i);
                    }
                }
            }
            assert forall|i: int|
                0 <= i < self.pieces@.len() && (#[trigger] self.completed@[i]) implies !queued(
                queue,
                i,
            ) by {
                if queued(queue, i) {
                    let w = choose|w: int| 0 <= w < queue.len() && (#[trigger] queue[w]).index == i;
                    if w < queue_before.len() {
                        assert(queue_before[w].index == i);
                    }
                }
            }
            assert forall|x: PeerAddress| is_active(after, x) implies is_active(before, x) by {
                let w = choose|w: int| 0 <= w < after.len() && (#[trigger] after[w]).peer == x;
                if w < p {
                    assert(before[w].peer == x);
                } else {
                    assert(before[w + 1].peer == x);
                }
            }
            if is_active(after, peer) {
                let w = choose|w: int| 0 <= w < after.len() && (#[trigger] after[w]).peer == peer;
                if w < p {
                    assert(before[w].peer == before[p as int].peer);
                } else {
                    assert(before[w + 1].peer == before[p as int].peer);
                }
            }
            assert forall|k: int|
                0 <= k < before.len() && (#[trigger] before[k]).peer == peer implies k == p by {
                if k < p {
                    assert(before[k].peer != before[p as int].peer);
                } else if k > p {
                    assert(before[p as int].peer != before[k].peer);
                }
            }
        }
    }
}

impl TorrentDownloader {
    /// Takes the descriptors of piece `index` out of the queue.
    fn purge(&mut self, index: u32)
        ensures
            final(self).piece_queue@ == without(old(self).piece_queue@, index),
            final(self).active_peers == old(self).active_peers,
            final(self).completed == old(self).completed,
            final(self).pieces == old(self).pieces,
            final(self).piece_length == old(self).piece_length,
            final(self).tracker == old(self).tracker,
            final(self).client_peer_id == old(self).client_peer_id,
    {
        let ghost before = self.piece_queue@;
        let n = self.piece_queue.len();
        let mut k: usize = 0;
        proof {
            assert(before.subrange(0, n as int) =~= before);
            assert(before.take(0).len() == 0);
        }
        while k < n
            invariant
                k <= n,
                n == before.len(),
                self.piece_queue@ == before.subrange(k as int, n as int) + without(
                    before.take(k as int),
                    index,
                ),
                self.active_peers == old(self).active_peers,
                self.completed == old(self).completed,
                self.pieces == old(self).pieces,
                self.piece_length == old(self).piece_length,
                self.tracker == old(self).tracker,
                self.client_peer_id == old(self).client_peer_id,
            decreases n - k,
        {
            let ghost kept = without(before.take(k as int), index);
            let piece = self.piece_queue.pop_front();
            proof {
                let next = before.take(k + 1);
                assert(next.drop_last() =~= before.take(k as int));
                assert(next.last() == before[k as int]);
            }
            match piece {
                Some(piece) => {
                    if piece.index != index {
                        self.piece_queue.push_back(piece);
                    }
                },
                None => {},
            }
            proof {
                assert(self.piece_queue@ =~= before.subrange(k + 1, n as int) + without(
                    before.take(k + 1),
                    index,
                ));
            }
            k += 1;
        }
        proof {
            assert(before.take(n as int) =~= before);
            assert(self.piece_queue@ =~= without(before, index));
        }
    }

    /// Notes that piece `index` is to be written, unless it was written
    /// before or is no piece of the torrent; a piece written waits in the
    /// queue no longer.
    pub fn mark_written(&mut self, index: u32) -> (write: Option<PieceWrite>)
        requires
            old(self).wf(),
        ensures
            final(self).wf(),
            old(self).after_write(*final(self), index, write),
            write is Some ==> unwritten(final(self).completed@) + 1 == unwritten(
                old(self).completed@,
            ),
    {
        if index as usize >= self.pieces.len() || self.completed[index as usize] {
            return None;
        }
        let ghost queue_before = self.piece_queue@;
        self.purge(index);
        self.completed.set(index as usize, true);
        proof {
            lemma_unwritten_update(old(self).completed@, index as int);
            lemma_without(queue_before, index);
            let queue = self.piece_queue@;
            assert forall|k: int| 0 <= k < queue.len() implies self.known(#[trigger] queue[k]) by {
                assert(queue_before.contains(queue[k]));
                let w = choose|w: int| 0 <= w < queue_before.len() && queue_before[w] == queue[k];
                assert(old(self).known(queue_before[w]));
            }
            assert forall|i: int|
                0 <= i < self.pieces@.len() && !(#[trigger] self.completed@[i]) implies queued(
                queue,
                i,
            ) || assigned(self.active_peers@, i) by {
                assert(!old(self).completed@[i]);
            }
            assert forall|i: int|
                0 <= i < self.pieces@.len() && (#[trigger] self.completed@[i]) implies !queued(
                queue,
                i,
            ) by {
                if i != index {
                    assert(old(self).completed@[i]);
                }
            }
        }
        assert(index as u64 * self.piece_length as u64 <= 0xffff_ffff * 0xffff_ffff)
            by (nonlinear_arith)
            requires
                index <= 0xffff_ffff,
                self.piece_length <= 0xffff_ffff,
        ;
        let offset = index as u64 * self.piece_length as u64;
        Some(PieceWrite { index, offset, length: self.pieces[index as usize].length })
    }

    /// Takes the success of `peer` with piece `piece_index`: its session is
    /// over, and the piece is to be written unless it was written before.
    /// A success counts also where the session was cancelled meanwhile.
    pub fn complete(&mut self, peer: PeerAddress, piece_index: u32) -> (write: Option<PieceWrite>)
        requires
            old(self).wf(),
        ensures
            final(self).wf(),
            exists|between: Self|
                old(self).after_fail(between, peer) && #[trigger] between.after_write(
                    *final(self),
                    piece_index,
                    write,
                ),
            write is Some <==> piece_index < old(self).pieces@.len() && !old(
                self,
            ).completed@[piece_index as int],
            write is Some ==> unwritten(final(self).completed@) + 1 == unwritten(
                old(self).completed@,
            ),
            write is None ==> final(self).completed == old(self).completed,
            final(self).pieces == old(self).pieces,
            !is_active(final(self).active_peers@, peer),
            final(self).active_peers@.len() <= old(self).active_peers@.len(),
            forall|x: PeerAddress|
                is_active(final(self).active_peers@, x) ==> is_active(old(self).active_peers@, x),
    {
        self.fail(peer);
        let ghost between = *self;
        let write = self.mark_written(piece_index);
        proof {
            assert(old(self).after_fail(between, peer) && between.after_write(
                *self,
                piece_index,
                write,
            ));
        }
        write
    }

    /// Takes the result of a peer task.
    pub fn finish_task(&mut self, result: PieceDownloadResult) -> (write: Option<PieceWrite>)
        requires
            old(self).wf(),
        ensures
            final(self).wf(),
            final(self).active_peers@.len() <= old(self).active_peers@.len(),
            match result {
                PieceDownloadResult::Success { peer, piece_index } => exists|between: Self|
                    old(self).after_fail(between, peer) && #[trigger] between.after_write(
                        *final(self),
                        piece_index,
                        write,
                    ),
                PieceDownloadResult::Error { peer_socket_addr, piece_des } => write is None && old(
                    self,
                ).after_fail(*final(self), peer_socket_addr),
            },
    {
        match result {
            PieceDownloadResult::Success { peer, piece_index } => self.complete(peer, piece_index),
            PieceDownloadResult::Error { peer_socket_addr, piece_des } => {
                self.fail(peer_socket_addr);
                None
            },
        }
    }
}

/// The peers of `peers` that may be handed a piece: those with which no
/// session runs, each once, in the order in which they first stand.
pub open spec fn candidates(active: Seq<PieceDownloadPending>, peers: Seq<PeerAddress>) -> Seq<
    PeerAddress,
>
    decreases peers.len(),
{
    if peers.len() == 0 {
        Seq::empty()
    } else if is_active(active, peers.last()) || peers.drop_last().contains(peers.last()) {
        candidates(active, peers.drop_last())
    } else {
        candidates(active, peers.drop_last()).push(peers.last())
    }
}

/// The candidates are peers of the list without a session, and every such
/// peer is a candidate.
pub proof fn lemma_candidates(active: Seq<PieceDownloadPending>, peers: Seq<PeerAddress>)
    ensures
        forall|j: int|
            0 <= j < candidates(active, peers).len() ==> peers.contains(
                #[trigger] candidates(active, peers)[j],
            ) && !is_active(active, candidates(active, peers)[j]),
        forall|x: PeerAddress|
            peers.contains(x) && !is_active(active, x) ==> candidates(active, peers).contains(x),
    decreases peers.len(),
{
    if peers.len() > 0 {
        let front = peers.drop_last();
        let last = peers.last();
        lemma_candidates(active, front);
        let c = candidates(active, peers);
        let cf = candidates(active, front);
        assert forall|j: int| 0 <= j < c.len() implies peers.contains(#[trigger] c[j])
            && !is_active(active, c[j]) by {
            if j < cf.len() {
                assert(front.contains(cf[j]));
                let w = choose|w: int| 0 <= w < front.len() && front[w] == cf[j];
                assert(peers[w] == c[j]);
            } else {
                assert(peers[peers.len() - 1] == c[j]);
            }
        }
        assert forall|x: PeerAddress| peers.contains(x) && !is_active(active, x) implies c.contains(
            x,
        ) by {
            let w = choose|w: int| 0 <= w < peers.len() && peers[w] == x;
            if w < front.len() {
                assert(front[w] == x);
                assert(front.contains(x));
            }
            if front.contains(x) {
                assert(cf.contains(x));
                let v = choose|v: int| 0 <= v < cf.len() && cf[v] == x;
                assert(c[v] == x);
            } else {
                assert(x == last);
                assert(c[c.len() - 1] == x);
            }
        }
    }
}

/// The candidates among the first `i` peers stand at the front of the
/// candidates among all.
pub proof fn lemma_candidates_prefix(
    active: Seq<PieceDownloadPending>,
    peers: Seq<PeerAddress>,
    i: int,
)
    requires
        0 <= i <= peers.len(),
    ensures
        candidates(active, peers.take(i)).len() <= candidates(active, peers).len(),
        forall|j: int|
            0 <= j < candidates(active, peers.take(i)).len() ==> (#[trigger] candidates(
                active,
                peers.take(i),
            )[j]) == candidates(active, peers)[j],
    decreases peers.len(),
{
    if i == peers.len() {
        assert(peers.take(i) =~= peers);
    } else {
        let front = peers.drop_last();
        assert(front.take(i) =~= peers.take(i));
        lemma_candidates_prefix(active, front, i);
    }
}

/// The smallest of three numbers.
pub open spec fn least(a: int, b: int, c: int) -> int {
    if a <= b && a <= c {
        a
    } else if b <= c {
        b
    } else {
        c
    }
}

/// The peers of `peers` with which no session runs, in their order.
pub open spec fn idle_peers(active: Seq<PieceDownloadPending>, peers: Seq<PeerAddress>) -> Seq<
    PeerAddress,
>
    decreases peers.len(),
{
    if peers.len() == 0 {
        Seq::empty()
    } else if is_active(active, peers.last()) {
        idle_peers(active, peers.drop_last())
    } else {
        idle_peers(active, peers.drop_last()).push(peers.last())
    }
}

impl TorrentDownloader {
    /// The peers of the tracker's list with which no session runs.
    pub fn fetch_new_peers(&self, usable_peers: &Vec<PeerAddress>) -> (new_peers: Vec<PeerAddress>)
        ensures
            new_peers@ == idle_peers(self.active_peers@, usable_peers@),
    {
        let mut new_peers: Vec<PeerAddress> = Vec::new();
        let mut i: usize = 0;
        while i < usable_peers.len()
            invariant
                i <= usable_peers.len(),
                new_peers@ == idle_peers(self.active_peers@, usable_peers@.take(i as int)),
            decreases usable_peers.len() - i,
        {
            proof {
                let next = usable_peers@.take(i + 1);
                assert(next.drop_last() =~= usable_peers@.take(i as int));
                assert(next.last() == usable_peers@[i as int]);
            }
            if self.position_of(usable_peers[i]).is_none() {
                new_peers.push(usable_peers[i]);
            }
            i += 1;
        }
        proof {
            assert(usable_peers@.take(i as int) =~= usable_peers@);
        }
        new_peers
    }

    /// Hands pieces from the front of the queue to peers of `peers` that
    /// have no session, one each, as long as the cap on sessions allows it.
    /// Returns the sessions to start, which begin at `now`.
    pub fn dispatch(&mut self, peers: &Vec<PeerAddress>, now: u64) -> (spawned: Vec<
        PieceDownloadPending,
    >)
        requires
            old(self).wf(),
        ensures
            final(self).wf(),
            final(self).completed == old(self).completed,
            final(self).pieces == old(self).pieces,
            final(self).piece_length == old(self).piece_length,
            final(self).active_peers@ == old(self).active_peers@ + spawned@,
            spawned@.len() <= old(self).piece_queue@.len(),
            final(self).piece_queue@ == old(self).piece_queue@.skip(spawned@.len() as int),
            forall|j: int|
                0 <= j < spawned@.len() ==> (#[trigger] spawned@[j]).piece_des == old(
                    self,
                ).piece_queue@[j] && spawned@[j].started_at == now && peers@.contains(
                    spawned@[j].peer,
                ) && !is_active(old(self).active_peers@, spawned@[j].peer),
            final(self).piece_queue@.len() == 0 || final(self).active_peers@.len()
                == MAX_CONCURRENT_DOWNLOADS || forall|j: int|
                0 <= j < peers@.len() ==> is_active(final(self).active_peers@, #[trigger] peers@[j]),
            old(self).piece_queue@.len() > 0 && old(self).active_peers@.len()
                < MAX_CONCURRENT_DOWNLOADS && (exists|j: int|
                0 <= j < peers@.len() && !is_active(old(self).active_peers@, #[trigger] peers@[j]))
                ==> spawned@.len() >= 1,
            spawned@.len() == least(
                candidates(old(self).active_peers@, peers@).len() as int,
                old(self).piece_queue@.len() as int,
                MAX_CONCURRENT_DOWNLOADS - old(self).active_peers@.len(),
            ),
            forall|j: int|
                0 <= j < spawned@.len() ==> (#[trigger] spawned@[j]).peer == candidates(
                    old(self).active_peers@,
                    peers@,
                )[j],
    {
        let mut spawned: Vec<PieceDownloadPending> = Vec::new();
        let mut i: usize = 0;
        proof {
            assert(old(self).active_peers@ + spawned@ =~= old(self).active_peers@);
            assert(old(self).piece_queue@.skip(0) =~= old(self).piece_queue@);
        }
        while i < peers.len()
            invariant
                i <= peers.len(),
                self.wf(),
                self.completed == old(self).completed,
                self.pieces == old(self).pieces,
                self.piece_length == old(self).piece_length,
                self.tracker == old(self).tracker,
                self.client_peer_id == old(self).client_peer_id,
                self.active_peers@ == old(self).active_peers@ + spawned@,
                spawned@.len() <= old(self).piece_queue@.len(),
                self.piece_queue@ == old(self).piece_queue@.skip(spawned@.len() as int),
                forall|j: int|
                    0 <= j < spawned@.len() ==> (#[trigger] spawned@[j]).piece_des == old(
                        self,
                    ).piece_queue@[j] && spawned@[j].started_at == now && peers@.contains(
                        spawned@[j].peer,
                    ) && !is_active(old(self).active_peers@, spawned@[j].peer),
                forall|j: int| 0 <= j < i ==> is_active(self.active_peers@, #[trigger] peers@[j]),
                spawned@.len() == candidates(old(self).active_peers@, peers@.take(i as int)).len(),
                forall|j: int|
                    0 <= j < spawned@.len() ==> (#[trigger] spawned@[j]).peer == candidates(
                        old(self).active_peers@,
                        peers@.take(i as int),
                    )[j],
            ensures
                self.wf(),
                self.completed == old(self).completed,
                self.pieces == old(self).pieces,
                self.piece_length == old(self).piece_length,
                self.active_peers@ == old(self).active_peers@ + spawned@,
                spawned@.len() <= old(self).piece_queue@.len(),
                self.piece_queue@ == old(self).piece_queue@.skip(spawned@.len() as int),
                forall|j: int|
                    0 <= j < spawned@.len() ==> (#[trigger] spawned@[j]).piece_des == old(
                        self,
                    ).piece_queue@[j] && spawned@[j].started_at == now && peers@.contains(
                        spawned@[j].peer,
                    ) && !is_active(old(self).active_peers@, spawned@[j].peer),
                self.piece_queue@.len() == 0 || self.active_peers@.len()
                    == MAX_CONCURRENT_DOWNLOADS || forall|j: int|
                    0 <= j < peers@.len() ==> is_active(self.active_peers@, #[trigger] peers@[j]),
                i <= peers.len(),
                spawned@.len() == candidates(old(self).active_peers@, peers@.take(i as int)).len(),
                forall|j: int|
                    0 <= j < spawned@.len() ==> (#[trigger] spawned@[j]).peer == candidates(
                        old(self).active_peers@,
                        peers@.take(i as int),
                    )[j],
                self.piece_queue@.len() == 0 || self.active_peers@.len()
                    == MAX_CONCURRENT_DOWNLOADS || i == peers.len(),
            decreases peers.len() - i,
        {
            if self.active_peers.len() >= MAX_CONCURRENT_DOWNLOADS {
                break ;
            }
            let peer = peers[i];
            let ghost found = candidates(old(self).active_peers@, peers@.take(i as int));
            proof {
                let next = peers@.take(i + 1);
                assert(next.drop_last() =~= peers@.take(i as int));
                assert(next.last() == peer);
                lemma_candidates(old(self).active_peers@, peers@.take(i as int));
            }
            if self.position_of(peer).is_some() {
                proof {
                    let at = choose|w: int|
                        0 <= w < self.active_peers@.len() && (#[trigger] self.active_peers@[w]).peer
                            == peer;
                    if at < old(self).active_peers@.len() {
                        assert(old(self).active_peers@[at].peer == peer);
                    } else {
                        let j = at - old(self).active_peers@.len();
                        assert(spawned@[j].peer == peer);
                        assert(peers@.take(i as int).contains(found[j]));
                    }
                }
                i += 1;
                continue ;
            }
            proof {
                if is_active(old(self).active_peers@, peer) {
                    let w = choose|w: int|
                        0 <= w < old(self).active_peers@.len() && (#[trigger] old(
                            self,
                        ).active_peers@[w]).peer == peer;
                    assert(self.active_peers@[w].peer == peer);
                }
                if peers@.take(i as int).contains(peer) {
                    assert(found.contains(peer));
                    let v = choose|v: int| 0 <= v < found.len() && found[v] == peer;
                    assert(spawned@[v].peer == peer);
                    assert(self.active_peers@[old(self).active_peers@.len() + v].peer == peer);
                }
            }
            let ghost queue_before = self.piece_queue@;
            let ghost active_before = self.active_peers@;
            let piece = match self.piece_queue.pop_front() {
                None => {
                    break ;
                },
                Some(piece) => piece,
            };
            let entry = PieceDownloadPending { peer, started_at: now, piece_des: piece };
            self.active_peers.push(entry);
            spawned.push(entry);
            proof {
                let queue = self.piece_queue@;
                let active = self.active_peers@;
                assert(queue =~= old(self).piece_queue@.skip(spawned@.len() as int));
                assert(active =~= old(self).active_peers@ + spawned@);
                assert(peers@[i as int] == peer);
                assert(!is_active(old(self).active_peers@, peer)) by {
                    if is_active(old(self).active_peers@, peer) {
                        let w = choose|w: int|
                            0 <= w < old(self).active_peers@.len() && (#[trigger] old(
                                self,
                            ).active_peers@[w]).peer == peer;
                        assert(active_before[w].peer == peer);
                    }
                }
                assert forall|k: int| 0 <= k < queue.len() implies self.known(
                    #[trigger] queue[k],
                ) by {
                    assert(queue[k] == queue_before[k + 1]);
                }
                assert forall|k: int| 0 <= k < active.len() implies self.known(
                    (#[trigger] active[k]).piece_des,
                ) by {
                    if k < active_before.len() {
                        assert(active[k] == active_before[k]);
                    } else {
                        assert(active[k].piece_des == queue_before[0]);
                    }
                }
                assert forall|k: int, l: int| 0 <= k < l < active.len() implies (
                #[trigger] active[k]).peer != (#[trigger] active[l]).peer by {
                    if l < active_before.len() {
                        assert(active[k] == active_before[k] && active[l] == active_before[l]);
                    } else {
                        assert(active[k] == active_before[k]);
                    }
                }
                assert forall|x: int|
                    0 <= x < self.pieces@.len() && !(#[trigger] self.completed@[x]) implies queued(
                    queue,
                    x,
                ) || assigned(active, x) by {
                    if queued(queue_before, x) {
                        let w = choose|w: int|
                            0 <= w < queue_before.len() && (#[trigger] queue_before[w]).index == x;
                        if w == 0 {
                            assert(active[active.len() - 1].piece_des.index == x);
                        } else {
                            assert(queue[w - 1].index == x);
                        }
                    } else {
                        let w = choose|w: int|
                            0 <= w < active_before.len() && (
                            #[trigger] active_before[w]).piece_des.index == x;
                        assert(active[w].piece_des.index == x);
                    }
                }
                assert forall|x: int|
                    0 <= x < self.pieces@.len() && (#[trigger] self.completed@[x]) implies !queued(
                    queue,
                    x,
                ) by {
                    if queued(queue, x) {
                        let w = choose|w: int|
                            0 <= w < queue.len() && (#[trigger] queue[w]).index == x;
                        assert(queue_before[w + 1].index == x);
                    }
                }
                assert forall|j: int| 0 <= j < i + 1 implies is_active(
                    active,
                    #[trigger] peers@[j],
                ) by {
                    if j < i {
                        let w = choose|w: int|
                            0 <= w < active_before.len() && (#[trigger] active_before[w]).peer
                                == peers@[j];
                        assert(active[w].peer == peers@[j]);
                    } else {
                        assert(active[active.len() - 1].peer == peer);
                    }
                }
            }
            i += 1;
        }
        proof {
            if spawned@.len() == 0 {
                assert(self.active_peers@ =~= old(self).active_peers@);
            }
            lemma_candidates_prefix(old(self).active_peers@, peers@, i as int);
            if i == peers.len() {
                assert(peers@.take(i as int) =~= peers@);
            }
        }
        spawned
    }
}

/// The session has held its piece for the timeout or longer.
pub open spec fn expired(session: PieceDownloadPending, now: u64) -> bool {
    now >= session.started_at && now - session.started_at >= PIECE_DOWNLOAD_TIMEOUT
}

/// The sessions that go on at `now`, in their order.
pub open spec fn kept_sessions(active: Seq<PieceDownloadPending>, now: u64) -> Seq<
    PieceDownloadPending,
>
    decreases active.len(),
{
    if active.len() == 0 {
        Seq::empty()
    } else if expired(active.last(), now) {
        kept_sessions(active.drop_last(), now)
    } else {
        kept_sessions(active.drop_last(), now).push(active.last())
    }
}

/// The peers whose sessions are cancelled at `now`, in their order.
pub open spec fn cancelled_peers(active: Seq<PieceDownloadPending>, now: u64) -> Seq<PeerAddress>
    decreases active.len(),
{
    if active.len() == 0 {
        Seq::empty()
    } else if expired(active.last(), now) {
        cancelled_peers(active.drop_last(), now).push(active.last().peer)
    } else {
        cancelled_peers(active.drop_last(), now)
    }
}

/// The pieces that go back to the queue at `now`: those of the sessions
/// cancelled, unless written, in the order of the sessions.
pub open spec fn requeued_pieces(
    active: Seq<PieceDownloadPending>,
    now: u64,
    completed: Seq<bool>,
) -> Seq<PieceDescriptor>
    decreases active.len(),
{
    if active.len() == 0 {
        Seq::empty()
    } else if expired(active.last(), now) && !completed[active.last().piece_des.index as int] {
        requeued_pieces(active.drop_last(), now, completed).push(active.last().piece_des)
    } else {
        requeued_pieces(active.drop_last(), now, completed)
    }
}

impl TorrentDownloader {
    /// Cancels the sessions that have held a piece for the timeout or
    /// longer: their pieces go back to the end of the queue, and the peers
    /// returned are those whose tasks the caller aborts.
    pub fn check_piece_download_timeout(&mut self, now: u64) -> (cancelled: Vec<PeerAddress>)
        requires
            old(self).wf(),
        ensures
            final(self).wf(),
            final(self).completed == old(self).completed,
            final(self).pieces == old(self).pieces,
            final(self).piece_length == old(self).piece_length,
            final(self).active_peers@ == kept_sessions(old(self).active_peers@, now),
            cancelled@ == cancelled_peers(old(self).active_peers@, now),
            final(self).piece_queue@ == old(self).piece_queue@ + requeued_pieces(
                old(self).active_peers@,
                now,
                old(self).completed@,
            ),
    {
        let ghost active = self.active_peers@;
        let ghost queue_before = self.piece_queue@;
        let mut kept: Vec<PieceDownloadPending> = Vec::new();
        let mut cancelled: Vec<PeerAddress> = Vec::new();
        let mut i: usize = 0;
        proof {
            assert(queue_before + requeued_pieces(active.take(0), now, self.completed@)
                =~= queue_before);
        }
        while i < self.active_peers.len()
            invariant
                i <= self.active_peers.len(),
                old(self).wf(),
                self.active_peers@ == active,
                active == old(self).active_peers@,
                queue_before == old(self).piece_queue@,
                self.completed == old(self).completed,
                self.pieces == old(self).pieces,
                self.piece_length == old(self).piece_length,
                self.tracker == old(self).tracker,
                self.client_peer_id == old(self).client_peer_id,
                kept@ == kept_sessions(active.take(i as int), now),
                cancelled@ == cancelled_peers(active.take(i as int), now),
                self.piece_queue@ == queue_before + requeued_pieces(
                    active.take(i as int),
                    now,
                    self.completed@,
                ),
                kept@.len() <= i,
                forall|a: int|
                    0 <= a < kept@.len() ==> exists|j: int|
                        0 <= j < i && active[j] == #[trigger] kept@[a],
                forall|a: int, b: int|
                    0 <= a < b < kept@.len() ==> (#[trigger] kept@[a]).peer != (
                    #[trigger] kept@[b]).peer,
                forall|k: int|
                    0 <= k < self.piece_queue@.len() ==> old(self).known(
                        #[trigger] self.piece_queue@[k],
                    ),
                forall|j: int|
                    0 <= j < i && !self.completed@[(#[trigger] active[j]).piece_des.index as int]
                        ==> queued(self.piece_queue@, active[j].piece_des.index as int) || assigned(
                        kept@,
                        active[j].piece_des.index as int,
                    ),
                forall|x: int|
                    queued(queue_before, x) ==> queued(self.piece_queue@, x),
                forall|x: int|
                    0 <= x < self.pieces@.len() && self.completed@[x] ==> !queued(
                        self.piece_queue@,
                        x,
                    ),
            decreases self.active_peers.len() - i,
        {
            let session = self.active_peers[i];
            let ghost queue_now = self.piece_queue@;
            let ghost kept_now = kept@;
            proof {
                let next = active.take(i + 1);
                assert(next.drop_last() =~= active.take(i as int));
                assert(next.last() == active[i as int]);
                assert(old(self).known(session.piece_des));
            }
            if now >= session.started_at && now - session.started_at >= PIECE_DOWNLOAD_TIMEOUT {
                cancelled.push(session.peer);
                if !self.completed[session.piece_des.index as usize] {
                    self.piece_queue.push_back(session.piece_des);
                }
            } else {
                kept.push(session);
            }
            proof {
                let queue = self.piece_queue@;
                assert(queue =~= queue_before + requeued_pieces(
                    active.take(i + 1),
                    now,
                    self.completed@,
                ));
                assert forall|k: int| 0 <= k < queue.len() implies old(self).known(
                    #[trigger] queue[k],
                ) by {
                    if k < queue_now.len() {
                        assert(queue[k] == queue_now[k]);
                    }
                }
                assert forall|x: int| queued(queue_now, x) implies queued(queue, x) by {
                    let w = choose|w: int|
                        0 <= w < queue_now.len() && (#[trigger] queue_now[w]).index == x;
                    assert(queue[w].index == x);
                }
                assert forall|x: int| assigned(kept_now, x) implies assigned(kept@, x) by {
                    let w = choose|w: int|
                        0 <= w < kept_now.len() && (#[trigger] kept_now[w]).piece_des.index == x;
                    assert(kept@[w].piece_des.index == x);
                }
                assert forall|a: int| 0 <= a < kept@.len() implies exists|j: int|
                    0 <= j < i + 1 && active[j] == #[trigger] kept@[a] by {
                    if a < kept_now.len() {
                        let j = choose|j: int| 0 <= j < i && active[j] == kept_now[a];
                        assert(active[j] == kept@[a]);
                    } else {
                        assert(active[i as int] == kept@[a]);
                    }
                }
                assert forall|a: int, b: int| 0 <= a < b < kept@.len() implies (
                #[trigger] kept@[a]).peer != (#[trigger] kept@[b]).peer by {
                    if b >= kept_now.len() {
                        let j = choose|j: int| 0 <= j < i && active[j] == kept_now[a];
                        assert(active[j].peer != active[i as int].peer);
                    }
                }
                assert forall|j: int|
                    0 <= j < i + 1 && !self.completed@[(
                    #[trigger] active[j]).piece_des.index as int] implies queued(
                    queue,
                    active[j].piece_des.index as int,
                ) || assigned(kept@, active[j].piece_des.index as int) by {
                    if j == i {
                        if expired(session, now) {
                            assert(queue[queue.len() - 1].index == session.piece_des.index);
                        } else {
                            assert(kept@[kept@.len() - 1].piece_des.index
                                == session.piece_des.index);
                        }
                    }
                }
                assert forall|x: int|
                    0 <= x < self.pieces@.len() && self.completed@[x] implies !queued(
                    queue,
                    x,
                ) by {
                    if queued(queue, x) {
                        let w = choose|w: int|
                            0 <= w < queue.len() && (#[trigger] queue[w]).index == x;
                        if w < queue_now.len() {
                            assert(queue_now[w].index == x);
                        }
                    }
                }
            }
            i += 1;
        }
        proof {
            assert(active.take(i as int) =~= active);
            assert forall|x: int|
                0 <= x < self.pieces@.len() && !(#[trigger] self.completed@[x]) implies queued(
                self.piece_queue@,
                x,
            ) || assigned(kept@, x) by {
                if !queued(queue_before, x) {
                    let w = choose|w: int|
                        0 <= w < active.len() && (#[trigger] active[w]).piece_des.index == x;
                    assert(!self.completed@[active[w].piece_des.index as int]);
                }
            }
            assert forall|k: int| 0 <= k < kept@.len() implies self.known(
                (#[trigger] kept@[k]).piece_des,
            ) by {
                let j = choose|j: int| 0 <= j < i && active[j] == kept@[k];
                assert(old(self).known(active[j].piece_des));
            }
        }
        self.active_peers = kept;
        cancelled
    }
}

/// What the poller does after a poll: the interval to remember, and the
/// seconds to sleep before the next poll. After an answer both are its
/// interval; after an error the poller sleeps the last interval, if it
/// knows one, and else polls again at once.
pub fn after_poll<E>(last_interval: Option<u64>, outcome: &Result<TrackerResponse, E>) -> (next: (
    Option<u64>,
    u64,
))
    ensures
        match *outcome {
            Ok(response) => next == (Some(response.interval), response.interval),
            Err(_) => next == (
                last_interval,
                match last_interval {
                    Some(interval) => interval,
                    None => 0u64,
                },
            ),
        },
{
    match outcome {
        Ok(response) => (Some(response.interval), response.interval),
        Err(_) => match last_interval {
            Some(interval) => (last_interval, interval),
            None => (last_interval, 0),
        },
    }
}

impl TorrentDownloader {
    /// Runs the schedule to its end against peers that never fail: every
    /// round hands out pieces and takes the success of each. The loop ends
    /// because every round writes a piece; at its end every piece is
    /// written, each once. Returns the writes in their order.
    pub fn run_with_reliable_peers(&mut self, peers: &Vec<PeerAddress>, now: u64) -> (writes: Vec<
        PieceWrite,
    >)
        requires
            old(self).wf(),
            old(self).active_peers@.len() == 0,
            peers@.len() >= 1,
        ensures
            final(self).wf(),
            final(self).all_written(),
            final(self).piece_queue@.len() == 0,
            final(self).active_peers@.len() == 0,
            final(self).pieces == old(self).pieces,
            writes@.len() == unwritten(old(self).completed@),
    {
        let mut writes: Vec<PieceWrite> = Vec::new();
        while !self.is_complete()
            invariant
                self.wf(),
                self.active_peers@.len() == 0,
                peers@.len() >= 1,
                self.pieces == old(self).pieces,
                writes@.len() + unwritten(self.completed@) == unwritten(old(self).completed@),
            decreases unwritten(self.completed@),
        {
            let ghost round_start = unwritten(self.completed@);
            proof {
                assert(self.piece_queue@.len() > 0);
                assert(self.known(self.piece_queue@[0]));
                let first = self.piece_queue@[0].index as int;
                assert(queued(self.piece_queue@, first));
                assert(!self.completed@[first]);
                assert(!is_active(self.active_peers@, peers@[0]));
            }
            let ghost first_piece = self.piece_queue@[0];
            let spawned = self.dispatch(peers, now);
            proof {
                assert(self.active_peers@ =~= spawned@);
                assert(spawned@[0].piece_des == first_piece);
            }
            let mut j: usize = 0;
            while j < spawned.len()
                invariant
                    j <= spawned.len(),
                    spawned@.len() >= 1,
                    self.wf(),
                    self.pieces == old(self).pieces,
                    spawned@[0].piece_des == first_piece,
                    first_piece.index < self.pieces@.len(),
                    j == 0 ==> !self.completed@[first_piece.index as int],
                    writes@.len() + unwritten(self.completed@) == unwritten(old(self).completed@),
                    unwritten(self.completed@) <= round_start,
                    j >= 1 ==> unwritten(self.completed@) < round_start,
                    forall|x: PeerAddress|
                        is_active(self.active_peers@, x) ==> exists|m: int|
                            j <= m < spawned@.len() && (#[trigger] spawned@[m]).peer == x,
                decreases spawned.len() - j,
            {
                let session = spawned[j];
                let ghost active_before = self.active_peers@;
                match self.complete(session.peer, session.piece_des.index) {
                    Some(write) => {
                        writes.push(write);
                    },
                    None => {},
                }
                proof {
                    assert forall|x: PeerAddress|
                        is_active(self.active_peers@, x) implies exists|m: int|
                        j + 1 <= m < spawned@.len() && (#[trigger] spawned@[m]).peer == x by {
                        assert(is_active(active_before, x));
                        let m = choose|m: int|
                            j <= m < spawned@.len() && (#[trigger] spawned@[m]).peer == x;
                        assert(m != j);
                    }
                }
                j += 1;
            }
            proof {
                if self.active_peers@.len() > 0 {
                    assert(is_active(self.active_peers@, self.active_peers@[0].peer));
                }
            }
        }
        proof {
            lemma_unwritten_zero(self.completed@);
        }
        writes
    }
}

} // verus!
