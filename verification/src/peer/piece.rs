//! Pieces, the blocks they are asked for in, and their assembly.

use vstd::prelude::*;
use bytes::Bytes;
use crate::buffer::{bytes_contents, bytes_remaining, bytes_to_vec};
use crate::peer::error::PeerError;
use crate::peer::message::PeerMessage;
use crate::util::{Sha1Hash, bytes_equal, hash_sha1, sha1_digest};

verus! {

/// The size of a block: the unit in which a piece is asked for.
pub const PIECE_BLOCK_SIZE: u32 = 16384;

/// A piece of the torrent: where it stands, how long it is, what it hashes to.
#[derive(Debug, Clone, Copy, PartialEq, Eq)]
pub struct PieceDescriptor {
    pub index: u32,
    pub length: u32,
    pub hash: Sha1Hash,
}

impl PieceDescriptor {
    pub fn new(index: u32, length: u32, hash: Sha1Hash) -> (piece: Self)
        ensures
            piece.index == index,
            piece.length == length,
            piece.hash == hash,
    {
        Self { index, length, hash }
    }
}

/// One block asked of a peer.
#[derive(Debug, Clone, Copy, PartialEq, Eq, Structural)]
pub struct PieceBlockRequest {
    pub index: u32,
    pub begin: u32,
    pub length: u32,
}

/// One block as a peer sent it.
#[derive(Debug, Clone, PartialEq, Eq)]
pub struct PieceBlockResponse {
    pub index: u32,
    pub begin: u32,
    pub block: Bytes,
}

/// Number of blocks of a piece of `length` bytes: `length / 16384`, rounded up.
pub open spec fn block_count(length: nat) -> nat {
    (length + 16383) / 16384
}

/// Length of block `k` of a piece of `length` bytes: a full block, or what
/// is left.
pub open spec fn block_length(length: nat, k: nat) -> nat {
    if (k + 1) * 16384 <= length {
        16384
    } else {
        (length - k * 16384) as nat
    }
}

/// Block `k` of piece `index`, whose length is `length`.
pub open spec fn block_request(index: u32, length: u32, k: nat) -> PieceBlockRequest {
    PieceBlockRequest {
        index,
        begin: (k * 16384) as u32,
        length: block_length(length as nat, k) as u32,
    }
}

/// The requests for a piece, block by block from its start.
pub fn generate_piece_block_requests(index: u32, length: u32) -> (requests: Vec<PieceBlockRequest>)
    ensures
        requests@.len() == block_count(length as nat),
        forall|k: int|
            0 <= k < requests@.len() ==> #[trigger] requests@[k] == block_request(
                index,
                length,
                k as nat,
            ),
{
    let mut requests: Vec<PieceBlockRequest> = Vec::new();
    let mut offset: u32 = 0;
    while offset < length
        invariant
            offset <= length,
            offset == requests@.len() * 16384 || offset == length,
            offset == length ==> requests@.len() == block_count(length as nat),
            offset < length ==> requests@.len() < block_count(length as nat),
            forall|k: int|
                0 <= k < requests@.len() ==> #[trigger] requests@[k] == block_request(
                    index,
                    length,
                    k as nat,
                ),
        decreases length - offset,
    {
        let block_size = if length - offset < PIECE_BLOCK_SIZE {
            length - offset
        } else {
            PIECE_BLOCK_SIZE
        };
        requests.push(PieceBlockRequest { index, begin: offset, length: block_size });
        offset = offset + block_size;
    }
    requests
}

impl PieceBlockRequest {
    /// The message that asks for the block.
    pub fn to_message(&self) -> (message: PeerMessage)
        ensures
            message == (PeerMessage::Request {
                index: self.index,
                begin: self.begin,
                length: self.length,
            }),
    {
        PeerMessage::Request { index: self.index, begin: self.begin, length: self.length }
    }
}

/// The block that a message carries. While a block is awaited, any other
/// message is out of place.
pub fn read_piece_block(message: PeerMessage) -> (r: Result<PieceBlockResponse, PeerError>)
    ensures
        match message {
            PeerMessage::Piece { index, begin, block } => r == Ok::<PieceBlockResponse, PeerError>(
                PieceBlockResponse { index, begin, block },
            ),
            _ => r is Err && r->Err_0 == PeerError::UnexpectedMessage,
        },
{
    match message {
        PeerMessage::Piece { index, begin, block } => Ok(PieceBlockResponse { index, begin, block }),
        _ => Err(PeerError::UnexpectedMessage),
    }
}

/// A response answers a request when index and offset are those asked for
/// and the block has the length asked for.
pub open spec fn answers(req: PieceBlockRequest, res: PieceBlockResponse) -> bool {
    res.index == req.index && res.begin == req.begin && bytes_contents(res.block).len()
        == req.length
}

/// Checks a block against the request it should answer.
pub fn check_block_validity(req: &PieceBlockRequest, res: &PieceBlockResponse) -> (r: Result<
    (),
    PeerError,
>)
    ensures
        answers(*req, *res) ==> r is Ok,
        !answers(*req, *res) ==> r == Err::<(), PeerError>(PeerError::BlockMismatch),
{
    if res.index != req.index {
        return Err(PeerError::BlockMismatch);
    }
    if res.begin != req.begin {
        return Err(PeerError::BlockMismatch);
    }
    if bytes_remaining(&res.block) != req.length as usize {
        return Err(PeerError::BlockMismatch);
    }
    Ok(())
}

/// Sum of the lengths of the first `n` blocks of a piece.
pub open spec fn blocks_total(length: nat, n: nat) -> nat
    decreases n,
{
    if n == 0 {
        0
    } else {
        blocks_total(length, (n - 1) as nat) + block_length(length, (n - 1) as nat)
    }
}

/// The first `n` blocks cover the piece from its start up to where block
/// `n` begins.
pub proof fn lemma_blocks_total(length: nat, n: nat)
    requires
        n <= block_count(length),
    ensures
        blocks_total(length, n) == if n == block_count(length) {
            length
        } else {
            n * 16384
        },
    decreases n,
{
    if n > 0 {
        lemma_blocks_total(length, (n - 1) as nat);
    }
}

/// The blocks of a piece tile it: each begins where the one before it ends,
/// the first at 0 and the last ending at the piece's length; every block but
/// the last has 16384 bytes, and the last has between 1 and 16384.
pub proof fn lemma_block_partition(length: nat)
    ensures
        forall|k: nat| k < block_count(length) ==> 1 <= #[trigger] block_length(length, k) <= 16384,
        forall|k: nat|
            k + 1 < block_count(length) ==> #[trigger] block_length(length, k) == 16384,
        forall|k: nat|
            k < block_count(length) ==> #[trigger] blocks_total(length, k) == k * 16384,
        blocks_total(length, block_count(length)) == length,
{
    assert forall|k: nat| k < block_count(length) implies #[trigger] blocks_total(length, k) == k
        * 16384 by {
        lemma_blocks_total(length, k);
    }
    lemma_blocks_total(length, block_count(length));
}

/// A piece on its way: the blocks received so far stand at the front of the
/// buffer.
#[derive(Debug, Clone, PartialEq, Eq)]
pub struct PieceDownload {
    pub piece: PieceDescriptor,
    pub buffer: Vec<u8>,
    pub received: u32,
}

impl PieceDownload {
    /// The buffer has the piece's length, and the blocks received are whole
    /// blocks from the start of the piece.
    pub open spec fn wf(&self) -> bool {
        &&& self.buffer@.len() == self.piece.length
        &&& self.received <= self.piece.length
        &&& (self.received % 16384 == 0 || self.received == self.piece.length)
    }

    /// Every block has come.
    pub open spec fn complete(&self) -> bool {
        self.received == self.piece.length
    }

    /// The block to ask for next: the first that has not come.
    pub open spec fn expected(&self) -> PieceBlockRequest {
        block_request(self.piece.index, self.piece.length, (self.received / 16384) as nat)
    }

    /// A download of `piece` of which nothing has come yet.
    pub fn new(piece: PieceDescriptor) -> (download: Self)
        ensures
            download.wf(),
            download.piece == piece,
            download.received == 0,
            forall|i: int| 0 <= i < download.buffer@.len() ==> download.buffer@[i] == 0,
    {
        let buffer = vec![0u8; piece.length as usize];
        PieceDownload { piece, buffer, received: 0 }
    }

    pub fn is_complete(&self) -> (done: bool)
        ensures
            done == self.complete(),
    {
        self.received == self.piece.length
    }

    /// The request for the next block, while one is missing.
    pub fn next_request(&self) -> (request: Option<PieceBlockRequest>)
        requires
            self.wf(),
        ensures
            self.complete() ==> request is None,
            !self.complete() ==> request == Some(self.expected()),
            !self.complete() ==> self.expected().begin == self.received && 1
                <= self.expected().length <= 16384 && self.received + self.expected().length
                <= self.piece.length,
    {
        if self.received == self.piece.length {
            return None;
        }
        let left = self.piece.length - self.received;
        let length = if left < PIECE_BLOCK_SIZE {
            left
        } else {
            PIECE_BLOCK_SIZE
        };
        Some(PieceBlockRequest { index: self.piece.index, begin: self.received, length })
    }

    /// Takes in the block that answers the request for the next block; any
    /// other block is refused and changes nothing.
    pub fn accept(&mut self, response: &PieceBlockResponse) -> (r: Result<(), PeerError>)
        requires
            old(self).wf(),
            !old(self).complete(),
        ensures
            final(self).wf(),
            final(self).piece == old(self).piece,
            answers(old(self).expected(), *response) ==> r is Ok && final(self).received == old(
                self,
            ).received + old(self).expected().length && final(self).buffer@ == old(
                self,
            ).buffer@.take(old(self).received as int) + bytes_contents(response.block) + old(
                self,
            ).buffer@.skip(final(self).received as int),
            !answers(old(self).expected(), *response) ==> r == Err::<(), PeerError>(
                PeerError::BlockMismatch,
            ) && *final(self) == *old(self),
    {
        let request = match self.next_request() {
            Some(request) => request,
            None => {
                return Err(PeerError::BlockMismatch);
            },
        };
        match check_block_validity(&request, response) {
            Err(e) => {
                return Err(e);
            },
            Ok(_) => {},
        }
        let block = bytes_to_vec(&response.block);
        let begin = self.received as usize;
        let ghost before = self.buffer@;
        let mut i: usize = 0;
        while i < block.len()
            invariant
                i <= block.len(),
                begin + block.len() <= self.buffer.len(),
                self.buffer@.len() == before.len(),
                self.piece == old(self).piece,
                self.received == old(self).received,
                forall|j: int| 0 <= j < begin ==> self.buffer@[j] == before[j],
                forall|j: int| begin <= j < begin + i ==> self.buffer@[j] == block@[j - begin],
                forall|j: int| begin + i <= j < before.len() ==> self.buffer@[j] == before[j],
            decreases block.len() - i,
        {
            self.buffer.set(begin + i, block[i]);
            i += 1;
        }
        self.received = self.received + request.length;
        proof {
            assert(self.buffer@ =~= before.take(begin as int) + block@ + before.skip(
                self.received as int,
            ));
        }
        Ok(())
    }

    /// The piece, if it hashes to what its descriptor says.
    pub fn finish(self) -> (r: Result<Vec<u8>, PeerError>)
        requires
            self.wf(),
            self.complete(),
        ensures
            sha1_digest(self.buffer@) == self.piece.hash@ ==> (r matches Ok(data) && data@
                == self.buffer@),
            sha1_digest(self.buffer@) != self.piece.hash@ ==> r == Err::<Vec<u8>, PeerError>(
                PeerError::HashMismatch,
            ),
    {
        let hash = hash_sha1(self.buffer.as_slice());
        if bytes_equal(hash.as_slice(), self.piece.hash.as_slice()) {
            Ok(self.buffer)
        } else {
            Err(PeerError::HashMismatch)
        }
    }
}

} // verus!
