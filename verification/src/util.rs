//! Hashing and piece geometry shared by the rest of the crate.

use vstd::prelude::*;

verus! {

/// Twenty bytes that identify a client for the length of a session.
pub type PeerId = [u8; 20];

/// A SHA-1 digest.
pub type Sha1Hash = [u8; 20];

/// Where a peer listens: an IPv4 address as a 32-bit number, most
/// significant byte first, and a port.
#[derive(Debug, Clone, Copy, PartialEq, Eq, Hash, Structural)]
pub struct PeerAddress {
    pub ip: u32,
    pub port: u16,
}

/// The SHA-1 digest of a byte sequence, as the `sha1` crate computes it.
pub uninterp spec fn sha1_digest(data: Seq<u8>) -> Seq<u8>;

/// Hashes `value` with `sha1::Sha1` (`new`, `update`, `finalize`).
///
/// Trusted: the twenty bytes returned are the digest that the `sha1` crate
/// computes for these bytes, which depends on the bytes alone.
#[verifier::external_body]
pub fn hash_sha1(value: &[u8]) -> (hash: Sha1Hash)
    ensures
        hash@ == sha1_digest(value@),
{
    let mut hasher = <sha1::Sha1 as sha1::Digest>::new();
    sha1::Digest::update(&mut hasher, value);
    sha1::Digest::finalize(hasher).into()
}

/// Length of the piece that starts at byte `index * piece_length` of a
/// torrent of `torrent_length` bytes: a full piece, or what is left.
pub open spec fn piece_length_at(piece_length: nat, torrent_length: nat, index: nat) -> nat {
    let start = index * piece_length;
    if start + piece_length <= torrent_length {
        piece_length
    } else {
        (torrent_length - start) as nat
    }
}

/// Number of pieces of a torrent: `torrent_length / piece_length`, rounded up.
pub open spec fn piece_count(piece_length: nat, torrent_length: nat) -> nat
    recommends
        piece_length > 0,
{
    if torrent_length == 0 {
        0
    } else {
        ((torrent_length - 1) / (piece_length as int) + 1) as nat
    }
}

/// Sum of the lengths of the first `n` pieces.
pub open spec fn piece_lengths_sum(piece_length: nat, torrent_length: nat, n: nat) -> nat
    decreases n,
{
    if n == 0 {
        0
    } else {
        piece_lengths_sum(piece_length, torrent_length, (n - 1) as nat) + piece_length_at(
            piece_length,
            torrent_length,
            (n - 1) as nat,
        )
    }
}

/// Length of piece `piece_index`. The piece must start inside the torrent.
pub fn calculate_piece_length(piece_length: u32, torrent_length: u64, piece_index: u32) -> (length:
    u32)
    requires
        piece_index as nat * piece_length as nat <= torrent_length,
    ensures
        length == piece_length_at(piece_length as nat, torrent_length as nat, piece_index as nat),
{
    assert(piece_index as nat * piece_length as nat <= 0xffff_ffff * 0xffff_ffff)
        by (nonlinear_arith)
        requires
            piece_index <= 0xffff_ffff,
            piece_length <= 0xffff_ffff,
    ;
    let start: u64 = piece_index as u64 * piece_length as u64;
    let left: u64 = torrent_length - start;
    if left >= piece_length as u64 {
        piece_length
    } else {
        left as u32
    }
}

/// The first `k` pieces cover the torrent from its start up to where piece
/// `k` begins.
pub proof fn lemma_piece_lengths_sum(piece_length: nat, torrent_length: nat, k: nat)
    requires
        piece_length > 0,
        k <= piece_count(piece_length, torrent_length),
    ensures
        piece_lengths_sum(piece_length, torrent_length, k) == if k == piece_count(
            piece_length,
            torrent_length,
        ) {
            torrent_length
        } else {
            k * piece_length
        },
    decreases k,
{
    let p = piece_length as int;
    let l = torrent_length as int;
    if k > 0 {
        lemma_piece_lengths_sum(piece_length, torrent_length, (k - 1) as nat);
        let q = (l - 1) / p;
        assert(q * p <= l - 1 && l - 1 < q * p + p) by (nonlinear_arith)
            requires
                p > 0,
                l >= 1,
                q == (l - 1) / p,
        ;
        assert((k - 1) * p + p == k * p) by (nonlinear_arith);
        if k < piece_count(piece_length, torrent_length) {
            assert(k * p <= q * p) by (nonlinear_arith)
                requires
                    k <= q,
                    p > 0,
            ;
        } else {
            assert((k - 1) * p == q * p);
        }
    }
}

/// The piece length law: the lengths of the pieces add up to the length
/// of the torrent, every piece but the last has the piece length, and the
/// last has `((L - 1) mod P) + 1` bytes.
pub proof fn lemma_piece_length_law(piece_length: nat, torrent_length: nat)
    requires
        piece_length > 0,
    ensures
        piece_lengths_sum(
            piece_length,
            torrent_length,
            piece_count(piece_length, torrent_length),
        ) == torrent_length,
        forall|i: nat|
            i + 1 < piece_count(piece_length, torrent_length) ==> #[trigger] piece_length_at(
                piece_length,
                torrent_length,
                i,
            ) == piece_length,
        torrent_length > 0 ==> piece_length_at(
            piece_length,
            torrent_length,
            (piece_count(piece_length, torrent_length) - 1) as nat,
        ) == ((torrent_length - 1) % (piece_length as int)) + 1,
        forall|i: nat|
            i < piece_count(piece_length, torrent_length) ==> 1 <= #[trigger] piece_length_at(
                piece_length,
                torrent_length,
                i,
            ) <= piece_length,
{
    let p = piece_length as int;
    let l = torrent_length as int;
    let n = piece_count(piece_length, torrent_length);
    lemma_piece_lengths_sum(piece_length, torrent_length, n);
    if torrent_length > 0 {
        let q = (l - 1) / p;
        assert(q * p + (l - 1) % p == l - 1 && 0 <= (l - 1) % p < p) by (nonlinear_arith)
            requires
                p > 0,
                l >= 1,
                q == (l - 1) / p,
        ;
        assert forall|i: nat| i + 1 < n implies #[trigger] piece_length_at(
            piece_length,
            torrent_length,
            i,
        ) == piece_length by {
            assert(i * p + p <= q * p) by (nonlinear_arith)
                requires
                    i + 1 <= q,
                    p > 0,
            ;
        }
        assert forall|i: nat| i < n implies 1 <= #[trigger] piece_length_at(
            piece_length,
            torrent_length,
            i,
        ) <= piece_length by {
            if i + 1 < n {
            } else {
                assert(i == q);
            }
        }
    }
}

/// Whether two slices hold the same bytes.
pub fn bytes_equal(a: &[u8], b: &[u8]) -> (same: bool)
    ensures
        same == (a@ == b@),
{
    if a.len() != b.len() {
        return false;
    }
    let mut i: usize = 0;
    while i < a.len()
        invariant
            i <= a.len(),
            a.len() == b.len(),
            forall|j: int| 0 <= j < i ==> a@[j] == b@[j],
        decreases a.len() - i,
    {
        if a[i] != b[i] {
            return false;
        }
        i += 1;
    }
    assert(a@ =~= b@);
    true
}

/// The twenty bytes of `v` as an array.
pub fn to_hash(v: &[u8]) -> (hash: [u8; 20])
    requires
        v@.len() == 20,
    ensures
        hash@ == v@,
{
    let mut hash: [u8; 20] = [0u8; 20];
    let mut i: usize = 0;
    while i < 20
        invariant
            i <= 20,
            v@.len() == 20,
            forall|j: int| 0 <= j < i ==> hash@[j] == v@[j],
        decreases 20 - i,
    {
        hash[i] = v[i];
        i += 1;
    }
    assert(hash@ =~= v@);
    hash
}

/// Byte strings that hold arrays of `N` bytes, one after the other.
pub struct ArrayChunksWithLength<const N: usize>;

/// The chunks of `n` bytes that `s` is made of.
pub open spec fn chunks_of(s: Seq<u8>, n: nat) -> Seq<Seq<u8>> {
    Seq::new(s.len() / n, |i: int| s.subrange(i * n, i * n + n))
}

/// The chunks one after the other.
pub open spec fn chunks_joined(chunks: Seq<Seq<u8>>) -> Seq<u8>
    decreases chunks.len(),
{
    if chunks.len() == 0 {
        Seq::empty()
    } else {
        chunks_joined(chunks.drop_last()) + chunks.last()
    }
}

/// Chunks of one length are read back from their concatenation.
pub proof fn lemma_chunks_round_trip(chunks: Seq<Seq<u8>>, n: nat)
    requires
        n > 0,
        forall|i: int| 0 <= i < chunks.len() ==> (#[trigger] chunks[i]).len() == n,
    ensures
        chunks_joined(chunks).len() == chunks.len() * n,
        chunks_of(chunks_joined(chunks), n) == chunks,
    decreases chunks.len(),
{
    let joined = chunks_joined(chunks);
    if chunks.len() == 0 {
        assert(chunks_of(joined, n) =~= chunks);
    } else {
        let front = chunks.drop_last();
        let last = chunks.last();
        let k = chunks.len() as int;
        lemma_chunks_round_trip(front, n);
        let front_joined = chunks_joined(front);
        assert((k - 1) * n + n == k * n) by (nonlinear_arith);
        assert((k * n) / (n as int) == k) by (nonlinear_arith)
            requires
                n > 0,
        ;
        let read = chunks_of(joined, n);
        assert forall|i: int| 0 <= i < k implies read[i] == chunks[i] by {
            assert(i * n + n <= k * n) by (nonlinear_arith)
                requires
                    0 <= i < k,
                    n > 0,
            ;
            if i < k - 1 {
                assert(i * n + n <= (k - 1) * n) by (nonlinear_arith)
                    requires
                        0 <= i < k - 1,
                        n > 0,
                ;
                assert(0 <= i * n) by (nonlinear_arith)
                    requires
                        0 <= i,
                ;
                assert(joined.subrange(i * n, i * n + n) =~= front_joined.subrange(
                    i * n,
                    i * n + n,
                ));
                assert(chunks_of(front_joined, n)[i] == front[i]);
            } else {
                assert(joined.subrange(i * n, i * n + n) =~= last);
            }
        }
        assert(read =~= chunks);
    }
}

/// The arrays of a vector as sequences.
pub open spec fn arrays_view<const N: usize>(v: Seq<[u8; N]>) -> Seq<Seq<u8>> {
    Seq::new(v.len(), |i: int| v[i]@)
}

impl<const N: usize> ArrayChunksWithLength<N> {
    /// Splits bytes into arrays of `N`; `None` where the length is no
    /// multiple of `N`.
    pub fn deserialize_as(bytes: &[u8]) -> (r: Option<Vec<[u8; N]>>)
        requires
            N > 0,
        ensures
            bytes@.len() % (N as nat) == 0 ==> (r matches Some(v) && arrays_view(v@) == chunks_of(
                bytes@,
                N as nat,
            )),
            bytes@.len() % (N as nat) != 0 ==> r is None,
    {
        let length = bytes.len();
        if length % N != 0 {
            return None;
        }
        let count = length / N;
        let mut result: Vec<[u8; N]> = Vec::new();
        let mut i: usize = 0;
        while i < count
            invariant
                N > 0,
                i <= count,
                length == bytes@.len(),
                count == length / N,
                length % N == 0,
                result@.len() == i,
                forall|j: int| 0 <= j < i ==> (#[trigger] result@[j])@ == bytes@.subrange(
                    j * N,
                    j * N + N,
                ),
            decreases count - i,
        {
            assert(i * N + N <= length) by (nonlinear_arith)
                requires
                    i < count,
                    count == length / N,
                    N > 0,
            ;
            let start = i * N;
            let mut chunk: [u8; N] = [0u8; N];
            let mut k: usize = 0;
            while k < N
                invariant
                    k <= N,
                    start + N <= length,
                    length == bytes@.len(),
                    forall|j: int| 0 <= j < k ==> chunk@[j] == bytes@[start + j],
                decreases N - k,
            {
                chunk[k] = bytes[start + k];
                k += 1;
            }
            proof {
                assert(chunk@ =~= bytes@.subrange(i * N, i * N + N));
            }
            result.push(chunk);
            i += 1;
        }
        proof {
            assert(arrays_view(result@) =~= chunks_of(bytes@, N as nat));
        }
        Some(result)
    }

    /// The arrays as one byte string.
    pub fn serialize_as(source: &Vec<[u8; N]>) -> (bytes: Vec<u8>)
        ensures
            bytes@ == chunks_joined(arrays_view(source@)),
    {
        let mut bytes: Vec<u8> = Vec::new();
        let ghost chunks = arrays_view(source@);
        let mut i: usize = 0;
        while i < source.len()
            invariant
                i <= source.len(),
                chunks == arrays_view(source@),
                bytes@ == chunks_joined(chunks.take(i as int)),
            decreases source.len() - i,
        {
            bytes.extend_from_slice(source[i].as_slice());
            proof {
                let next = chunks.take(i + 1);
                assert(next.drop_last() =~= chunks.take(i as int));
                assert(next.last() == source@[i as int]@);
            }
            i += 1;
        }
        proof {
            assert(chunks.take(i as int) =~= chunks);
        }
        bytes
    }
}

/// A lower-case hexadecimal digit.
pub open spec fn hex_digit(d: int) -> char {
    if d < 10 {
        (48 + d) as u8 as char
    } else {
        (87 + d) as u8 as char
    }
}

/// Two lower-case hexadecimal digits for each byte.
pub open spec fn hex_lower(bytes: Seq<u8>) -> Seq<char>
    decreases bytes.len(),
{
    if bytes.len() == 0 {
        Seq::empty()
    } else {
        hex_lower(bytes.drop_last()) + seq![
            hex_digit(bytes.last() as int / 16),
            hex_digit(bytes.last() as int % 16),
        ]
    }
}

/// `hex::encode`. Trusted: it writes each byte as two lower-case
/// hexadecimal digits, the high one first.
#[verifier::external_body]
pub(crate) fn hex_encode(data: &[u8]) -> (text: String)
    ensures
        text@ == hex_lower(data@),
{
    hex::encode(data)
}

} // verus!
