//! The tracker: what is asked of it and what its answer means. Sending
//! the request is the caller's part.

use vstd::prelude::*;
use vstd::string::StringExecFns;
use crate::bencode::encode::decimal;
use crate::bencode::error::Error;
use crate::bencode::grammar::parse;
use crate::bencode::typed::{bytes_of, field_of, integer_in};
use crate::bencode::value::BencodeValue;
use crate::buffer::{be_value, lemma_be_value_u32};
use crate::text::{
    decimal_string, decode_iso_8859_1, form_query, form_urlencode, is_iso_8859_1, is_latin1, latin1,
    pairs_view,
};
use crate::util::{PeerAddress, PeerId, Sha1Hash};

verus! {

/// The port that the client says it listens on.
pub const PORT: u16 = 6881;

/// What the client tells a tracker about itself and one torrent.
#[derive(Debug, Clone, PartialEq, Eq)]
pub struct Tracker {
    pub url: String,
    pub info_hash: Sha1Hash,
    pub peer_id: PeerId,
    pub port: u16,
    pub uploaded: u64,
    pub downloaded: u64,
    pub left: u64,
}

/// The parameters of an announce. The two byte strings are held as text
/// whose characters have the bytes as code points.
#[derive(Debug, Clone, PartialEq, Eq)]
pub struct TrackerRequest {
    pub info_hash: String,
    pub peer_id: String,
    pub port: u16,
    pub uploaded: u64,
    pub downloaded: u64,
    pub left: u64,
    pub compact: bool,
}

/// `rand::random` for twenty bytes. Nothing is known of them.
#[verifier::external_body]
fn random_peer_id() -> (id: PeerId) {
    rand::random()
}

impl Tracker {
    /// A tracker for a torrent of `size` bytes of which nothing is
    /// downloaded, under a peer id drawn at random.
    pub fn new(announce: String, info_hash: Sha1Hash, size: u64) -> (tracker: Self)
        ensures
            tracker.url == announce,
            tracker.info_hash == info_hash,
            tracker.port == 6881,
            tracker.uploaded == 0,
            tracker.downloaded == 0,
            tracker.left == size,
    {
        Self::with_peer_id(announce, info_hash, size, random_peer_id())
    }

    /// A tracker for a torrent of `size` bytes of which nothing is
    /// downloaded, under the peer id given.
    pub fn with_peer_id(announce: String, info_hash: Sha1Hash, size: u64, peer_id: PeerId) -> (tracker:
        Self)
        ensures
            tracker == (Tracker {
                url: announce,
                info_hash,
                peer_id,
                port: 6881,
                uploaded: 0,
                downloaded: 0,
                left: size,
            }),
    {
        Tracker {
            url: announce,
            info_hash,
            peer_id,
            port: PORT,
            uploaded: 0,
            downloaded: 0,
            left: size,
        }
    }

    /// The parameters of the announce that a poll sends.
    pub open spec fn pairs(&self) -> Seq<(Seq<char>, Seq<char>)> {
        seq![
            ("info_hash"@, latin1(self.info_hash@)),
            ("peer_id"@, latin1(self.peer_id@)),
            ("port"@, latin1(decimal(self.port as nat))),
            ("uploaded"@, latin1(decimal(self.uploaded as nat))),
            ("downloaded"@, latin1(decimal(self.downloaded as nat))),
            ("left"@, latin1(decimal(self.left as nat))),
            ("compact"@, "1"@),
        ]
    }

    pub fn info_hash(&self) -> (hash: &Sha1Hash)
        ensures
            *hash == self.info_hash,
    {
        &self.info_hash
    }

    pub fn peer_id(&self) -> (id: &PeerId)
        ensures
            *id == self.peer_id,
    {
        &self.peer_id
    }

    /// The announce that a poll sends: compact, with the two byte strings
    /// as ISO 8859-1 text.
    pub fn request(&self) -> (request: TrackerRequest)
        ensures
            request.wf(),
            request.info_hash@ == latin1(self.info_hash@),
            request.peer_id@ == latin1(self.peer_id@),
            request.port == self.port,
            request.uploaded == self.uploaded,
            request.downloaded == self.downloaded,
            request.left == self.left,
            request.compact,
    {
        TrackerRequest {
            info_hash: decode_iso_8859_1(self.info_hash.as_slice()),
            peer_id: decode_iso_8859_1(self.peer_id.as_slice()),
            port: self.port,
            uploaded: self.uploaded,
            downloaded: self.downloaded,
            left: self.left,
            compact: true,
        }
    }

    /// The address to fetch for a poll: the announce URL, `?` and the query.
    pub fn poll_url(&self) -> (url: String)
        ensures
            url@ == self.url@ + seq!['?'] + form_query(self.pairs()),
    {
        let request = self.request();
        let query = url_encode(&request);
        let mut url = self.url.clone();
        proof {
            reveal_strlit("?");
        }
        url.append("?");
        url.append(query.as_str());
        proof {
            assert(url@ =~= self.url@ + seq!['?'] + query@);
            assert(request.pairs() =~= self.pairs());
        }
        url
    }
}

impl TrackerRequest {
    /// The byte strings hold no character beyond code point 255.
    pub open spec fn wf(&self) -> bool {
        is_latin1(self.info_hash@) && is_latin1(self.peer_id@)
    }

    /// Whether the two byte strings are held as ISO 8859-1 text.
    pub fn check(&self) -> (sound: bool)
        ensures
            sound == self.wf(),
    {
        is_iso_8859_1(self.info_hash.as_str()) && is_iso_8859_1(self.peer_id.as_str())
    }

    /// The parameters by name, in the order in which they are sent.
    pub open spec fn pairs(&self) -> Seq<(Seq<char>, Seq<char>)> {
        seq![
            ("info_hash"@, self.info_hash@),
            ("peer_id"@, self.peer_id@),
            ("port"@, latin1(decimal(self.port as nat))),
            ("uploaded"@, latin1(decimal(self.uploaded as nat))),
            ("downloaded"@, latin1(decimal(self.downloaded as nat))),
            ("left"@, latin1(decimal(self.left as nat))),
            (
                "compact"@,
                if self.compact {
                    "1"@
                } else {
                    "0"@
                },
            ),
        ]
    }
}

/// The query string of an announce.
pub fn url_encode(input: &TrackerRequest) -> (query: String)
    requires
        input.wf(),
    ensures
        query@ == form_query(input.pairs()),
{
    proof {
        reveal_strlit("info_hash");
        reveal_strlit("peer_id");
        reveal_strlit("port");
        reveal_strlit("uploaded");
        reveal_strlit("downloaded");
        reveal_strlit("left");
        reveal_strlit("compact");
        reveal_strlit("1");
        reveal_strlit("0");
    }
    let mut pairs: Vec<(String, String)> = Vec::new();
    pairs.push(("info_hash".to_owned(), input.info_hash.clone()));
    pairs.push(("peer_id".to_owned(), input.peer_id.clone()));
    pairs.push(("port".to_owned(), decimal_string(input.port as u64)));
    pairs.push(("uploaded".to_owned(), decimal_string(input.uploaded)));
    pairs.push(("downloaded".to_owned(), decimal_string(input.downloaded)));
    pairs.push(("left".to_owned(), decimal_string(input.left)));
    let compact = if input.compact {
        "1".to_owned()
    } else {
        "0".to_owned()
    };
    pairs.push(("compact".to_owned(), compact));
    proof {
        assert(pairs_view(pairs@) =~= input.pairs());
    }
    form_urlencode(&pairs)
}

/// Why a tracker's answer is of no use.
#[derive(Debug, Clone, Copy, PartialEq, Eq, Structural)]
pub enum TrackerError {
    /// The answer is no bencode, or lacks a field, or a field is of the
    /// wrong kind.
    Decode(Error),
    /// The peer list is not made of entries of six bytes.
    PeerList,
}

/// The peers that a tracker knows.
#[derive(Debug, Clone, PartialEq, Eq)]
pub struct Peers(pub Vec<PeerAddress>);

/// A tracker's answer: the seconds to wait before the next poll, and the
/// peers.
#[derive(Debug, Clone, PartialEq, Eq)]
pub struct TrackerResponse {
    pub interval: u64,
    pub peers: Peers,
}

/// The key `interval`.
pub const KEY_INTERVAL: [u8; 8] = [105, 110, 116, 101, 114, 118, 97, 108];

/// The key `peers`.
pub const KEY_PEERS: [u8; 5] = [112, 101, 101, 114, 115];

/// Entry `i` of a compact peer list: four bytes of address and two of
/// port, each most significant byte first.
pub open spec fn peer_at(s: Seq<u8>, i: int) -> PeerAddress {
    PeerAddress {
        ip: be_value(s.subrange(6 * i, 6 * i + 4)) as u32,
        port: be_value(s.subrange(6 * i + 4, 6 * i + 6)) as u16,
    }
}

/// The entries of a compact peer list.
pub open spec fn peers_of(s: Seq<u8>) -> Seq<PeerAddress> {
    Seq::new(s.len() / 6, |i: int| peer_at(s, i))
}

/// What the body of a tracker's answer means.
pub open spec fn decode_response(body: Seq<u8>) -> Result<(u64, Seq<PeerAddress>), TrackerError> {
    match parse(body) {
        Err(e) => Err(TrackerError::Decode(e)),
        Ok(v) => match field_of(v, KEY_INTERVAL@) {
            Err(e) => Err(TrackerError::Decode(e)),
            Ok(interval) => match integer_in(interval, 0, i64::MAX as int) {
                Err(e) => Err(TrackerError::Decode(e)),
                Ok(seconds) => match field_of(v, KEY_PEERS@) {
                    Err(e) => Err(TrackerError::Decode(e)),
                    Ok(peers) => match bytes_of(peers) {
                        Err(e) => Err(TrackerError::Decode(e)),
                        Ok(list) => if list.len() % 6 == 0 {
                            Ok((seconds as u64, peers_of(list)))
                        } else {
                            Err(TrackerError::PeerList)
                        },
                    },
                },
            },
        },
    }
}

/// The number that two bytes read as.
proof fn lemma_be_value_u16(s: Seq<u8>)
    requires
        s.len() == 2,
    ensures
        be_value(s) == s[0] * 256 + s[1],
{
    let a = s.drop_last();
    assert(a.drop_last().len() == 0);
    assert(be_value(a.drop_last()) == 0);
    assert(a.last() == s[0]);
    assert(be_value(a) == s[0]);
    assert(s.last() == s[1]);
}

/// Reads a compact peer list, whose length must be a multiple of six.
pub fn parse_peers(list: &[u8]) -> (peers: Vec<PeerAddress>)
    requires
        list@.len() % 6 == 0,
    ensures
        peers@ == peers_of(list@),
{
    let mut peers: Vec<PeerAddress> = Vec::new();
    let length = list.len();
    let count = length / 6;
    let mut i: usize = 0;
    while i < count
        invariant
            i <= count,
            length == list@.len(),
            count == list@.len() / 6,
            list@.len() % 6 == 0,
            peers@.len() == i,
            forall|j: int| 0 <= j < i ==> peers@[j] == peer_at(list@, j),
        decreases count - i,
    {
        assert(6 * i + 6 <= list@.len());
        let at = 6 * i;
        proof {
            let address = list@.subrange(6 * i as int, 6 * i + 4);
            let port = list@.subrange(6 * i + 4, 6 * i + 6);
            lemma_be_value_u32(address);
            lemma_be_value_u16(port);
        }
        let ip = (list[at] as u32) * 0x100_0000 + (list[at + 1] as u32) * 0x1_0000 + (list[at
            + 2] as u32) * 0x100 + (list[at + 3] as u32);
        let port = (list[at + 4] as u16) * 256 + (list[at + 5] as u16);
        peers.push(PeerAddress { ip, port });
        i += 1;
    }
    proof {
        assert(peers@ =~= peers_of(list@));
    }
    peers
}

impl TrackerResponse {
    /// Decodes the body of a tracker's answer.
    pub fn from_bytes(body: &[u8]) -> (r: Result<TrackerResponse, TrackerError>)
        ensures
            match decode_response(body@) {
                Ok((interval, peers)) => r matches Ok(response) && response.interval == interval
                    && response.peers.0@ == peers,
                Err(e) => r is Err && r->Err_0 == e,
            },
    {
        let value = match BencodeValue::try_from_bytes(body) {
            Err(e) => {
                return Err(TrackerError::Decode(e));
            },
            Ok(value) => value,
        };
        let interval = match value.get(KEY_INTERVAL.as_slice()) {
            Err(e) => {
                return Err(TrackerError::Decode(e));
            },
            Ok(field) => match field.to_u64() {
                Err(e) => {
                    return Err(TrackerError::Decode(e));
                },
                Ok(seconds) => seconds,
            },
        };
        let list = match value.get(KEY_PEERS.as_slice()) {
            Err(e) => {
                return Err(TrackerError::Decode(e));
            },
            Ok(field) => match field.as_bytes() {
                Err(e) => {
                    return Err(TrackerError::Decode(e));
                },
                Ok(list) => list,
            },
        };
        if list.len() % 6 != 0 {
            return Err(TrackerError::PeerList);
        }
        Ok(TrackerResponse { interval, peers: Peers(parse_peers(list.as_slice())) })
    }
}

impl Peers {
    pub fn into_socket_addrs(self) -> (addrs: Vec<PeerAddress>)
        ensures
            addrs == self.0,
    {
        self.0
    }
}

/// A peer as text: the four bytes of the address in decimal with dots
/// between them, a colon, the port, and a line break.
pub open spec fn peer_line(peer: PeerAddress) -> Seq<char> {
    latin1(decimal((peer.ip / 0x100_0000) as nat)) + "."@ + latin1(
        decimal((peer.ip / 0x1_0000 % 256) as nat),
    ) + "."@ + latin1(decimal((peer.ip / 0x100 % 256) as nat)) + "."@ + latin1(
        decimal((peer.ip % 256) as nat),
    ) + ":"@ + latin1(decimal(peer.port as nat)) + "\n"@
}

/// One line for each peer.
pub open spec fn peer_lines(peers: Seq<PeerAddress>) -> Seq<char>
    decreases peers.len(),
{
    if peers.len() == 0 {
        Seq::empty()
    } else {
        peer_lines(peers.drop_last()) + peer_line(peers.last())
    }
}

/// A number and the text that follows it, appended to `text`.
fn append_number(text: &mut String, n: u64, then: &str)
    ensures
        final(text)@ == old(text)@ + latin1(decimal(n as nat)) + then@,
{
    text.append(decimal_string(n).as_str());
    text.append(then);
}

/// The line of one peer.
pub fn peer_text(peer: PeerAddress) -> (text: String)
    ensures
        text@ == peer_line(peer),
{
    let mut text = String::new();
    append_number(&mut text, (peer.ip / 0x100_0000) as u64, ".");
    append_number(&mut text, (peer.ip / 0x1_0000 % 256) as u64, ".");
    append_number(&mut text, (peer.ip / 0x100 % 256) as u64, ".");
    append_number(&mut text, (peer.ip % 256) as u64, ":");
    append_number(&mut text, peer.port as u64, "\n");
    proof {
        assert(text@ =~= peer_line(peer));
    }
    text
}

impl Peers {
    /// The peers as text, as they are printed.
    pub fn render(&self) -> (text: String)
        ensures
            text@ == peer_lines(self.0@),
    {
        let mut text = String::new();
        let mut i: usize = 0;
        proof {
            assert(text@ =~= peer_lines(self.0@.take(0)));
        }
        while i < self.0.len()
            invariant
                i <= self.0.len(),
                text@ == peer_lines(self.0@.take(i as int)),
            decreases self.0.len() - i,
        {
            text.append(peer_text(self.0[i]).as_str());
            proof {
                let next = self.0@.take(i + 1);
                assert(next.drop_last() =~= self.0@.take(i as int));
                assert(next.last() == self.0@[i as int]);
            }
            i += 1;
        }
        proof {
            assert(self.0@.take(i as int) =~= self.0@);
        }
        text
    }
}

} // verus!
