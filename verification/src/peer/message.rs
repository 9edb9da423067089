//! Messages and the handshake, to and from their bytes on the wire.

use vstd::prelude::*;
use bytes::Bytes;
use crate::buffer::{
    be_bytes, be_value, bytes_contents, bytes_copy_to_bytes, bytes_get_u32,
    bytes_get_u64, bytes_get_u8, bytes_mut_contents, bytes_mut_freeze, bytes_mut_new,
    bytes_mut_put, bytes_mut_put_slice, bytes_mut_put_u32, bytes_mut_put_u64, bytes_mut_put_u8,
    bytes_mut_with_capacity, bytes_remaining, bytes_to_vec, lemma_be_bytes_len,
    lemma_be_bytes_of_value, lemma_be_value_of_bytes, lemma_be_value_u32, lemma_pow256,
};
use crate::peer::error::PeerError;
use crate::util::{PeerId, Sha1Hash, bytes_equal, to_hash};

verus! {

/// A message of the peer wire protocol. A frame of length zero, which has
/// no id, is the keep-alive.
#[derive(Debug, Clone, PartialEq, Eq)]
pub enum PeerMessage {
    KeepAlive,
    Choke,
    Unchoke,
    Interested,
    NotInterested,
    Have { index: u32 },
    Bitfield { payload: Bytes },
    Request { index: u32, begin: u32, length: u32 },
    Piece { index: u32, begin: u32, block: Bytes },
    Cancel { index: u32, begin: u32, length: u32 },
}

/// A message with its payloads as plain bytes.
pub enum Message {
    KeepAlive,
    Choke,
    Unchoke,
    Interested,
    NotInterested,
    Have { index: u32 },
    Bitfield { payload: Seq<u8> },
    Request { index: u32, begin: u32, length: u32 },
    Piece { index: u32, begin: u32, block: Seq<u8> },
    Cancel { index: u32, begin: u32, length: u32 },
}

impl View for PeerMessage {
    type V = Message;

    open spec fn view(&self) -> Message {
        match *self {
            PeerMessage::KeepAlive => Message::KeepAlive,
            PeerMessage::Choke => Message::Choke,
            PeerMessage::Unchoke => Message::Unchoke,
            PeerMessage::Interested => Message::Interested,
            PeerMessage::NotInterested => Message::NotInterested,
            PeerMessage::Have { index } => Message::Have { index },
            PeerMessage::Bitfield { payload } => Message::Bitfield {
                payload: bytes_contents(payload),
            },
            PeerMessage::Request { index, begin, length } => Message::Request {
                index,
                begin,
                length,
            },
            PeerMessage::Piece { index, begin, block } => Message::Piece {
                index,
                begin,
                block: bytes_contents(block),
            },
            PeerMessage::Cancel { index, begin, length } => Message::Cancel {
                index,
                begin,
                length,
            },
        }
    }
}

/// Three numbers of 32 bits, each most significant byte first.
pub open spec fn triple(a: u32, b: u32, c: u32) -> Seq<u8> {
    be_bytes(a as nat, 4) + be_bytes(b as nat, 4) + be_bytes(c as nat, 4)
}

impl Message {
    /// What a frame carries behind its length: the id and the payload, or
    /// nothing for a keep-alive.
    pub open spec fn body(self) -> Seq<u8> {
        match self {
            Message::KeepAlive => Seq::empty(),
            Message::Choke => seq![0u8],
            Message::Unchoke => seq![1u8],
            Message::Interested => seq![2u8],
            Message::NotInterested => seq![3u8],
            Message::Have { index } => seq![4u8] + be_bytes(index as nat, 4),
            Message::Bitfield { payload } => seq![5u8] + payload,
            Message::Request { index, begin, length } => seq![6u8] + triple(index, begin, length),
            Message::Piece { index, begin, block } => seq![7u8] + be_bytes(index as nat, 4)
                + be_bytes(begin as nat, 4) + block,
            Message::Cancel { index, begin, length } => seq![8u8] + triple(index, begin, length),
        }
    }

    /// The frame of the message: the length of the body in four bytes, most
    /// significant first, and the body.
    pub open spec fn frame(self) -> Seq<u8> {
        be_bytes(self.body().len(), 4) + self.body()
    }
}

/// The message that the body of a frame holds.
pub open spec fn parse_body(s: Seq<u8>) -> Result<Message, PeerError> {
    if s.len() == 0 {
        Ok(Message::KeepAlive)
    } else {
        let id = s[0];
        let rest = s.skip(1);
        if id <= 3 {
            if rest.len() != 0 {
                Err(PeerError::Malformed)
            } else if id == 0 {
                Ok(Message::Choke)
            } else if id == 1 {
                Ok(Message::Unchoke)
            } else if id == 2 {
                Ok(Message::Interested)
            } else {
                Ok(Message::NotInterested)
            }
        } else if id == 4 {
            if rest.len() != 4 {
                Err(PeerError::Malformed)
            } else {
                Ok(Message::Have { index: be_value(rest) as u32 })
            }
        } else if id == 5 {
            Ok(Message::Bitfield { payload: rest })
        } else if id == 6 || id == 8 {
            if rest.len() != 12 {
                Err(PeerError::Malformed)
            } else {
                let index = be_value(rest.subrange(0, 4)) as u32;
                let begin = be_value(rest.subrange(4, 8)) as u32;
                let length = be_value(rest.subrange(8, 12)) as u32;
                if id == 6 {
                    Ok(Message::Request { index, begin, length })
                } else {
                    Ok(Message::Cancel { index, begin, length })
                }
            }
        } else if id == 7 {
            if rest.len() < 8 {
                Err(PeerError::Malformed)
            } else {
                Ok(
                    Message::Piece {
                        index: be_value(rest.subrange(0, 4)) as u32,
                        begin: be_value(rest.subrange(4, 8)) as u32,
                        block: rest.skip(8),
                    },
                )
            }
        } else {
            Err(PeerError::UnknownMessage(id))
        }
    }
}

/// Accepts a payload that must be empty.
fn parse_empty(input: Bytes) -> (r: Result<(), PeerError>)
    ensures
        bytes_contents(input).len() == 0 ==> r is Ok,
        bytes_contents(input).len() != 0 ==> r == Err::<(), PeerError>(PeerError::Malformed),
{
    if bytes_remaining(&input) > 0 {
        Err(PeerError::Malformed)
    } else {
        Ok(())
    }
}

/// Reads the three numbers of a request or a cancel.
fn parse_request_payload(input: Bytes) -> (r: Result<(u32, u32, u32), PeerError>)
    ensures
        ({
            let s = bytes_contents(input);
            if s.len() == 12 {
                r == Ok::<(u32, u32, u32), PeerError>(
                    (
                        be_value(s.subrange(0, 4)) as u32,
                        be_value(s.subrange(4, 8)) as u32,
                        be_value(s.subrange(8, 12)) as u32,
                    ),
                )
            } else {
                r == Err::<(u32, u32, u32), PeerError>(PeerError::Malformed)
            }
        }),
{
    let mut input = input;
    let ghost s = bytes_contents(input);
    if bytes_remaining(&input) != 12 {
        return Err(PeerError::Malformed);
    }
    let index = bytes_get_u32(&mut input);
    let begin = bytes_get_u32(&mut input);
    let length = bytes_get_u32(&mut input);
    proof {
        assert(s.take(4) =~= s.subrange(0, 4));
        assert(s.skip(4).take(4) =~= s.subrange(4, 8));
        assert(s.skip(4).skip(4).take(4) =~= s.subrange(8, 12));
    }
    Ok((index, begin, length))
}

impl PeerMessage {
    /// Reads the message that the body of a frame holds: the bytes behind
    /// the length prefix.
    pub fn parse(input: Bytes) -> (r: Result<PeerMessage, PeerError>)
        ensures
            match parse_body(bytes_contents(input)) {
                Ok(m) => r matches Ok(x) && x@ == m,
                Err(e) => r == Err::<PeerMessage, PeerError>(e),
            },
    {
        let mut input = input;
        let ghost s = bytes_contents(input);
        if bytes_remaining(&input) == 0 {
            return Ok(PeerMessage::KeepAlive);
        }
        let message_id = bytes_get_u8(&mut input);
        if message_id <= 3 {
            match parse_empty(input) {
                Err(e) => Err(e),
                Ok(_) => if message_id == 0 {
                    Ok(PeerMessage::Choke)
                } else if message_id == 1 {
                    Ok(PeerMessage::Unchoke)
                } else if message_id == 2 {
                    Ok(PeerMessage::Interested)
                } else {
                    Ok(PeerMessage::NotInterested)
                },
            }
        } else if message_id == 4 {
            if bytes_remaining(&input) != 4 {
                return Err(PeerError::Malformed);
            }
            let index = bytes_get_u32(&mut input);
            proof {
                assert(s.skip(1).take(4) =~= s.skip(1));
            }
            Ok(PeerMessage::Have { index })
        } else if message_id == 5 {
            Ok(PeerMessage::Bitfield { payload: input })
        } else if message_id == 6 {
            match parse_request_payload(input) {
                Err(e) => Err(e),
                Ok((index, begin, length)) => Ok(PeerMessage::Request { index, begin, length }),
            }
        } else if message_id == 8 {
            match parse_request_payload(input) {
                Err(e) => Err(e),
                Ok((index, begin, length)) => Ok(PeerMessage::Cancel { index, begin, length }),
            }
        } else if message_id == 7 {
            if bytes_remaining(&input) < 8 {
                return Err(PeerError::Malformed);
            }
            let index = bytes_get_u32(&mut input);
            let begin = bytes_get_u32(&mut input);
            proof {
                let rest = s.skip(1);
                assert(rest.take(4) =~= rest.subrange(0, 4));
                assert(rest.skip(4).take(4) =~= rest.subrange(4, 8));
                assert(rest.skip(4).skip(4) =~= rest.skip(8));
            }
            Ok(PeerMessage::Piece { index, begin, block: input })
        } else {
            Err(PeerError::UnknownMessage(message_id))
        }
    }
}

impl Message {
    /// The length of the body fits the prefix of a frame, and the frame a
    /// buffer in memory.
    pub open spec fn fits_frame(self) -> bool {
        self.body().len() <= u32::MAX && self.body().len() + 4 <= isize::MAX
    }
}

impl PeerMessage {
    /// The frame of the message, ready to be sent.
    pub fn into_bytes(self) -> (out: Bytes)
        requires
            self@.fits_frame(),
        ensures
            bytes_contents(out) == self@.frame(),
    {
        let ghost frame = self@.frame();
        let ghost body = self@.body();
        let mut buf = bytes_mut_new();
        proof {
            lemma_be_bytes_len(body.len(), 4);
        }
        match self {
            PeerMessage::KeepAlive => {
                bytes_mut_put_u32(&mut buf, 0);
            },
            PeerMessage::Choke => {
                bytes_mut_put_u32(&mut buf, 1);
                bytes_mut_put_u8(&mut buf, 0);
            },
            PeerMessage::Unchoke => {
                bytes_mut_put_u32(&mut buf, 1);
                bytes_mut_put_u8(&mut buf, 1);
            },
            PeerMessage::Interested => {
                bytes_mut_put_u32(&mut buf, 1);
                bytes_mut_put_u8(&mut buf, 2);
            },
            PeerMessage::NotInterested => {
                bytes_mut_put_u32(&mut buf, 1);
                bytes_mut_put_u8(&mut buf, 3);
            },
            PeerMessage::Have { index } => {
                proof {
                    lemma_be_bytes_len(index as nat, 4);
                }
                bytes_mut_put_u32(&mut buf, 5);
                bytes_mut_put_u8(&mut buf, 4);
                bytes_mut_put_u32(&mut buf, index);
            },
            PeerMessage::Bitfield { payload } => {
                let length = bytes_remaining(&payload);
                assert(body.len() == 1 + length);
                bytes_mut_put_u32(&mut buf, (length + 1) as u32);
                bytes_mut_put_u8(&mut buf, 5);
                bytes_mut_put(&mut buf, payload);
            },
            PeerMessage::Request { index, begin, length } => {
                proof {
                    lemma_be_bytes_len(index as nat, 4);
                    lemma_be_bytes_len(begin as nat, 4);
                    lemma_be_bytes_len(length as nat, 4);
                }
                bytes_mut_put_u32(&mut buf, 13);
                bytes_mut_put_u8(&mut buf, 6);
                bytes_mut_put_u32(&mut buf, index);
                bytes_mut_put_u32(&mut buf, begin);
                bytes_mut_put_u32(&mut buf, length);
            },
            PeerMessage::Piece { index, begin, block } => {
                proof {
                    lemma_be_bytes_len(index as nat, 4);
                    lemma_be_bytes_len(begin as nat, 4);
                }
                let length = bytes_remaining(&block);
                assert(body.len() == 9 + length);
                bytes_mut_put_u32(&mut buf, (length + 9) as u32);
                bytes_mut_put_u8(&mut buf, 7);
                bytes_mut_put_u32(&mut buf, index);
                bytes_mut_put_u32(&mut buf, begin);
                bytes_mut_put(&mut buf, block);
            },
            PeerMessage::Cancel { index, begin, length } => {
                proof {
                    lemma_be_bytes_len(index as nat, 4);
                    lemma_be_bytes_len(begin as nat, 4);
                    lemma_be_bytes_len(length as nat, 4);
                }
                bytes_mut_put_u32(&mut buf, 13);
                bytes_mut_put_u8(&mut buf, 8);
                bytes_mut_put_u32(&mut buf, index);
                bytes_mut_put_u32(&mut buf, begin);
                bytes_mut_put_u32(&mut buf, length);
            },
        }
        proof {
            assert(bytes_mut_contents(buf) =~= frame);
        }
        bytes_mut_freeze(buf)
    }
}

impl PeerMessage {
    /// The frame of the message, where the length of its body fits the
    /// prefix of a frame; else nothing.
    pub fn try_into_bytes(self) -> (out: Option<Bytes>)
        ensures
            self@.fits_frame() ==> (out matches Some(frame) && bytes_contents(frame)
                == self@.frame()),
            !self@.fits_frame() ==> out is None,
    {
        let payload = match &self {
            PeerMessage::Bitfield { payload } => bytes_remaining(payload),
            PeerMessage::Piece { block, .. } => bytes_remaining(block),
            _ => 0,
        };
        proof {
            lemma_be_bytes_len(0, 4);
            match self {
                PeerMessage::Have { index } => {
                    lemma_be_bytes_len(index as nat, 4);
                },
                PeerMessage::Request { index, begin, length } => {
                    lemma_be_bytes_len(index as nat, 4);
                    lemma_be_bytes_len(begin as nat, 4);
                    lemma_be_bytes_len(length as nat, 4);
                },
                PeerMessage::Cancel { index, begin, length } => {
                    lemma_be_bytes_len(index as nat, 4);
                    lemma_be_bytes_len(begin as nat, 4);
                    lemma_be_bytes_len(length as nat, 4);
                },
                PeerMessage::Piece { index, begin, .. } => {
                    lemma_be_bytes_len(index as nat, 4);
                    lemma_be_bytes_len(begin as nat, 4);
                },
                _ => {},
            }
            assert(self@.body().len() <= payload + 13);
            assert(self@.body().len() >= payload);
            assert(self@ is Bitfield ==> self@.body().len() == payload + 1);
            assert(self@ is Piece ==> self@.body().len() == payload + 9);
        }
        let limit: usize = if (isize::MAX as usize) < 0xffff_ffff {
            isize::MAX as usize - 4
        } else {
            0xffff_ffff
        };
        let fits = match &self {
            PeerMessage::Bitfield { .. } => payload < limit,
            PeerMessage::Piece { .. } => payload <= limit - 9,
            _ => true,
        };
        if fits {
            Some(self.into_bytes())
        } else {
            None
        }
    }
}

/// The length that the four bytes in front of a frame announce.
pub fn frame_length(prefix: &[u8; 4]) -> (length: u32)
    ensures
        length == be_value(prefix@),
{
    proof {
        lemma_be_value_u32(prefix@);
    }
    let a = prefix[0] as u32;
    let b = prefix[1] as u32;
    let c = prefix[2] as u32;
    let d = prefix[3] as u32;
    a * 0x100_0000 + b * 0x1_0000 + c * 0x100 + d
}

/// A message is read back from the body of its frame.
pub proof fn lemma_parse_of_body(m: Message)
    ensures
        parse_body(m.body()) == Ok::<Message, PeerError>(m),
{
    lemma_pow256();
    let s = m.body();
    match m {
        Message::Have { index } => {
            lemma_be_bytes_len(index as nat, 4);
            lemma_be_value_of_bytes(index as nat, 4);
            assert(s.skip(1) =~= be_bytes(index as nat, 4));
        },
        Message::Bitfield { payload } => {
            assert(s.skip(1) =~= payload);
        },
        Message::Request { index, begin, length } => {
            lemma_parse_triple(index, begin, length);
            assert(s.skip(1) =~= triple(index, begin, length));
        },
        Message::Cancel { index, begin, length } => {
            lemma_parse_triple(index, begin, length);
            assert(s.skip(1) =~= triple(index, begin, length));
        },
        Message::Piece { index, begin, block } => {
            lemma_be_bytes_len(index as nat, 4);
            lemma_be_bytes_len(begin as nat, 4);
            lemma_be_value_of_bytes(index as nat, 4);
            lemma_be_value_of_bytes(begin as nat, 4);
            let rest = s.skip(1);
            assert(rest =~= be_bytes(index as nat, 4) + be_bytes(begin as nat, 4) + block);
            assert(rest.subrange(0, 4) =~= be_bytes(index as nat, 4));
            assert(rest.subrange(4, 8) =~= be_bytes(begin as nat, 4));
            assert(rest.skip(8) =~= block);
        },
        _ => {
            assert(s.len() != 0 ==> s.skip(1).len() == 0);
        },
    }
}

/// A body that is read as a message is the body of that message, byte for
/// byte.
pub proof fn lemma_body_of_parse(s: Seq<u8>)
    requires
        parse_body(s) is Ok,
    ensures
        parse_body(s).unwrap().body() == s,
{
    lemma_pow256();
    let m = parse_body(s).unwrap();
    if s.len() == 0 {
        assert(m.body() =~= s);
    } else {
        let id = s[0];
        let rest = s.skip(1);
        assert(s =~= seq![id] + rest);
        if id == 4 {
            lemma_be_bytes_of_value(rest);
        } else if id == 6 || id == 8 {
            let a = rest.subrange(0, 4);
            let b = rest.subrange(4, 8);
            let c = rest.subrange(8, 12);
            lemma_be_bytes_of_value(a);
            lemma_be_bytes_of_value(b);
            lemma_be_bytes_of_value(c);
            assert(rest =~= a + b + c);
        } else if id == 7 {
            let a = rest.subrange(0, 4);
            let b = rest.subrange(4, 8);
            lemma_be_bytes_of_value(a);
            lemma_be_bytes_of_value(b);
            assert(rest =~= a + b + rest.skip(8));
        }
        assert(m.body() =~= s);
    }
}

/// The three numbers of a request are read back from their twelve bytes.
pub proof fn lemma_parse_triple(a: u32, b: u32, c: u32)
    ensures
        triple(a, b, c).len() == 12,
        be_value(triple(a, b, c).subrange(0, 4)) == a,
        be_value(triple(a, b, c).subrange(4, 8)) == b,
        be_value(triple(a, b, c).subrange(8, 12)) == c,
{
    lemma_pow256();
    lemma_be_bytes_len(a as nat, 4);
    lemma_be_bytes_len(b as nat, 4);
    lemma_be_bytes_len(c as nat, 4);
    lemma_be_value_of_bytes(a as nat, 4);
    lemma_be_value_of_bytes(b as nat, 4);
    lemma_be_value_of_bytes(c as nat, 4);
    let t = triple(a, b, c);
    assert(t.subrange(0, 4) =~= be_bytes(a as nat, 4));
    assert(t.subrange(4, 8) =~= be_bytes(b as nat, 4));
    assert(t.subrange(8, 12) =~= be_bytes(c as nat, 4));
}

/// A frame starts with the length of its body, and the body follows: what
/// `frame_length` and `parse` read from a frame is the message sent.
pub proof fn lemma_frame_round_trip(m: Message)
    requires
        m.fits_frame(),
    ensures
        m.frame().len() == 4 + m.body().len(),
        be_value(m.frame().take(4)) == m.body().len(),
        parse_body(m.frame().skip(4)) == Ok::<Message, PeerError>(m),
{
    lemma_pow256();
    lemma_be_bytes_len(m.body().len(), 4);
    lemma_be_value_of_bytes(m.body().len(), 4);
    assert(m.frame().take(4) =~= be_bytes(m.body().len(), 4));
    assert(m.frame().skip(4) =~= m.body());
    lemma_parse_of_body(m);
}

/// The name of the protocol, `BitTorrent protocol` in ASCII.
pub const PROTOCOL: [u8; 19] = [
    66, 105, 116, 84, 111, 114, 114, 101, 110, 116, 32, 112, 114, 111, 116, 111, 99, 111, 108,
];

/// What both sides send first.
#[derive(Debug, Clone, Copy, PartialEq, Eq)]
pub struct PeerHandShakePacket {
    pub info_hash: Sha1Hash,
    pub peer_id: PeerId,
}

/// The 68 bytes of a handshake: 19, the protocol's name, eight reserved
/// zero bytes, the info-hash and the peer id.
pub open spec fn handshake_bytes(info_hash: Seq<u8>, peer_id: Seq<u8>) -> Seq<u8> {
    seq![19u8] + PROTOCOL@ + be_bytes(0, 8) + info_hash + peer_id
}

/// The info-hash and the peer id of a handshake. The reserved bytes may
/// hold anything, and bytes behind the 68 are passed over.
pub open spec fn parse_handshake(s: Seq<u8>) -> Result<(Seq<u8>, Seq<u8>), PeerError> {
    if s.len() >= 68 && s[0] == 19 && s.subrange(1, 20) == PROTOCOL@ {
        Ok((s.subrange(28, 48), s.subrange(48, 68)))
    } else {
        Err(PeerError::Malformed)
    }
}

impl PeerHandShakePacket {
    pub fn new(info_hash: Sha1Hash, peer_id: PeerId) -> (packet: Self)
        ensures
            packet.info_hash == info_hash,
            packet.peer_id == peer_id,
    {
        Self { info_hash, peer_id }
    }

    /// Reads a handshake.
    pub fn parse(input: Bytes) -> (r: Result<Self, PeerError>)
        ensures
            match parse_handshake(bytes_contents(input)) {
                Ok((info_hash, peer_id)) => r matches Ok(packet) && packet.info_hash@ == info_hash
                    && packet.peer_id@ == peer_id,
                Err(e) => r == Err::<Self, PeerError>(e),
            },
    {
        let mut input = input;
        let ghost s = bytes_contents(input);
        if bytes_remaining(&input) < 1 {
            return Err(PeerError::Malformed);
        }
        let header_length = bytes_get_u8(&mut input);
        if bytes_remaining(&input) < header_length as usize {
            proof {
                if header_length == 19 {
                    assert(s.len() < 68);
                }
            }
            return Err(PeerError::Malformed);
        }
        let header = bytes_copy_to_bytes(&mut input, header_length as usize);
        let header = bytes_to_vec(&header);
        proof {
            assert(header@ =~= s.subrange(1, 1 + header_length));
            assert(header@.len() == header_length);
        }
        if !bytes_equal(header.as_slice(), PROTOCOL.as_slice()) {
            return Err(PeerError::Malformed);
        }
        assert(header_length == 19);
        if bytes_remaining(&input) < 48 {
            return Err(PeerError::Malformed);
        }
        let _reserved = bytes_get_u64(&mut input);
        let info_hash = bytes_copy_to_bytes(&mut input, 20);
        let peer_id = bytes_copy_to_bytes(&mut input, 20);
        let info_hash = bytes_to_vec(&info_hash);
        let peer_id = bytes_to_vec(&peer_id);
        proof {
            assert(info_hash@ =~= s.subrange(28, 48));
            assert(peer_id@ =~= s.subrange(48, 68));
        }
        Ok(
            PeerHandShakePacket {
                info_hash: to_hash(info_hash.as_slice()),
                peer_id: to_hash(peer_id.as_slice()),
            },
        )
    }

    /// The bytes of the handshake, ready to be sent.
    pub fn into_bytes(self) -> (out: Bytes)
        ensures
            bytes_contents(out) == handshake_bytes(self.info_hash@, self.peer_id@),
    {
        let mut buf = bytes_mut_with_capacity(68);
        proof {
            lemma_be_bytes_len(0, 8);
        }
        bytes_mut_put_u8(&mut buf, 19);
        bytes_mut_put_slice(&mut buf, PROTOCOL.as_slice());
        bytes_mut_put_u64(&mut buf, 0);
        bytes_mut_put_slice(&mut buf, self.info_hash.as_slice());
        bytes_mut_put_slice(&mut buf, self.peer_id.as_slice());
        proof {
            assert(bytes_mut_contents(buf) =~= handshake_bytes(self.info_hash@, self.peer_id@));
        }
        bytes_mut_freeze(buf)
    }
}

/// A handshake is 68 bytes and is read back from them.
pub proof fn lemma_handshake_round_trip(info_hash: Seq<u8>, peer_id: Seq<u8>)
    requires
        info_hash.len() == 20,
        peer_id.len() == 20,
    ensures
        handshake_bytes(info_hash, peer_id).len() == 68,
        parse_handshake(handshake_bytes(info_hash, peer_id)) == Ok::<
            (Seq<u8>, Seq<u8>),
            PeerError,
        >((info_hash, peer_id)),
{
    lemma_be_bytes_len(0, 8);
    let s = handshake_bytes(info_hash, peer_id);
    assert(s.subrange(1, 20) =~= PROTOCOL@);
    assert(s.subrange(28, 48) =~= info_hash);
    assert(s.subrange(48, 68) =~= peer_id);
}

} // verus!
