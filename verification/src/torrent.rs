//! The metainfo of a single-file torrent, read from its bencode.

use vstd::prelude::*;
use vstd::string::StringExecFns;
use vstd::utf8::{encode_utf8, valid_utf8};
use crate::bencode::encode::{decimal, encode};
use crate::text::{decimal_string, latin1, string_from_utf8};
use crate::bencode::error::Error;
use crate::bencode::grammar::parse;
use crate::bencode::typed::{bytes_of, dict_get, field_of, integer_in};
use crate::bencode::value::{
    BencodeValue, Value, keys_ascending, lemma_entries_view, lex_less,
};
use crate::util::{
    ArrayChunksWithLength, Sha1Hash, arrays_view, chunks_joined, chunks_of, hash_sha1, hex_encode, hex_lower,
    lemma_chunks_round_trip, sha1_digest,
};

verus! {

/// A torrent: where its tracker is, what it holds, and its identity.
#[derive(Debug, Clone, PartialEq, Eq)]
pub struct Torrent {
    pub announce: String,
    pub info: TorrentInfo,
    pub info_hash: Sha1Hash,
}

/// The content of a torrent: one file cut into pieces.
#[derive(Debug, Clone, PartialEq, Eq)]
pub struct TorrentInfo {
    pub length: u64,
    pub name: Vec<u8>,
    pub piece_length: u32,
    pub pieces: Vec<Sha1Hash>,
}

/// Why bytes are no metainfo.
#[derive(Debug, Clone, Copy, PartialEq, Eq, Structural)]
pub enum TorrentError {
    /// The bytes are no bencode.
    Parse(Error),
    /// A field is missing or holds the wrong kind of value.
    InvalidMetainfo(Error),
}

/// The key `announce`.
pub const KEY_ANNOUNCE: [u8; 8] = [97, 110, 110, 111, 117, 110, 99, 101];

/// The key `info`.
pub const KEY_INFO: [u8; 4] = [105, 110, 102, 111];

/// The key `length`.
pub const KEY_LENGTH: [u8; 6] = [108, 101, 110, 103, 116, 104];

/// The key `name`.
pub const KEY_NAME: [u8; 4] = [110, 97, 109, 101];

/// The key `piece length`, with its space.
pub const KEY_PIECE_LENGTH: [u8; 12] = [112, 105, 101, 99, 101, 32, 108, 101, 110, 103, 116, 104];

/// The key `pieces`.
pub const KEY_PIECES: [u8; 6] = [112, 105, 101, 99, 101, 115];

/// What a `TorrentInfo` holds, as plain values.
pub struct InfoView {
    pub length: u64,
    pub name: Seq<u8>,
    pub piece_length: u32,
    pub pieces: Seq<Seq<u8>>,
}

impl View for TorrentInfo {
    type V = InfoView;

    open spec fn view(&self) -> InfoView {
        InfoView {
            length: self.length,
            name: self.name@,
            piece_length: self.piece_length,
            pieces: arrays_view(self.pieces@),
        }
    }
}

/// The record that an `info` dictionary holds. Fields it does not know are
/// passed over.
pub open spec fn info_of(v: Value) -> Result<InfoView, Error> {
    match field_of(v, KEY_LENGTH@) {
        Err(e) => Err(e),
        Ok(length) => match integer_in(length, 0, i64::MAX as int) {
            Err(e) => Err(e),
            Ok(length) => match field_of(v, KEY_NAME@) {
                Err(e) => Err(e),
                Ok(name) => match bytes_of(name) {
                    Err(e) => Err(e),
                    Ok(name) => match field_of(v, KEY_PIECE_LENGTH@) {
                        Err(e) => Err(e),
                        Ok(piece_length) => match integer_in(piece_length, 0, u32::MAX as int) {
                            Err(e) => Err(e),
                            Ok(piece_length) => match field_of(v, KEY_PIECES@) {
                                Err(e) => Err(e),
                                Ok(pieces) => match bytes_of(pieces) {
                                    Err(e) => Err(e),
                                    Ok(pieces) => if pieces.len() % 20 == 0 {
                                        Ok(
                                            InfoView {
                                                length: length as u64,
                                                name,
                                                piece_length: piece_length as u32,
                                                pieces: chunks_of(pieces, 20),
                                            },
                                        )
                                    } else {
                                        Err(Error::InvalidValue)
                                    },
                                },
                            },
                        },
                    },
                },
            },
        },
    }
}

/// What metainfo means: the announce URL as UTF-8 bytes, the record of
/// `info`, and the SHA-1 of the encoding of `info` as it was decoded.
pub open spec fn decode_torrent(contents: Seq<u8>) -> Result<
    (Seq<u8>, InfoView, Seq<u8>),
    TorrentError,
> {
    match parse(contents) {
        Err(e) => Err(TorrentError::Parse(e)),
        Ok(v) => match field_of(v, KEY_ANNOUNCE@) {
            Err(e) => Err(TorrentError::InvalidMetainfo(e)),
            Ok(announce) => match bytes_of(announce) {
                Err(e) => Err(TorrentError::InvalidMetainfo(e)),
                Ok(announce) => if !valid_utf8(announce) {
                    Err(TorrentError::InvalidMetainfo(Error::InvalidValue))
                } else {
                    match field_of(v, KEY_INFO@) {
                        Err(e) => Err(TorrentError::InvalidMetainfo(e)),
                        Ok(info) => match info_of(info) {
                            Err(e) => Err(TorrentError::InvalidMetainfo(e)),
                            Ok(record) => Ok((announce, record, sha1_digest(encode(info)))),
                        },
                    }
                },
            },
        },
    }
}

impl TorrentInfo {
    /// Reads the record that an `info` dictionary holds.
    pub fn from_value(value: &BencodeValue) -> (r: Result<TorrentInfo, Error>)
        ensures
            match info_of(value@) {
                Ok(record) => r matches Ok(info) && info@ == record,
                Err(e) => r is Err && r->Err_0 == e,
            },
    {
        let length = match value.get(KEY_LENGTH.as_slice()) {
            Err(e) => {
                return Err(e);
            },
            Ok(field) => match field.to_u64() {
                Err(e) => {
                    return Err(e);
                },
                Ok(length) => length,
            },
        };
        let name = match value.get(KEY_NAME.as_slice()) {
            Err(e) => {
                return Err(e);
            },
            Ok(field) => match field.to_byte_buf() {
                Err(e) => {
                    return Err(e);
                },
                Ok(name) => name,
            },
        };
        let piece_length = match value.get(KEY_PIECE_LENGTH.as_slice()) {
            Err(e) => {
                return Err(e);
            },
            Ok(field) => match field.to_u32() {
                Err(e) => {
                    return Err(e);
                },
                Ok(piece_length) => piece_length,
            },
        };
        let pieces = match value.get(KEY_PIECES.as_slice()) {
            Err(e) => {
                return Err(e);
            },
            Ok(field) => match field.as_bytes() {
                Err(e) => {
                    return Err(e);
                },
                Ok(bytes) => match ArrayChunksWithLength::<20>::deserialize_as(bytes.as_slice()) {
                    None => {
                        return Err(Error::InvalidValue);
                    },
                    Some(pieces) => pieces,
                },
            },
        };
        Ok(TorrentInfo { length, name, piece_length, pieces })
    }
}

impl Torrent {
    /// Reads metainfo from the bytes of a torrent file.
    pub fn from_bytes(contents: &[u8]) -> (r: Result<Torrent, TorrentError>)
        ensures
            match decode_torrent(contents@) {
                Ok((announce, record, info_hash)) => r matches Ok(torrent) && encode_utf8(
                    torrent.announce@,
                ) == announce && torrent.info@ == record && torrent.info_hash@ == info_hash,
                Err(e) => r is Err && r->Err_0 == e,
            },
    {
        let value = match BencodeValue::try_from_bytes(contents) {
            Err(e) => {
                return Err(TorrentError::Parse(e));
            },
            Ok(value) => value,
        };
        let announce = match value.get(KEY_ANNOUNCE.as_slice()) {
            Err(e) => {
                return Err(TorrentError::InvalidMetainfo(e));
            },
            Ok(field) => match field.to_byte_buf() {
                Err(e) => {
                    return Err(TorrentError::InvalidMetainfo(e));
                },
                Ok(bytes) => match string_from_utf8(bytes) {
                    None => {
                        return Err(TorrentError::InvalidMetainfo(Error::InvalidValue));
                    },
                    Some(text) => text,
                },
            },
        };
        let info_value = match value.get(KEY_INFO.as_slice()) {
            Err(e) => {
                return Err(TorrentError::InvalidMetainfo(e));
            },
            Ok(field) => field,
        };
        let info = match TorrentInfo::from_value(info_value) {
            Err(e) => {
                return Err(TorrentError::InvalidMetainfo(e));
            },
            Ok(info) => info,
        };
        let encoded = info_value.to_byte_string();
        let info_hash = hash_sha1(encoded.as_slice());
        Ok(Torrent { announce, info, info_hash })
    }
}

/// The `info` dictionary of a record, its keys in ascending order.
pub open spec fn info_value(record: InfoView) -> Value {
    Value::Dict(
        seq![
            (KEY_LENGTH@, Value::Integer(record.length as int)),
            (KEY_NAME@, Value::String(record.name)),
            (KEY_PIECE_LENGTH@, Value::Integer(record.piece_length as int)),
            (KEY_PIECES@, Value::String(chunks_joined(record.pieces))),
        ],
    )
}

/// A record is read back from its `info` dictionary, which is well formed.
pub proof fn lemma_info_round_trip(record: InfoView)
    requires
        record.length <= i64::MAX,
        forall|i: int| 0 <= i < record.pieces.len() ==> (#[trigger] record.pieces[i]).len() == 20,
    ensures
        info_value(record).wf(),
        info_of(info_value(record)) == Ok::<InfoView, Error>(record),
{
    let value = info_value(record);
    let d = value->Dict_0;
    lemma_chunks_round_trip(record.pieces, 20);
    assert(lex_less(KEY_LENGTH@, KEY_NAME@));
    assert(lex_less(KEY_LENGTH@, KEY_PIECE_LENGTH@));
    assert(lex_less(KEY_LENGTH@, KEY_PIECES@));
    assert(lex_less(KEY_NAME@, KEY_PIECE_LENGTH@));
    assert(lex_less(KEY_NAME@, KEY_PIECES@));
    assert(lex_less(KEY_PIECE_LENGTH@, KEY_PIECES@)) by {
        let a = KEY_PIECE_LENGTH@;
        let b = KEY_PIECES@;
        assert(a.skip(5)[0] < b.skip(5)[0]);
        assert(lex_less(a.skip(5), b.skip(5)));
        assert(a.skip(4).drop_first() =~= a.skip(5) && b.skip(4).drop_first() =~= b.skip(5));
        assert(lex_less(a.skip(4), b.skip(4)));
        assert(a.skip(3).drop_first() =~= a.skip(4) && b.skip(3).drop_first() =~= b.skip(4));
        assert(lex_less(a.skip(3), b.skip(3)));
        assert(a.skip(2).drop_first() =~= a.skip(3) && b.skip(2).drop_first() =~= b.skip(3));
        assert(lex_less(a.skip(2), b.skip(2)));
        assert(a.skip(1).drop_first() =~= a.skip(2) && b.skip(1).drop_first() =~= b.skip(2));
        assert(lex_less(a.skip(1), b.skip(1)));
        assert(a.drop_first() =~= a.skip(1) && b.drop_first() =~= b.skip(1));
    }
    assert(KEY_LENGTH@[0] != KEY_NAME@[0]);
    assert(KEY_LENGTH@[0] != KEY_PIECE_LENGTH@[0]);
    assert(KEY_LENGTH@[0] != KEY_PIECES@[0]);
    assert(KEY_NAME@[0] != KEY_PIECE_LENGTH@[0]);
    assert(KEY_NAME@[0] != KEY_PIECES@[0]);
    assert(KEY_PIECE_LENGTH@.len() != KEY_PIECES@.len());
    let d1 = d.drop_first();
    let d2 = d1.drop_first();
    let d3 = d2.drop_first();
    assert(d1[0] == d[1] && d2[0] == d[2] && d3[0] == d[3]);
    assert(dict_get(d3, KEY_PIECES@) == Some(d[3].1));
    assert(dict_get(d2, KEY_PIECES@) == Some(d[3].1));
    assert(dict_get(d1, KEY_PIECES@) == Some(d[3].1));
    assert(dict_get(d, KEY_PIECES@) == Some(d[3].1));
    assert(dict_get(d2, KEY_PIECE_LENGTH@) == Some(d[2].1));
    assert(dict_get(d1, KEY_PIECE_LENGTH@) == Some(d[2].1));
    assert(dict_get(d, KEY_PIECE_LENGTH@) == Some(d[2].1));
    assert(dict_get(d1, KEY_NAME@) == Some(d[1].1));
    assert(dict_get(d, KEY_NAME@) == Some(d[1].1));
    assert(dict_get(d, KEY_LENGTH@) == Some(d[0].1));
    assert(keys_ascending(d)) by {
        assert forall|i: int, j: int| 0 <= i < j < d.len() implies lex_less(
            #[trigger] d[i].0,
            #[trigger] d[j].0,
        ) by {
            assert(d[0].0 == KEY_LENGTH@ && d[1].0 == KEY_NAME@ && d[2].0 == KEY_PIECE_LENGTH@
                && d[3].0 == KEY_PIECES@);
        }
    }
    assert forall|i: int| 0 <= i < d.len() implies (#[trigger] d[i]).1.wf() by {
        assert(d[0].1.wf() && d[1].1.wf() && d[2].1.wf() && d[3].1.wf());
    }
}

impl TorrentInfo {
    /// The record as an `info` dictionary. A length that a signed integer
    /// of 64 bits cannot hold has no bencode.
    pub fn to_value(&self) -> (r: Result<BencodeValue, Error>)
        ensures
            self.length <= i64::MAX ==> (r matches Ok(value) && value@ == info_value(self@)
                && value.wf()),
            self.length > i64::MAX ==> r is Err && r->Err_0 == Error::InvalidValue,
    {
        let length = match BencodeValue::from_u64(self.length) {
            Err(e) => {
                return Err(e);
            },
            Ok(length) => length,
        };
        let mut entries: Vec<(Vec<u8>, BencodeValue)> = Vec::new();
        entries.push((vstd::slice::slice_to_vec(KEY_LENGTH.as_slice()), length));
        entries.push(
            (
                vstd::slice::slice_to_vec(KEY_NAME.as_slice()),
                BencodeValue::from_bytes(self.name.as_slice()),
            ),
        );
        entries.push(
            (
                vstd::slice::slice_to_vec(KEY_PIECE_LENGTH.as_slice()),
                BencodeValue::from_u32(self.piece_length),
            ),
        );
        entries.push(
            (
                vstd::slice::slice_to_vec(KEY_PIECES.as_slice()),
                BencodeValue::from_byte_buf(ArrayChunksWithLength::<20>::serialize_as(&self.pieces)),
            ),
        );
        proof {
            lemma_entries_view(entries@);
            assert(crate::bencode::value::entries_view(entries@) =~= info_value(self@)->Dict_0);
            assert forall|i: int| 0 <= i < self@.pieces.len() implies (
            #[trigger] self@.pieces[i]).len() == 20 by {
                assert(self@.pieces[i] == self.pieces@[i]@);
            }
            lemma_info_round_trip(self@);
        }
        Ok(BencodeValue::Dict(entries))
    }
}

/// What is shown of a torrent.
#[derive(Debug, Clone, Copy)]
pub struct TorrentOverview<'a> {
    pub tracker_url: &'a str,
    pub length: u64,
    pub info_hash: &'a Sha1Hash,
    pub piece_length: u32,
    pub pieces: &'a [Sha1Hash],
}

/// One line of hexadecimal digits for each hash.
pub open spec fn hash_lines(pieces: Seq<[u8; 20]>) -> Seq<char>
    decreases pieces.len(),
{
    if pieces.len() == 0 {
        Seq::empty()
    } else {
        hash_lines(pieces.drop_last()) + hex_lower(pieces.last()@) + "\n"@
    }
}

impl Torrent {
    pub fn overview(&self) -> (overview: TorrentOverview<'_>)
        ensures
            overview.tracker_url@ == self.announce@,
            overview.length == self.info.length,
            *overview.info_hash == self.info_hash,
            overview.piece_length == self.info.piece_length,
            overview.pieces@ == self.info.pieces@,
    {
        TorrentOverview {
            tracker_url: self.announce.as_str(),
            length: self.info.length,
            info_hash: &self.info_hash,
            piece_length: self.info.piece_length,
            pieces: self.info.pieces.as_slice(),
        }
    }
}

impl<'a> TorrentOverview<'a> {
    /// The text of the overview, as it is printed.
    pub open spec fn text(&self) -> Seq<char> {
        "Tracker URL: "@ + self.tracker_url@ + "\n"@ + "length: "@ + latin1(
            decimal(self.length as nat),
        ) + "\n"@ + "Info Hash: "@ + hex_lower(self.info_hash@) + "\n"@ + "Piece Length: "@
            + latin1(decimal(self.piece_length as nat)) + "\n"@ + "Piece Hashes:\n"@
            + hash_lines(self.pieces@)
    }

    /// The overview as text: the tracker, the length, the info-hash, the
    /// piece length and the hash of every piece, each on a line.
    pub fn render(&self) -> (text: String)
        ensures
            text@ == self.text(),
    {
        let mut text = String::new();
        text.append("Tracker URL: ");
        text.append(self.tracker_url);
        text.append("\n");
        text.append("length: ");
        text.append(decimal_string(self.length).as_str());
        text.append("\n");
        text.append("Info Hash: ");
        text.append(hex_encode(self.info_hash.as_slice()).as_str());
        text.append("\n");
        text.append("Piece Length: ");
        text.append(decimal_string(self.piece_length as u64).as_str());
        text.append("\n");
        text.append("Piece Hashes:\n");
        let ghost head = text@;
        proof {
            assert(head =~= "Tracker URL: "@ + self.tracker_url@ + "\n"@ + "length: "@ + latin1(
                decimal(self.length as nat),
            ) + "\n"@ + "Info Hash: "@ + hex_lower(self.info_hash@) + "\n"@ + "Piece Length: "@
                + latin1(decimal(self.piece_length as nat)) + "\n"@ + "Piece Hashes:\n"@);
            assert(head + hash_lines(self.pieces@.take(0)) =~= head);
        }
        let mut i: usize = 0;
        while i < self.pieces.len()
            invariant
                i <= self.pieces.len(),
                text@ == head + hash_lines(self.pieces@.take(i as int)),
            decreases self.pieces.len() - i,
        {
            text.append(hex_encode(self.pieces[i].as_slice()).as_str());
            text.append("\n");
            proof {
                let next = self.pieces@.take(i + 1);
                assert(next.drop_last() =~= self.pieces@.take(i as int));
                assert(next.last() == self.pieces@[i as int]);
                assert(text@ =~= head + hash_lines(next));
            }
            i += 1;
        }
        proof {
            assert(self.pieces@.take(i as int) =~= self.pieces@);
        }
        text
    }
}

} // verus!
