//! Conversions between bencode values and the plain types of a record:
//! integers with their bounds checked, byte strings, lists and fields.

use vstd::prelude::*;
use vstd::string::StringSliceAdditionalSpecFns;
use crate::bencode::dict::{KeyOrder, dict_from_entries, insert_entry, key_order};
use crate::bencode::error::Error;
use crate::bencode::value::{BencodeValue, Value, entries_view, lemma_entries_view, list_view};

verus! {

/// The integer that `v` holds if it lies between `lo` and `hi`.
pub open spec fn integer_in(v: Value, lo: int, hi: int) -> Result<int, Error> {
    match v {
        Value::Integer(i) => if lo <= i <= hi {
            Ok(i)
        } else {
            Err(Error::InvalidValue)
        },
        _ => Err(Error::InvalidType),
    }
}

/// The bytes that `v` holds if it is a byte string.
pub open spec fn bytes_of(v: Value) -> Result<Seq<u8>, Error> {
    match v {
        Value::String(s) => Ok(s),
        _ => Err(Error::InvalidType),
    }
}

/// The value bound to `k` by the first entry of `d` that has this key.
pub open spec fn dict_get(d: Seq<(Seq<u8>, Value)>, k: Seq<u8>) -> Option<Value>
    decreases d.len(),
{
    if d.len() == 0 {
        None
    } else if d[0].0 == k {
        Some(d[0].1)
    } else {
        dict_get(d.drop_first(), k)
    }
}

/// The field `k` of the record `v`.
pub open spec fn field_of(v: Value, k: Seq<u8>) -> Result<Value, Error> {
    match v {
        Value::Dict(d) => match dict_get(d, k) {
            Some(x) => Ok(x),
            None => Err(Error::MissingField),
        },
        _ => Err(Error::InvalidType),
    }
}

/// Which of the four kinds a value is of.
#[derive(Debug, Clone, Copy, PartialEq, Eq, Structural)]
pub enum ValueKind {
    Bytes,
    Signed,
    List,
    Dict,
}

impl BencodeValue {
    /// A boolean as the integer 0 or 1.
    pub fn from_bool(v: bool) -> (r: BencodeValue)
        ensures
            r@ == Value::Integer(if v { 1int } else { 0int }),
    {
        if v {
            BencodeValue::Integer(1)
        } else {
            BencodeValue::Integer(0)
        }
    }

    pub fn from_i8(v: i8) -> (r: BencodeValue)
        ensures
            r@ == Value::Integer(v as int),
    {
        BencodeValue::Integer(v as i64)
    }

    pub fn from_i16(v: i16) -> (r: BencodeValue)
        ensures
            r@ == Value::Integer(v as int),
    {
        BencodeValue::Integer(v as i64)
    }

    pub fn from_i32(v: i32) -> (r: BencodeValue)
        ensures
            r@ == Value::Integer(v as int),
    {
        BencodeValue::Integer(v as i64)
    }

    pub fn from_i64(v: i64) -> (r: BencodeValue)
        ensures
            r@ == Value::Integer(v as int),
    {
        BencodeValue::Integer(v)
    }

    pub fn from_u8(v: u8) -> (r: BencodeValue)
        ensures
            r@ == Value::Integer(v as int),
    {
        BencodeValue::Integer(v as i64)
    }

    pub fn from_u16(v: u16) -> (r: BencodeValue)
        ensures
            r@ == Value::Integer(v as int),
    {
        BencodeValue::Integer(v as i64)
    }

    pub fn from_u32(v: u32) -> (r: BencodeValue)
        ensures
            r@ == Value::Integer(v as int),
    {
        BencodeValue::Integer(v as i64)
    }

    /// An unsigned integer, if a signed one of 64 bits can hold it.
    pub fn from_u64(v: u64) -> (r: Result<BencodeValue, Error>)
        ensures
            v <= i64::MAX ==> (r matches Ok(x) && x@ == Value::Integer(v as int)),
            v > i64::MAX ==> r == Err::<BencodeValue, Error>(Error::InvalidValue),
    {
        if v <= 0x7fff_ffff_ffff_ffff {
            Ok(BencodeValue::Integer(v as i64))
        } else {
            Err(Error::InvalidValue)
        }
    }

    /// A wide signed integer, if 64 bits can hold it.
    pub fn from_i128(v: i128) -> (r: Result<BencodeValue, Error>)
        ensures
            i64::MIN <= v <= i64::MAX ==> (r matches Ok(x) && x@ == Value::Integer(v as int)),
            !(i64::MIN <= v <= i64::MAX) ==> r == Err::<BencodeValue, Error>(Error::InvalidValue),
    {
        if -0x8000_0000_0000_0000 <= v && v <= 0x7fff_ffff_ffff_ffff {
            Ok(BencodeValue::Integer(v as i64))
        } else {
            Err(Error::InvalidValue)
        }
    }

    /// A wide unsigned integer, if a signed one of 64 bits can hold it.
    pub fn from_u128(v: u128) -> (r: Result<BencodeValue, Error>)
        ensures
            v <= i64::MAX ==> (r matches Ok(x) && x@ == Value::Integer(v as int)),
            v > i64::MAX ==> r == Err::<BencodeValue, Error>(Error::InvalidValue),
    {
        if v <= 0x7fff_ffff_ffff_ffff {
            Ok(BencodeValue::Integer(v as i64))
        } else {
            Err(Error::InvalidValue)
        }
    }

    /// Text as the byte string of its UTF-8 bytes.
    pub fn from_str(v: &str) -> (r: BencodeValue)
        ensures
            r@ == Value::String(v.spec_bytes()),
    {
        BencodeValue::String(vstd::slice::slice_to_vec(v.as_bytes()))
    }

    /// A copy of the bytes as a byte string.
    pub fn from_bytes(v: &[u8]) -> (r: BencodeValue)
        ensures
            r@ == Value::String(v@),
    {
        BencodeValue::String(vstd::slice::slice_to_vec(v))
    }

    /// The bytes as a byte string.
    pub fn from_byte_buf(v: Vec<u8>) -> (r: BencodeValue)
        ensures
            r@ == Value::String(v@),
    {
        BencodeValue::String(v)
    }

    /// The items as a list, in their order.
    pub fn from_seq(items: Vec<BencodeValue>) -> (r: BencodeValue)
        ensures
            r@ == Value::List(list_view(items@)),
    {
        BencodeValue::List(items)
    }

    /// The entries as a dictionary: keys in ascending order, and of two
    /// entries with one key the later one.
    pub fn from_map(entries: Vec<(Vec<u8>, BencodeValue)>) -> (r: BencodeValue)
        ensures
            r@ == Value::Dict(dict_from_entries(entries_view(entries@))),
    {
        let ghost all = entries_view(entries@);
        let mut entries = entries;
        let mut sorted: Vec<(Vec<u8>, BencodeValue)> = Vec::new();
        let ghost mut done: Seq<(Seq<u8>, Value)> = Seq::empty();
        proof {
            assert(done + entries_view(entries@) =~= all);
        }
        while entries.len() > 0
            invariant
                entries_view(sorted@) == dict_from_entries(done),
                all == done + entries_view(entries@),
            decreases entries.len(),
        {
            let ghost before = entries_view(entries@);
            proof {
                lemma_entries_view(entries@);
            }
            let (key, value) = entries.remove(0);
            proof {
                lemma_entries_view(entries@);
                let entry = (key@, value@);
                assert(before[0] == entry);
                assert(entries_view(entries@) =~= before.drop_first());
                assert(done.push(entry) + before.drop_first() =~= done + before);
                assert(done.push(entry).drop_last() =~= done);
                done = done.push(entry);
            }
            insert_entry(&mut sorted, key, value);
        }
        proof {
            lemma_entries_view(entries@);
            assert(done + entries_view(entries@) =~= done);
        }
        BencodeValue::Dict(sorted)
    }
}

impl BencodeValue {
    /// Which kind the value is of.
    pub fn kind(&self) -> (k: ValueKind)
        ensures
            k == ValueKind::Bytes <==> self@ is String,
            k == ValueKind::Signed <==> self@ is Integer,
            k == ValueKind::List <==> self@ is List,
            k == ValueKind::Dict <==> self@ is Dict,
    {
        match self {
            BencodeValue::String(_) => ValueKind::Bytes,
            BencodeValue::Integer(_) => ValueKind::Signed,
            BencodeValue::List(_) => ValueKind::List,
            BencodeValue::Dict(_) => ValueKind::Dict,
        }
    }

    /// An integer as a boolean: zero is false, all else true.
    pub fn to_bool(&self) -> (r: Result<bool, Error>)
        ensures
            match self@ {
                Value::Integer(i) => r == Ok::<bool, Error>(i != 0),
                _ => r == Err::<bool, Error>(Error::InvalidType),
            },
    {
        match self {
            BencodeValue::Integer(i) => Ok(*i != 0),
            _ => Err(Error::InvalidType),
        }
    }

    /// The integer that the value holds.
    pub fn to_i64(&self) -> (r: Result<i64, Error>)
        ensures
            match self@ {
                Value::Integer(i) => r == Ok::<i64, Error>(i as i64),
                _ => r == Err::<i64, Error>(Error::InvalidType),
            },
    {
        match self {
            BencodeValue::Integer(i) => Ok(*i),
            _ => Err(Error::InvalidType),
        }
    }

    /// The integer that the value holds, if an `i8` can hold it.
    pub fn to_i8(&self) -> (r: Result<i8, Error>)
        ensures
            match integer_in(self@, -0x80, 0x7f) {
                Ok(i) => r == Ok::<i8, Error>(i as i8),
                Err(e) => r == Err::<i8, Error>(e),
            },
    {
        match self {
            BencodeValue::Integer(i) => if -0x80 <= *i && *i <= 0x7f {
                Ok(*i as i8)
            } else {
                Err(Error::InvalidValue)
            },
            _ => Err(Error::InvalidType),
        }
    }

    /// The integer that the value holds, if an `i16` can hold it.
    pub fn to_i16(&self) -> (r: Result<i16, Error>)
        ensures
            match integer_in(self@, -0x8000, 0x7fff) {
                Ok(i) => r == Ok::<i16, Error>(i as i16),
                Err(e) => r == Err::<i16, Error>(e),
            },
    {
        match self {
            BencodeValue::Integer(i) => if -0x8000 <= *i && *i <= 0x7fff {
                Ok(*i as i16)
            } else {
                Err(Error::InvalidValue)
            },
            _ => Err(Error::InvalidType),
        }
    }

    /// The integer that the value holds, if an `i32` can hold it.
    pub fn to_i32(&self) -> (r: Result<i32, Error>)
        ensures
            match integer_in(self@, -0x8000_0000, 0x7fff_ffff) {
                Ok(i) => r == Ok::<i32, Error>(i as i32),
                Err(e) => r == Err::<i32, Error>(e),
            },
    {
        match self {
            BencodeValue::Integer(i) => if -0x8000_0000 <= *i && *i <= 0x7fff_ffff {
                Ok(*i as i32)
            } else {
                Err(Error::InvalidValue)
            },
            _ => Err(Error::InvalidType),
        }
    }

    /// The integer that the value holds, if an `u8` can hold it.
    pub fn to_u8(&self) -> (r: Result<u8, Error>)
        ensures
            match integer_in(self@, 0, 0xff) {
                Ok(i) => r == Ok::<u8, Error>(i as u8),
                Err(e) => r == Err::<u8, Error>(e),
            },
    {
        match self {
            BencodeValue::Integer(i) => if 0 <= *i && *i <= 0xff {
                Ok(*i as u8)
            } else {
                Err(Error::InvalidValue)
            },
            _ => Err(Error::InvalidType),
        }
    }

    /// The integer that the value holds, if an `u16` can hold it.
    pub fn to_u16(&self) -> (r: Result<u16, Error>)
        ensures
            match integer_in(self@, 0, 0xffff) {
                Ok(i) => r == Ok::<u16, Error>(i as u16),
                Err(e) => r == Err::<u16, Error>(e),
            },
    {
        match self {
            BencodeValue::Integer(i) => if 0 <= *i && *i <= 0xffff {
                Ok(*i as u16)
            } else {
                Err(Error::InvalidValue)
            },
            _ => Err(Error::InvalidType),
        }
    }

    /// The integer that the value holds, if an `u32` can hold it.
    pub fn to_u32(&self) -> (r: Result<u32, Error>)
        ensures
            match integer_in(self@, 0, 0xffff_ffff) {
                Ok(i) => r == Ok::<u32, Error>(i as u32),
                Err(e) => r == Err::<u32, Error>(e),
            },
    {
        match self {
            BencodeValue::Integer(i) => if 0 <= *i && *i <= 0xffff_ffff {
                Ok(*i as u32)
            } else {
                Err(Error::InvalidValue)
            },
            _ => Err(Error::InvalidType),
        }
    }

    /// The integer that the value holds, if an `u64` can hold it.
    pub fn to_u64(&self) -> (r: Result<u64, Error>)
        ensures
            match integer_in(self@, 0, 0x7fff_ffff_ffff_ffff) {
                Ok(i) => r == Ok::<u64, Error>(i as u64),
                Err(e) => r == Err::<u64, Error>(e),
            },
    {
        match self {
            BencodeValue::Integer(i) => if 0 <= *i && *i <= 0x7fff_ffff_ffff_ffff {
                Ok(*i as u64)
            } else {
                Err(Error::InvalidValue)
            },
            _ => Err(Error::InvalidType),
        }
    }

    /// The bytes of a byte string.
    pub fn as_bytes(&self) -> (r: Result<&Vec<u8>, Error>)
        ensures
            match bytes_of(self@) {
                Ok(s) => r matches Ok(b) && b@ == s,
                Err(e) => r == Err::<&Vec<u8>, Error>(e),
            },
    {
        match self {
            BencodeValue::String(s) => Ok(s),
            _ => Err(Error::InvalidType),
        }
    }

    /// A copy of the bytes of a byte string.
    pub fn to_byte_buf(&self) -> (r: Result<Vec<u8>, Error>)
        ensures
            match bytes_of(self@) {
                Ok(s) => r matches Ok(b) && b@ == s,
                Err(e) => r == Err::<Vec<u8>, Error>(e),
            },
    {
        match self {
            BencodeValue::String(s) => Ok(s.clone()),
            _ => Err(Error::InvalidType),
        }
    }

    /// The items of a list.
    pub fn as_list(&self) -> (r: Result<&Vec<BencodeValue>, Error>)
        ensures
            match self@ {
                Value::List(l) => r matches Ok(items) && list_view(items@) == l,
                _ => r == Err::<&Vec<BencodeValue>, Error>(Error::InvalidType),
            },
    {
        match self {
            BencodeValue::List(l) => Ok(l),
            _ => Err(Error::InvalidType),
        }
    }

    /// The entries of a dictionary.
    pub fn as_dict(&self) -> (r: Result<&Vec<(Vec<u8>, BencodeValue)>, Error>)
        ensures
            match self@ {
                Value::Dict(d) => r matches Ok(entries) && entries_view(entries@) == d,
                _ => r == Err::<&Vec<(Vec<u8>, BencodeValue)>, Error>(Error::InvalidType),
            },
    {
        match self {
            BencodeValue::Dict(d) => Ok(d),
            _ => Err(Error::InvalidType),
        }
    }

    /// The field `key` of a record. Other fields are passed over.
    pub fn get(&self, key: &[u8]) -> (r: Result<&BencodeValue, Error>)
        ensures
            match field_of(self@, key@) {
                Ok(v) => r matches Ok(x) && x@ == v,
                Err(e) => r == Err::<&BencodeValue, Error>(e),
            },
    {
        match self {
            BencodeValue::Dict(d) => {
                let ghost entries = entries_view(d@);
                proof {
                    lemma_entries_view(d@);
                    assert(entries.skip(0) =~= entries);
                }
                let mut i: usize = 0;
                while i < d.len()
                    invariant
                        i <= d.len(),
                        self@ == Value::Dict(entries),
                        entries == entries_view(d@),
                        entries.len() == d.len(),
                        forall|j: int|
                            0 <= j < d.len() ==> (#[trigger] entries[j]) == (d[j].0@, d[j].1@),
                        dict_get(entries, key@) == dict_get(entries.skip(i as int), key@),
                    decreases d.len() - i,
                {
                    proof {
                        assert(entries.skip(i as int)[0] == entries[i as int]);
                        assert(entries.skip(i as int).drop_first() =~= entries.skip(i + 1));
                    }
                    if key_order(d[i].0.as_slice(), key) == KeyOrder::Same {
                        proof {
                            assert(entries[i as int] == (d[i as int].0@, d[i as int].1@));
                            assert(entries.skip(i as int)[0].0 == key@);
                        }
                        return Ok(&d[i].1);
                    }
                    i += 1;
                }
                Err(Error::MissingField)
            },
            _ => Err(Error::InvalidType),
        }
    }
}

} // verus!
