//! Building lists, dictionaries and variants step by step, as a record is
//! written out field by field.

use vstd::prelude::*;
use vstd::utf8::{encode_utf8, valid_utf8};
use crate::bencode::dict::{dict_insert, insert_entry};
use crate::bencode::error::Error;
use crate::bencode::value::{BencodeValue, Value, entries_view, lemma_entries_view, list_view};
use crate::text::string_from_utf8;

verus! {

/// A list in the making.
#[derive(Debug)]
pub struct SeqSerializer {
    pub result: Vec<BencodeValue>,
}

impl SeqSerializer {
    /// An empty list, with room for `len` items where the number is known.
    pub fn new(len: Option<usize>) -> (s: Self)
        ensures
            s.result@.len() == 0,
    {
        SeqSerializer { result: Vec::new() }
    }

    pub fn serialize_element(&mut self, value: BencodeValue)
        ensures
            final(self).result@ == old(self).result@.push(value),
    {
        self.result.push(value);
    }

    pub fn end(self) -> (value: BencodeValue)
        ensures
            value@ == Value::List(list_view(self.result@)),
    {
        BencodeValue::List(self.result)
    }
}

/// A dictionary in the making. A key waits in `next_key` for its value.
#[derive(Debug)]
pub struct MapSerializer {
    pub result: Vec<(Vec<u8>, BencodeValue)>,
    pub next_key: Option<Vec<u8>>,
}

impl MapSerializer {
    pub fn new() -> (s: Self)
        ensures
            s.result@.len() == 0,
            s.next_key is None,
    {
        MapSerializer { result: Vec::new(), next_key: None }
    }

    /// Sets the key of the next entry, in place of one that still waited.
    pub fn serialize_key(&mut self, key: Vec<u8>)
        ensures
            final(self).result == old(self).result,
            final(self).next_key == Some(key),
    {
        self.next_key = Some(key);
    }

    /// Binds the waiting key to `value`. A key must wait.
    pub fn serialize_value(&mut self, value: BencodeValue)
        requires
            old(self).next_key is Some,
        ensures
            final(self).next_key is None,
            entries_view(final(self).result@) == dict_insert(
                entries_view(old(self).result@),
                old(self).next_key->Some_0@,
                value@,
            ),
    {
        match self.next_key.take() {
            Some(key) => {
                insert_entry(&mut self.result, key, value);
            },
            None => {},
        }
    }

    /// Binds `key` to `value`.
    pub fn serialize_field(&mut self, key: Vec<u8>, value: BencodeValue)
        ensures
            final(self).next_key == old(self).next_key,
            entries_view(final(self).result@) == dict_insert(
                entries_view(old(self).result@),
                key@,
                value@,
            ),
    {
        insert_entry(&mut self.result, key, value);
    }

    /// The dictionary. No key may wait for a value.
    pub fn end(self) -> (value: BencodeValue)
        requires
            self.next_key is None,
        ensures
            value@ == Value::Dict(entries_view(self.result@)),
    {
        BencodeValue::Dict(self.result)
    }
}

/// The dictionary with the one entry `name`: how a variant with a payload
/// is written.
pub fn serialize_newtype_variant(variant: Vec<u8>, value: BencodeValue) -> (r: BencodeValue)
    ensures
        r@ == Value::Dict(seq![(variant@, value@)]),
{
    let ghost entry = (variant@, value@);
    let mut dict: Vec<(Vec<u8>, BencodeValue)> = Vec::new();
    dict.push((variant, value));
    proof {
        lemma_entries_view(dict@);
        assert(entries_view(dict@) =~= seq![entry]);
    }
    BencodeValue::Dict(dict)
}

/// A tuple variant in the making.
#[derive(Debug)]
pub struct TupleVariantSerializer {
    pub name: Vec<u8>,
    pub result: Vec<BencodeValue>,
}

impl TupleVariantSerializer {
    /// The variant `variant` with no field yet.
    pub fn new(variant: Vec<u8>, len: usize) -> (s: Self)
        ensures
            s.name == variant,
            s.result@.len() == 0,
    {
        TupleVariantSerializer { name: variant, result: Vec::new() }
    }

    pub fn serialize_field(&mut self, value: BencodeValue)
        ensures
            final(self).name == old(self).name,
            final(self).result@ == old(self).result@.push(value),
    {
        self.result.push(value);
    }

    /// The variant: its name bound to the list of its fields.
    pub fn end(self) -> (value: BencodeValue)
        ensures
            value@ == Value::Dict(seq![(self.name@, Value::List(list_view(self.result@)))]),
    {
        serialize_newtype_variant(self.name, BencodeValue::List(self.result))
    }
}

/// A struct variant in the making.
#[derive(Debug)]
pub struct StructVariantSerializer {
    pub name: Vec<u8>,
    pub result: Vec<(Vec<u8>, BencodeValue)>,
}

impl StructVariantSerializer {
    /// The variant `variant` with no field yet.
    pub fn new(variant: Vec<u8>, len: usize) -> (s: Self)
        ensures
            s.name == variant,
            s.result@.len() == 0,
    {
        StructVariantSerializer { name: variant, result: Vec::new() }
    }

    pub fn serialize_field(&mut self, key: Vec<u8>, value: BencodeValue)
        ensures
            final(self).name == old(self).name,
            entries_view(final(self).result@) == dict_insert(
                entries_view(old(self).result@),
                key@,
                value@,
            ),
    {
        insert_entry(&mut self.result, key, value);
    }

    /// The variant: its name bound to the dictionary of its fields.
    pub fn end(self) -> (value: BencodeValue)
        ensures
            value@ == Value::Dict(seq![(self.name@, Value::Dict(entries_view(self.result@)))]),
    {
        serialize_newtype_variant(self.name, BencodeValue::Dict(self.result))
    }
}

/// A dictionary key given as bytes, which must be valid UTF-8.
pub fn map_key_from_bytes(v: &[u8]) -> (r: Result<String, Error>)
    ensures
        valid_utf8(v@) ==> (r matches Ok(key) && encode_utf8(key@) == v@),
        !valid_utf8(v@) ==> r is Err && r->Err_0 == Error::InvalidValue,
{
    match string_from_utf8(vstd::slice::slice_to_vec(v)) {
        Some(key) => Ok(key),
        None => Err(Error::InvalidValue),
    }
}

/// What a variant is read from: its name alone, or a dictionary that
/// binds its name to its payload.
#[derive(Debug)]
pub enum EnumDeserializer {
    String(String),
    Struct(Vec<(Vec<u8>, BencodeValue)>),
}

impl BencodeValue {
    /// Reads the value as a variant: a dictionary, or a byte string that
    /// is valid UTF-8.
    pub fn deserialize_enum(self) -> (r: Result<EnumDeserializer, Error>)
        ensures
            match self@ {
                Value::Dict(d) => r matches Ok(EnumDeserializer::Struct(entries)) && entries_view(
                    entries@,
                ) == d,
                Value::String(s) => if valid_utf8(s) {
                    r matches Ok(EnumDeserializer::String(name)) && encode_utf8(name@) == s
                } else {
                    r is Err && r->Err_0 == Error::InvalidValue
                },
                _ => r is Err && r->Err_0 == Error::InvalidValue,
            },
    {
        match self {
            BencodeValue::Dict(d) => Ok(EnumDeserializer::Struct(d)),
            BencodeValue::String(s) => match string_from_utf8(s) {
                Some(name) => Ok(EnumDeserializer::String(name)),
                None => Err(Error::InvalidValue),
            },
            _ => Err(Error::InvalidValue),
        }
    }
}

} // verus!
