//! The byte encoding of a bencode value.

use vstd::prelude::*;
use crate::bencode::value::{BencodeValue, Value, lemma_entries_view, lemma_list_view};

verus! {

/// The decimal digits of `n`, most significant first, without leading zeros.
pub open spec fn decimal(n: nat) -> Seq<u8>
    decreases n,
{
    if n < 10 {
        seq![(48 + n) as u8]
    } else {
        decimal(n / 10).push((48 + n % 10) as u8)
    }
}

/// `decimal` of the magnitude, behind a minus sign for a negative number.
pub open spec fn signed_decimal(i: int) -> Seq<u8> {
    if i < 0 {
        seq![45u8] + decimal((-i) as nat)
    } else {
        decimal(i as nat)
    }
}

/// A byte string on the wire: its length, a colon, the bytes.
pub open spec fn encode_bytes(s: Seq<u8>) -> Seq<u8> {
    decimal(s.len()) + seq![58u8] + s
}

/// The encoding of a tree. Dictionary entries are written in the order in
/// which the tree holds them.
pub open spec fn encode(v: Value) -> Seq<u8>
    decreases v,
{
    match v {
        Value::String(s) => encode_bytes(s),
        Value::Integer(i) => seq![105u8] + signed_decimal(i) + seq![101u8],
        Value::List(l) => seq![108u8] + encode_list(l) + seq![101u8],
        Value::Dict(d) => seq![100u8] + encode_entries(d) + seq![101u8],
    }
}

/// The encodings of the items of a list, one after the other.
pub open spec fn encode_list(l: Seq<Value>) -> Seq<u8>
    decreases l,
{
    if l.len() == 0 {
        Seq::empty()
    } else {
        encode_list(l.drop_last()) + encode(l.last())
    }
}

/// The encodings of the entries of a dictionary, each a key and its value.
pub open spec fn encode_entries(d: Seq<(Seq<u8>, Value)>) -> Seq<u8>
    decreases d,
{
    if d.len() == 0 {
        Seq::empty()
    } else {
        encode_entries(d.drop_last()) + encode_bytes(d.last().0) + encode(d.last().1)
    }
}

/// Appends the decimal digits of `n` to `out`.
pub fn push_decimal(n: u64, out: &mut Vec<u8>)
    ensures
        final(out)@ == old(out)@ + decimal(n as nat),
    decreases n,
{
    if n >= 10 {
        push_decimal(n / 10, out);
    }
    out.push(48 + (n % 10) as u8);
    assert(final(out)@ =~= old(out)@ + decimal(n as nat));
}

/// Appends a length-prefixed byte string to `out`.
pub fn push_byte_string(s: &Vec<u8>, out: &mut Vec<u8>)
    ensures
        final(out)@ == old(out)@ + encode_bytes(s@),
{
    push_decimal(s.len() as u64, out);
    out.push(58);
    out.extend_from_slice(s.as_slice());
    assert(final(out)@ =~= old(out)@ + encode_bytes(s@));
}

impl BencodeValue {
    /// Appends the encoding of the value to `out`.
    #[verifier::loop_isolation(false)]
    pub fn encode_into(&self, out: &mut Vec<u8>)
        ensures
            final(out)@ == old(out)@ + encode(self@),
        decreases self,
    {
        match self {
            BencodeValue::String(s) => {
                push_byte_string(s, out);
            },
            BencodeValue::Integer(i) => {
                out.push(105);
                if *i < 0 {
                    out.push(45);
                    let magnitude: u64 = (-(*i + 1)) as u64 + 1;
                    push_decimal(magnitude, out);
                } else {
                    push_decimal(*i as u64, out);
                }
                out.push(101);
                assert(out@ =~= old(out)@ + encode(self@));
            },
            BencodeValue::List(l) => {
                out.push(108);
                let ghost items = self@->List_0;
                proof {
                    lemma_list_view(l@);
                }
                let mut i: usize = 0;
                while i < l.len()
                    invariant
                        i <= l.len(),
                        out@ == old(out)@ + seq![108u8] + encode_list(items.take(i as int)),
                    decreases l.len() - i,
                {
                    l[i].encode_into(out);
                    proof {
                        let next = items.take(i + 1);
                        assert(next.drop_last() =~= items.take(i as int));
                        assert(next.last() == l[i as int]@);
                        assert(out@ =~= old(out)@ + seq![108u8] + encode_list(next));
                    }
                    i += 1;
                }
                out.push(101);
                assert(items.take(i as int) =~= items);
                assert(out@ =~= old(out)@ + encode(self@));
            },
            BencodeValue::Dict(d) => {
                out.push(100);
                let ghost entries = self@->Dict_0;
                proof {
                    lemma_entries_view(d@);
                }
                let mut i: usize = 0;
                while i < d.len()
                    invariant
                        i <= d.len(),
                        out@ == old(out)@ + seq![100u8] + encode_entries(entries.take(i as int)),
                    decreases d.len() - i,
                {
                    push_byte_string(&d[i].0, out);
                    d[i].1.encode_into(out);
                    proof {
                        let next = entries.take(i + 1);
                        assert(next.drop_last() =~= entries.take(i as int));
                        assert(next.last() == (d[i as int].0@, d[i as int].1@));
                        assert(out@ =~= old(out)@ + seq![100u8] + encode_entries(next));
                    }
                    i += 1;
                }
                out.push(101);
                assert(entries.take(i as int) =~= entries);
                assert(out@ =~= old(out)@ + encode(self@));
            },
        }
    }

    /// The encoding of the value.
    pub fn to_byte_string(&self) -> (bytes: Vec<u8>)
        ensures
            bytes@ == encode(self@),
    {
        let mut out: Vec<u8> = Vec::new();
        self.encode_into(&mut out);
        assert(out@ =~= encode(self@));
        out
    }
}

} // verus!
