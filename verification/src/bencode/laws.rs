//! What holds of the codec: decoding undoes encoding, encoding undoes
//! decoding of canonical input, and dictionaries come out in key order.

use vstd::prelude::*;
use crate::bencode::dict::{
    dict_from_entries, dict_insert, lemma_dict_from_ascending, lemma_dict_from_entries_ascending,
    lemma_insertion_index,
};
use crate::bencode::encode::{decimal, encode, encode_bytes, encode_entries, encode_list};
use crate::bencode::error::Error;
use crate::bencode::grammar::{
    digits_len, digits_value, is_digit, normalize, normalize_entries, normalize_list, parse,
    parse_byte_string, parse_entries, parse_integer, parse_items, parse_natural, parse_value,
};
use crate::bencode::parse::lemma_digits_len_run;
use crate::bencode::value::{Value, keys_ascending};

verus! {

impl Value {
    /// Every integer of the tree fits in 64 bits.
    pub open spec fn in_range(self) -> bool
        decreases self,
    {
        match self {
            Value::String(_) => true,
            Value::Integer(i) => i64::MIN <= i <= i64::MAX,
            Value::List(l) => forall|i: int| 0 <= i < l.len() ==> (#[trigger] l[i]).in_range(),
            Value::Dict(d) => forall|i: int| 0 <= i < d.len() ==> (#[trigger] d[i]).1.in_range(),
        }
    }
}

/// A well-formed tree has its integers in range.
pub proof fn lemma_wf_in_range(v: Value)
    requires
        v.wf(),
    ensures
        v.in_range(),
    decreases v,
{
    match v {
        Value::List(l) => {
            assert forall|i: int| 0 <= i < l.len() implies (#[trigger] l[i]).in_range() by {
                lemma_wf_in_range(l[i]);
            }
        },
        Value::Dict(d) => {
            assert forall|i: int| 0 <= i < d.len() implies (#[trigger] d[i]).1.in_range() by {
                lemma_wf_in_range(d[i].1);
            }
        },
        _ => {},
    }
}

/// `decimal` writes digits, with no zero in front but for zero itself, and
/// they read back as the number.
pub proof fn lemma_decimal(n: nat)
    ensures
        decimal(n).len() >= 1,
        forall|j: int| 0 <= j < decimal(n).len() ==> is_digit(#[trigger] decimal(n)[j]),
        n == 0 ==> decimal(n) == seq![48u8],
        n > 0 ==> decimal(n)[0] != 48,
        digits_value(decimal(n)) == n,
    decreases n,
{
    if n < 10 {
        let d = decimal(n);
        assert(d.drop_last() =~= Seq::<u8>::empty());
        assert(digits_value(d.drop_last()) == 0);
    } else {
        lemma_decimal(n / 10);
        let front = decimal(n / 10);
        let d = decimal(n);
        assert(d.drop_last() =~= front);
        assert(d[0] == front[0]);
    }
}

/// Digits that do not start with a zero come back from `decimal`.
pub proof fn lemma_decimal_of_digits(t: Seq<u8>)
    requires
        t.len() >= 1,
        forall|j: int| 0 <= j < t.len() ==> is_digit(#[trigger] t[j]),
        t.len() > 1 ==> t[0] != 48,
    ensures
        decimal(digits_value(t)) == t,
        t[0] != 48 ==> digits_value(t) >= 1,
    decreases t.len(),
{
    let front = t.drop_last();
    if front.len() == 0 {
        assert(digits_value(front) == 0);
        assert(decimal(digits_value(t)) =~= t);
    } else {
        assert(front[0] == t[0]);
        lemma_decimal_of_digits(front);
        let n = digits_value(t);
        assert(n == digits_value(front) * 10 + (t.last() - 48));
        assert(n / 10 == digits_value(front));
        assert(n % 10 == t.last() - 48);
        assert(decimal(n) =~= t);
    }
}

/// The digits that `s` starts with are digits, and no more than `s` holds.
pub proof fn lemma_digits_len(s: Seq<u8>)
    ensures
        digits_len(s) <= s.len(),
        forall|j: int| 0 <= j < digits_len(s) ==> is_digit(#[trigger] s[j]),
        digits_len(s) < s.len() ==> !is_digit(s[digits_len(s) as int]),
    decreases s.len(),
{
    if s.len() > 0 && is_digit(s[0]) {
        let t = s.drop_first();
        lemma_digits_len(t);
        assert forall|j: int| 0 <= j < digits_len(s) implies is_digit(#[trigger] s[j]) by {
            if j > 0 {
                assert(s[j] == t[j - 1]);
            }
        }
        if digits_len(s) < s.len() {
            assert(s[digits_len(s) as int] == t[digits_len(t) as int]);
        }
    }
}

/// Reading a number takes the bytes that `decimal` writes for it.
pub proof fn lemma_parse_natural_exact(s: Seq<u8>)
    requires
        parse_natural(s) is Some,
    ensures
        ({
            let (n, used) = parse_natural(s).unwrap();
            1 <= used <= s.len() && s.take(used as int) == decimal(n) && (used < s.len()
                ==> n == 0 || !is_digit(s[used as int]))
        }),
{
    lemma_digits_len(s);
    let (n, used) = parse_natural(s).unwrap();
    if s[0] == 48 {
        assert(s.take(1) =~= seq![48u8]);
    } else {
        let t = s.take(used as int);
        lemma_decimal_of_digits(t);
    }
}

/// A number written by `decimal` is read back, whatever follows it that is
/// no digit.
pub proof fn lemma_parse_natural_of_decimal(n: nat, rest: Seq<u8>)
    requires
        rest.len() == 0 || !is_digit(rest[0]),
    ensures
        parse_natural(decimal(n) + rest) == Some((n, decimal(n).len())),
{
    lemma_decimal(n);
    let d = decimal(n);
    let s = d + rest;
    assert forall|j: int| 0 <= j < d.len() implies is_digit(#[trigger] s[j]) by {
        assert(s[j] == d[j]);
    }
    lemma_digits_len_run(s, 0, d.len() as int);
    assert(s.skip(0) =~= s);
    assert(s.skip(d.len() as int) =~= rest);
    assert(digits_len(rest) == 0);
    assert(s[0] == d[0]);
    assert(s.take(d.len() as int) =~= d);
}

/// An encoding is not empty and starts with a digit, `i`, `l` or `d`.
pub proof fn lemma_encode_first(v: Value)
    ensures
        encode(v).len() >= 2,
        is_digit(encode(v)[0]) || encode(v)[0] == 105 || encode(v)[0] == 108 || encode(v)[0]
            == 100,
        v is String <==> is_digit(encode(v)[0]),
        v is Integer <==> encode(v)[0] == 105,
        v is List <==> encode(v)[0] == 108,
        v is Dict <==> encode(v)[0] == 100,
{
    match v {
        Value::String(s) => {
            lemma_decimal(s.len());
            assert(encode(v)[0] == decimal(s.len())[0]);
        },
        Value::Integer(i) => {},
        Value::List(l) => {},
        Value::Dict(d) => {},
    }
}

/// The encoding of a list is that of its first item and then of the others.
pub proof fn lemma_encode_list_front(l: Seq<Value>)
    requires
        l.len() > 0,
    ensures
        encode_list(l) == encode(l[0]) + encode_list(l.drop_first()),
    decreases l.len(),
{
    if l.len() == 1 {
        assert(l.drop_last() =~= Seq::<Value>::empty());
        assert(l.drop_first() =~= Seq::<Value>::empty());
        assert(encode_list(l) =~= encode(l[0]) + encode_list(l.drop_first()));
    } else {
        lemma_encode_list_front(l.drop_last());
        assert(l.drop_last().drop_first() =~= l.drop_first().drop_last());
        assert(l.drop_last()[0] == l[0]);
        assert(l.drop_first().last() == l.last());
        assert(encode_list(l) =~= encode(l[0]) + encode_list(l.drop_first()));
    }
}

/// The encoding of entries is that of the first entry and then of the others.
pub proof fn lemma_encode_entries_front(d: Seq<(Seq<u8>, Value)>)
    requires
        d.len() > 0,
    ensures
        encode_entries(d) == encode_bytes(d[0].0) + encode(d[0].1) + encode_entries(
            d.drop_first(),
        ),
    decreases d.len(),
{
    if d.len() == 1 {
        assert(d.drop_last() =~= Seq::<(Seq<u8>, Value)>::empty());
        assert(d.drop_first() =~= Seq::<(Seq<u8>, Value)>::empty());
        assert(encode_entries(d) =~= encode_bytes(d[0].0) + encode(d[0].1) + encode_entries(
            d.drop_first(),
        ));
    } else {
        lemma_encode_entries_front(d.drop_last());
        assert(d.drop_last().drop_first() =~= d.drop_first().drop_last());
        assert(d.drop_last()[0] == d[0]);
        assert(d.drop_first().last() == d.last());
        assert(encode_entries(d) =~= encode_bytes(d[0].0) + encode(d[0].1) + encode_entries(
            d.drop_first(),
        ));
    }
}

/// A byte string that was encoded is read back, whatever follows it.
pub proof fn lemma_parse_byte_string_of_encode(b: Seq<u8>, rest: Seq<u8>)
    ensures
        parse_byte_string(encode_bytes(b) + rest) == Ok::<(Seq<u8>, Seq<u8>), Error>((b, rest)),
{
    let d = decimal(b.len());
    let tail = seq![58u8] + b + rest;
    let s = encode_bytes(b) + rest;
    assert(s =~= d + tail);
    assert(tail[0] == 58);
    lemma_parse_natural_of_decimal(b.len(), tail);
    let r = s.skip(d.len() as int);
    assert(r =~= tail);
    assert(r.subrange(1, 1 + b.len() as int) =~= b);
    assert(r.skip(1 + b.len() as int) =~= rest);
}

/// An integer that was encoded is read back, whatever follows it.
pub proof fn lemma_parse_integer_of_encode(i: int, rest: Seq<u8>)
    requires
        i64::MIN <= i <= i64::MAX,
    ensures
        parse_integer(encode(Value::Integer(i)) + rest) == Ok::<(int, Seq<u8>), Error>((i, rest)),
{
    let s = encode(Value::Integer(i)) + rest;
    let tail = seq![101u8] + rest;
    assert(tail[0] == 101);
    let t = s.skip(1);
    if i < 0 {
        let n = (-i) as nat;
        lemma_decimal(n);
        assert(t =~= seq![45u8] + decimal(n) + tail);
        assert(t[0] == 45);
        let u = t.skip(1);
        assert(u =~= decimal(n) + tail);
        lemma_parse_natural_of_decimal(n, tail);
        let r = u.skip(decimal(n).len() as int);
        assert(r =~= tail);
        assert(r.skip(1) =~= rest);
    } else {
        let n = i as nat;
        lemma_decimal(n);
        assert(t =~= decimal(n) + tail);
        assert(t[0] == decimal(n)[0]);
        lemma_parse_natural_of_decimal(n, tail);
        let r = t.skip(decimal(n).len() as int);
        assert(r =~= tail);
        assert(r.skip(1) =~= rest);
    }
}

/// A tree that was encoded is read back as it was, whatever follows it.
pub proof fn lemma_parse_value_of_encode(v: Value, rest: Seq<u8>)
    requires
        v.in_range(),
    ensures
        parse_value(encode(v) + rest) == Ok::<(Value, Seq<u8>), Error>((v, rest)),
    decreases v, 0nat,
{
    let s = encode(v) + rest;
    lemma_encode_first(v);
    assert(s[0] == encode(v)[0]);
    match v {
        Value::String(b) => {
            lemma_parse_byte_string_of_encode(b, rest);
        },
        Value::Integer(i) => {
            lemma_parse_integer_of_encode(i, rest);
        },
        Value::List(l) => {
            assert(s.skip(1) =~= encode_list(l) + seq![101u8] + rest);
            lemma_parse_items_of_encode(l, rest);
        },
        Value::Dict(d) => {
            assert(s.skip(1) =~= encode_entries(d) + seq![101u8] + rest);
            lemma_parse_entries_of_encode(d, rest);
        },
    }
}

/// The items of an encoded list are read back up to its end.
pub proof fn lemma_parse_items_of_encode(l: Seq<Value>, rest: Seq<u8>)
    requires
        forall|i: int| 0 <= i < l.len() ==> (#[trigger] l[i]).in_range(),
    ensures
        parse_items(encode_list(l) + seq![101u8] + rest) == Ok::<(Seq<Value>, Seq<u8>), Error>(
            (l, rest),
        ),
    decreases l, 1nat,
{
    let s = encode_list(l) + seq![101u8] + rest;
    if l.len() == 0 {
        assert(s =~= seq![101u8] + rest);
        assert(s.skip(1) =~= rest);
        assert(l =~= Seq::<Value>::empty());
    } else {
        let tail = l.drop_first();
        lemma_encode_list_front(l);
        let after = encode_list(tail) + seq![101u8] + rest;
        assert(s =~= encode(l[0]) + after);
        lemma_encode_first(l[0]);
        assert(s[0] == encode(l[0])[0]);
        lemma_parse_value_of_encode(l[0], after);
        assert forall|i: int| 0 <= i < tail.len() implies (#[trigger] tail[i]).in_range() by {
            assert(tail[i] == l[i + 1]);
        }
        lemma_parse_items_of_encode(tail, rest);
        assert(seq![l[0]] + tail =~= l);
    }
}

/// The entries of an encoded dictionary are read back up to its end.
pub proof fn lemma_parse_entries_of_encode(d: Seq<(Seq<u8>, Value)>, rest: Seq<u8>)
    requires
        forall|i: int| 0 <= i < d.len() ==> (#[trigger] d[i]).1.in_range(),
    ensures
        parse_entries(encode_entries(d) + seq![101u8] + rest) == Ok::<
            (Seq<(Seq<u8>, Value)>, Seq<u8>),
            Error,
        >((d, rest)),
    decreases d, 1nat,
{
    let s = encode_entries(d) + seq![101u8] + rest;
    if d.len() == 0 {
        assert(s =~= seq![101u8] + rest);
        assert(s.skip(1) =~= rest);
        assert(d =~= Seq::<(Seq<u8>, Value)>::empty());
    } else {
        let tail = d.drop_first();
        lemma_encode_entries_front(d);
        let after = encode_entries(tail) + seq![101u8] + rest;
        let after_key = encode(d[0].1) + after;
        assert(s =~= encode_bytes(d[0].0) + after_key);
        lemma_decimal(d[0].0.len());
        assert(s[0] == decimal(d[0].0.len())[0]);
        lemma_parse_byte_string_of_encode(d[0].0, after_key);
        lemma_encode_first(d[0].1);
        lemma_parse_value_of_encode(d[0].1, after);
        assert forall|i: int| 0 <= i < tail.len() implies (#[trigger] tail[i]).1.in_range() by {
            assert(tail[i] == d[i + 1]);
        }
        lemma_parse_entries_of_encode(tail, rest);
        assert(seq![(d[0].0, d[0].1)] + tail =~= d);
    }
}

/// A byte string that was read is what `encode_bytes` writes.
pub proof fn lemma_encode_of_parse_byte_string(s: Seq<u8>)
    requires
        parse_byte_string(s) is Ok,
    ensures
        ({
            let (b, rest) = parse_byte_string(s).unwrap();
            s == encode_bytes(b) + rest && rest.len() < s.len() && is_digit(s[0])
        }),
{
    lemma_parse_natural_exact(s);
    lemma_digits_len(s);
    let (n, used) = parse_natural(s).unwrap();
    let (b, rest) = parse_byte_string(s).unwrap();
    let r = s.skip(used as int);
    assert(b.len() == n);
    assert(s =~= s.take(used as int) + seq![58u8] + b + rest);
}

/// An integer that was read is what `encode` writes for it.
pub proof fn lemma_encode_of_parse_integer(s: Seq<u8>)
    requires
        parse_integer(s) is Ok,
    ensures
        ({
            let (i, rest) = parse_integer(s).unwrap();
            s == encode(Value::Integer(i)) + rest && rest.len() < s.len() && i64::MIN <= i
                <= i64::MAX
        }),
{
    let (i, rest) = parse_integer(s).unwrap();
    let t = s.skip(1);
    let negative = t.len() > 0 && t[0] == 45;
    let u = if negative {
        t.skip(1)
    } else {
        t
    };
    lemma_parse_natural_exact(u);
    let (n, used) = parse_natural(u).unwrap();
    let r = u.skip(used as int);
    if negative {
        assert(s =~= seq![105u8] + (seq![45u8] + u.take(used as int)) + seq![101u8] + rest);
    } else {
        assert(s =~= seq![105u8] + u.take(used as int) + seq![101u8] + rest);
    }
}

/// Bytes that were read as a value are the encoding of the tree read, as
/// it was written, and then the bytes left over.
pub proof fn lemma_encode_of_parse_value(s: Seq<u8>)
    requires
        parse_value(s) is Ok,
    ensures
        ({
            let (v, rest) = parse_value(s).unwrap();
            s == encode(v) + rest && rest.len() < s.len() && v.in_range()
        }),
    decreases s.len(), 0nat,
{
    let (v, rest) = parse_value(s).unwrap();
    if is_digit(s[0]) {
        lemma_encode_of_parse_byte_string(s);
    } else if s[0] == 105 {
        lemma_encode_of_parse_integer(s);
    } else if s[0] == 108 {
        lemma_encode_of_parse_items(s.skip(1));
        let (items, after) = parse_items(s.skip(1)).unwrap();
        assert(s =~= seq![108u8] + s.skip(1));
        assert(s =~= seq![108u8] + encode_list(items) + seq![101u8] + rest);
    } else {
        lemma_encode_of_parse_entries(s.skip(1));
        let (entries, after) = parse_entries(s.skip(1)).unwrap();
        assert(s =~= seq![100u8] + s.skip(1));
        assert(s =~= seq![100u8] + encode_entries(entries) + seq![101u8] + rest);
    }
}

/// Bytes that were read as the items of a list are their encodings, the
/// closing `e`, and the bytes left over.
pub proof fn lemma_encode_of_parse_items(s: Seq<u8>)
    requires
        parse_items(s) is Ok,
    ensures
        ({
            let (items, rest) = parse_items(s).unwrap();
            s == encode_list(items) + seq![101u8] + rest && rest.len() < s.len() && forall|
                i: int,
            | 0 <= i < items.len() ==> (#[trigger] items[i]).in_range()
        }),
    decreases s.len(), 1nat,
{
    let (items, rest) = parse_items(s).unwrap();
    if s[0] == 101 {
        assert(s =~= seq![101u8] + s.skip(1));
        assert(encode_list(items) =~= Seq::<u8>::empty());
        assert(s =~= encode_list(items) + seq![101u8] + rest);
    } else {
        lemma_encode_of_parse_value(s);
        let (item, r1) = parse_value(s).unwrap();
        lemma_encode_of_parse_items(r1);
        let (xs, after) = parse_items(r1).unwrap();
        assert(items == seq![item] + xs);
        assert(items[0] == item);
        assert(items.drop_first() =~= xs);
        lemma_encode_list_front(items);
        assert(s =~= encode_list(items) + seq![101u8] + rest);
        assert forall|i: int| 0 <= i < items.len() implies (#[trigger] items[i]).in_range() by {
            if i > 0 {
                assert(items[i] == xs[i - 1]);
            }
        }
    }
}

/// Bytes that were read as the entries of a dictionary are their
/// encodings, the closing `e`, and the bytes left over.
pub proof fn lemma_encode_of_parse_entries(s: Seq<u8>)
    requires
        parse_entries(s) is Ok,
    ensures
        ({
            let (entries, rest) = parse_entries(s).unwrap();
            s == encode_entries(entries) + seq![101u8] + rest && rest.len() < s.len() && forall|
                i: int,
            | 0 <= i < entries.len() ==> (#[trigger] entries[i]).1.in_range()
        }),
    decreases s.len(), 1nat,
{
    let (entries, rest) = parse_entries(s).unwrap();
    if s[0] == 101 {
        assert(s =~= seq![101u8] + s.skip(1));
        assert(encode_entries(entries) =~= Seq::<u8>::empty());
        assert(s =~= encode_entries(entries) + seq![101u8] + rest);
    } else {
        lemma_encode_of_parse_byte_string(s);
        let (key, r1) = parse_byte_string(s).unwrap();
        lemma_encode_of_parse_value(r1);
        let (value, r2) = parse_value(r1).unwrap();
        lemma_encode_of_parse_entries(r2);
        let (xs, after) = parse_entries(r2).unwrap();
        assert(entries == seq![(key, value)] + xs);
        assert(entries[0] == (key, value));
        assert(entries.drop_first() =~= xs);
        lemma_encode_entries_front(entries);
        assert(s =~= encode_entries(entries) + seq![101u8] + rest);
        assert forall|i: int| 0 <= i < entries.len() implies (#[trigger] entries[i]).1.in_range() by {
            if i > 0 {
                assert(entries[i] == xs[i - 1]);
            }
        }
    }
}

/// `normalize_list` maps item by item.
pub proof fn lemma_normalize_list(l: Seq<Value>)
    ensures
        normalize_list(l).len() == l.len(),
        forall|i: int| 0 <= i < l.len() ==> (#[trigger] normalize_list(l)[i]) == normalize(l[i]),
    decreases l.len(),
{
    if l.len() > 0 {
        lemma_normalize_list(l.drop_last());
    }
}

/// `normalize_entries` maps entry by entry and keeps the keys.
pub proof fn lemma_normalize_entries(d: Seq<(Seq<u8>, Value)>)
    ensures
        normalize_entries(d).len() == d.len(),
        forall|i: int|
            0 <= i < d.len() ==> (#[trigger] normalize_entries(d)[i]) == (
                d[i].0,
                normalize(d[i].1),
            ),
    decreases d.len(),
{
    if d.len() > 0 {
        lemma_normalize_entries(d.drop_last());
    }
}

/// A well-formed tree is its own normal form.
pub proof fn lemma_normalize_of_wf(v: Value)
    requires
        v.wf(),
    ensures
        normalize(v) == v,
    decreases v,
{
    match v {
        Value::List(l) => {
            lemma_normalize_list(l);
            assert forall|i: int| 0 <= i < l.len() implies normalize_list(l)[i] == l[i] by {
                lemma_normalize_of_wf(l[i]);
            }
            assert(normalize_list(l) =~= l);
        },
        Value::Dict(d) => {
            lemma_normalize_entries(d);
            assert forall|i: int| 0 <= i < d.len() implies normalize_entries(d)[i] == d[i] by {
                lemma_normalize_of_wf(d[i].1);
            }
            assert(normalize_entries(d) =~= d);
            lemma_dict_from_ascending(d);
        },
        _ => {},
    }
}

/// What holds of the value of every entry holds of every value of the
/// dictionary made of them.
pub proof fn lemma_dict_from_entries_values(
    es: Seq<(Seq<u8>, Value)>,
    holds: spec_fn(Value) -> bool,
)
    requires
        forall|i: int| 0 <= i < es.len() ==> holds(#[trigger] es[i].1),
    ensures
        forall|j: int|
            0 <= j < dict_from_entries(es).len() ==> holds(#[trigger] dict_from_entries(es)[j].1),
    decreases es.len(),
{
    if es.len() > 0 {
        let front = es.drop_last();
        assert forall|i: int| 0 <= i < front.len() implies holds(#[trigger] front[i].1) by {
            assert(front[i] == es[i]);
        }
        lemma_dict_from_entries_values(front, holds);
        let d = dict_from_entries(front);
        let r = dict_from_entries(es);
        lemma_insertion_index(d, es.last().0);
        assert(r == dict_insert(d, es.last().0, es.last().1));
        assert(holds(es[es.len() - 1].1));
        assert forall|j: int| 0 <= j < r.len() implies holds(#[trigger] r[j].1) by {
            let p = crate::bencode::dict::insertion_index(d, es.last().0) as int;
            if p < d.len() && d[p].0 == es.last().0 {
                if j != p {
                    assert(r[j] == d[j]);
                }
            } else {
                if j < p {
                    assert(r[j] == d[j]);
                } else if j > p {
                    assert(r[j] == d[j - 1]);
                }
            }
        }
    }
}

/// The normal form of a tree with its integers in range is well formed.
pub proof fn lemma_normalize_wf(v: Value)
    requires
        v.in_range(),
    ensures
        normalize(v).wf(),
    decreases v,
{
    match v {
        Value::List(l) => {
            lemma_normalize_list(l);
            assert forall|i: int| 0 <= i < l.len() implies (#[trigger] normalize_list(l)[i]).wf() by {
                lemma_normalize_wf(l[i]);
            }
        },
        Value::Dict(d) => {
            lemma_normalize_entries(d);
            let es = normalize_entries(d);
            assert forall|i: int| 0 <= i < es.len() implies (#[trigger] es[i]).1.wf() by {
                lemma_normalize_wf(d[i].1);
            }
            lemma_dict_from_entries_values(es, |x: Value| x.wf());
            lemma_dict_from_entries_ascending(es);
        },
        _ => {},
    }
}

/// The input holds one value, written with the keys of every dictionary in
/// strictly ascending order.
pub open spec fn canonical_input(b: Seq<u8>) -> bool {
    parse_value(b) matches Ok((raw, rest)) && rest.len() == 0 && raw.wf()
}

/// Decoding undoes encoding: a well-formed tree comes back from its bytes.
pub proof fn lemma_decode_of_encode(v: Value)
    requires
        v.wf(),
    ensures
        parse(encode(v)) == Ok::<Value, Error>(v),
{
    lemma_wf_in_range(v);
    lemma_parse_value_of_encode(v, Seq::empty());
    assert(encode(v) + Seq::<u8>::empty() =~= encode(v));
    lemma_normalize_of_wf(v);
}

/// Encoding undoes decoding: input in canonical key order comes back, byte
/// for byte, from the value it decodes to.
pub proof fn lemma_encode_of_decode(b: Seq<u8>)
    requires
        canonical_input(b),
    ensures
        parse(b) matches Ok(v) && encode(v) == b,
{
    lemma_encode_of_parse_value(b);
    let (raw, rest) = parse_value(b).unwrap();
    lemma_normalize_of_wf(raw);
    assert(encode(raw) + rest =~= encode(raw));
}

/// Whatever decodes is well formed: integers in range, keys ascending.
pub proof fn lemma_decoded_wf(b: Seq<u8>)
    requires
        parse(b) is Ok,
    ensures
        parse(b).unwrap().wf(),
{
    lemma_encode_of_parse_value(b);
    lemma_normalize_wf(parse_value(b).unwrap().0);
}

/// Canonical ordering: the dictionary made of any entries, in any order,
/// has strictly ascending keys, and its encoding lists exactly those
/// entries in that order.
pub proof fn lemma_dictionary_encoding_ascends(es: Seq<(Seq<u8>, Value)>)
    requires
        forall|i: int| 0 <= i < es.len() ==> (#[trigger] es[i]).1.in_range(),
    ensures
        keys_ascending(dict_from_entries(es)),
        parse_entries(encode_entries(dict_from_entries(es)) + seq![101u8]) == Ok::<
            (Seq<(Seq<u8>, Value)>, Seq<u8>),
            Error,
        >((dict_from_entries(es), Seq::empty())),
        encode(Value::Dict(dict_from_entries(es))) == seq![100u8] + encode_entries(
            dict_from_entries(es),
        ) + seq![101u8],
{
    lemma_dict_from_entries_ascending(es);
    lemma_dict_from_entries_values(es, |x: Value| x.in_range());
    let d = dict_from_entries(es);
    lemma_parse_entries_of_encode(d, Seq::empty());
    assert(encode_entries(d) + seq![101u8] + Seq::<u8>::empty() =~= encode_entries(d) + seq![
        101u8,
    ]);
}

} // verus!
