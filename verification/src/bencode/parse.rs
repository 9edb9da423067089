//! The decoder: bytes to a `BencodeValue`, along the grammar.

use vstd::prelude::*;
use vstd::slice::{slice_subrange, slice_to_vec};
use crate::bencode::dict::{dict_from_entries, insert_entry};
use crate::bencode::error::Error;
use crate::bencode::grammar::{
    digits_len, digits_value, is_digit, normalize, normalize_entries, normalize_list, parse,
    parse_byte_string, parse_entries, parse_integer, parse_items, parse_natural, parse_value,
};
use crate::bencode::laws::lemma_decoded_wf;
use crate::bencode::value::{BencodeValue, Value, entries_view, list_view};

verus! {

/// A run of digits counts in full, and the count goes on behind it.
pub proof fn lemma_digits_len_run(s: Seq<u8>, from: int, to: int)
    requires
        0 <= from <= to <= s.len(),
        forall|j: int| from <= j < to ==> is_digit(#[trigger] s[j]),
    ensures
        digits_len(s.skip(from)) == (to - from) + digits_len(s.skip(to)),
    decreases to - from,
{
    if from < to {
        assert(s.skip(from)[0] == s[from]);
        assert(s.skip(from).drop_first() =~= s.skip(from + 1));
        lemma_digits_len_run(s, from + 1, to);
    }
}

/// One more digit multiplies by ten and adds.
pub proof fn lemma_digits_value_step(s: Seq<u8>, from: int, to: int)
    requires
        0 <= from <= to < s.len(),
    ensures
        digits_value(s.subrange(from, to + 1)) == digits_value(s.subrange(from, to)) * 10 + (s[to]
            - 48) as nat,
{
    let t = s.subrange(from, to + 1);
    assert(t.drop_last() =~= s.subrange(from, to));
    assert(t.last() == s[to]);
}

/// Reads the unsigned number at `pos`. The flag says that 64 bits cannot hold
/// it, and then the number returned means nothing.
pub fn scan_natural(input: &[u8], pos: usize) -> (r: Option<(u64, bool, usize)>)
    requires
        pos <= input.len(),
    ensures
        match parse_natural(input@.skip(pos as int)) {
            None => r is None,
            Some((n, used)) => r matches Some((value, overflow, next)) && next == pos + used && next
                <= input.len() && (overflow <==> n > u64::MAX) && (!overflow ==> value == n),
        },
{
    let ghost s = input@;
    if pos >= input.len() || input[pos] < 48 || input[pos] > 57 {
        return None;
    }
    assert(s.skip(pos as int)[0] == s[pos as int]);
    if input[pos] == 48 {
        return Some((0, false, pos + 1));
    }
    let mut i: usize = pos;
    let mut value: u64 = 0;
    let mut overflow: bool = false;
    proof {
        assert(s.subrange(pos as int, pos as int).len() == 0);
    }
    while i < input.len() && 48 <= input[i] && input[i] <= 57
        invariant
            s == input@,
            pos <= i <= input.len(),
            forall|j: int| pos <= j < i ==> is_digit(#[trigger] s[j]),
            overflow <==> digits_value(s.subrange(pos as int, i as int)) > u64::MAX,
            !overflow ==> value == digits_value(s.subrange(pos as int, i as int)),
        decreases input.len() - i,
    {
        let digit: u64 = (input[i] - 48) as u64;
        proof {
            lemma_digits_value_step(s, pos as int, i as int);
        }
        if !overflow {
            if value > (u64::MAX - digit) / 10 {
                overflow = true;
            } else {
                value = value * 10 + digit;
            }
        }
        i += 1;
    }
    proof {
        lemma_digits_len_run(s, pos as int, i as int);
        assert(s.skip(i as int).len() > 0 ==> s.skip(i as int)[0] == s[i as int]);
        assert(digits_len(s.skip(i as int)) == 0);
        assert(s.skip(pos as int).take(i - pos) =~= s.subrange(pos as int, i as int));
    }
    Some((value, overflow, i))
}

/// Reads the byte string at `pos`; returns it with the position behind it.
pub fn parse_byte_string_at(input: &[u8], pos: usize) -> (r: Result<(Vec<u8>, usize), Error>)
    requires
        pos <= input.len(),
    ensures
        match parse_byte_string(input@.skip(pos as int)) {
            Ok((bytes, rest)) => r matches Ok((v, next)) && v@ == bytes && pos < next
                <= input.len() && input@.skip(next as int) == rest,
            Err(e) => r == Err::<(Vec<u8>, usize), Error>(e),
        },
{
    let ghost s = input@.skip(pos as int);
    match scan_natural(input, pos) {
        None => Err(Error::Syntax),
        Some((n, overflow, colon)) => {
            proof {
                assert(s.skip(colon - pos) =~= input@.skip(colon as int));
                assert(colon < input.len() ==> input@.skip(colon as int)[0] == input@[colon as int]);
            }
            if colon >= input.len() || input[colon] != 58 {
                return Err(Error::Syntax);
            }
            let start = colon + 1;
            let available = input.len() - start;
            if overflow || n > available as u64 {
                return Err(Error::Syntax);
            }
            let end = start + n as usize;
            let bytes = slice_to_vec(slice_subrange(input, start, end));
            proof {
                let r = input@.skip(colon as int);
                assert(r.subrange(1, 1 + n as int) =~= input@.subrange(start as int, end as int));
                assert(r.skip(1 + n as int) =~= input@.skip(end as int));
            }
            Ok((bytes, end))
        },
    }
}

/// Reads the integer at `pos`; returns it with the position behind it.
pub fn parse_integer_at(input: &[u8], pos: usize) -> (r: Result<(i64, usize), Error>)
    requires
        pos <= input.len(),
    ensures
        match parse_integer(input@.skip(pos as int)) {
            Ok((i, rest)) => r matches Ok((v, next)) && v == i && pos < next <= input.len()
                && input@.skip(next as int) == rest,
            Err(e) => r == Err::<(i64, usize), Error>(e),
        },
{
    let ghost s = input@.skip(pos as int);
    if pos >= input.len() || input[pos] != 105 {
        return Err(Error::Syntax);
    }
    let sign = pos + 1;
    proof {
        assert(s.skip(1) =~= input@.skip(sign as int));
        assert(sign < input.len() ==> input@.skip(sign as int)[0] == input@[sign as int]);
    }
    let negative = sign < input.len() && input[sign] == 45;
    let digits = if negative {
        sign + 1
    } else {
        sign
    };
    proof {
        assert(sign < input.len() ==> input@.skip(sign as int).skip(1) =~= input@.skip(sign + 1));
    }
    match scan_natural(input, digits) {
        None => Err(Error::Syntax),
        Some((n, overflow, end)) => {
            proof {
                assert(input@.skip(digits as int).skip(end - digits) =~= input@.skip(end as int));
                assert(end < input.len() ==> input@.skip(end as int)[0] == input@[end as int]);
                assert(end < input.len() ==> input@.skip(end as int).skip(1) =~= input@.skip(
                    end + 1,
                ));
            }
            if end >= input.len() || input[end] != 101 {
                return Err(Error::Syntax);
            }
            if negative {
                if !overflow && n == 0 {
                    return Err(Error::Syntax);
                }
                if overflow || n > 0x8000_0000_0000_0000 {
                    return Err(Error::OutOfRange);
                }
                let value: i64 = if n == 0x8000_0000_0000_0000 {
                    i64::MIN
                } else {
                    -(n as i64)
                };
                Ok((value, end + 1))
            } else {
                if overflow || n > 0x7fff_ffff_ffff_ffff {
                    return Err(Error::OutOfRange);
                }
                Ok((n as i64, end + 1))
            }
        },
    }
}

/// What a list parse gives when `front` was read before it.
pub open spec fn with_items_before(
    front: Seq<Value>,
    r: Result<(Seq<Value>, Seq<u8>), Error>,
) -> Result<(Seq<Value>, Seq<u8>), Error> {
    match r {
        Ok((items, rest)) => Ok((front + items, rest)),
        Err(e) => Err(e),
    }
}

/// What a dictionary parse gives when `front` was read before it.
pub open spec fn with_entries_before(
    front: Seq<(Seq<u8>, Value)>,
    r: Result<(Seq<(Seq<u8>, Value)>, Seq<u8>), Error>,
) -> Result<(Seq<(Seq<u8>, Value)>, Seq<u8>), Error> {
    match r {
        Ok((entries, rest)) => Ok((front + entries, rest)),
        Err(e) => Err(e),
    }
}

/// Reads the value at `pos`; returns it in normal form with the position
/// behind it.
pub fn parse_value_at(input: &[u8], pos: usize) -> (r: Result<(BencodeValue, usize), Error>)
    requires
        pos <= input.len(),
    ensures
        match parse_value(input@.skip(pos as int)) {
            Ok((raw, rest)) => r matches Ok((v, next)) && v@ == normalize(raw) && pos < next
                <= input.len() && input@.skip(next as int) == rest,
            Err(e) => r == Err::<(BencodeValue, usize), Error>(e),
        },
    decreases input.len() - pos, 0nat,
{
    let ghost s = input@.skip(pos as int);
    if pos >= input.len() {
        return Err(Error::Syntax);
    }
    assert(s[0] == input@[pos as int]);
    assert(s.skip(1) =~= input@.skip(pos + 1));
    let first = input[pos];
    if 48 <= first && first <= 57 {
        match parse_byte_string_at(input, pos) {
            Ok((bytes, next)) => Ok((BencodeValue::String(bytes), next)),
            Err(e) => Err(e),
        }
    } else if first == 105 {
        match parse_integer_at(input, pos) {
            Ok((i, next)) => Ok((BencodeValue::Integer(i), next)),
            Err(e) => Err(e),
        }
    } else if first == 108 {
        match parse_list_at(input, pos + 1) {
            Ok((items, next)) => Ok((BencodeValue::List(items), next)),
            Err(e) => Err(e),
        }
    } else if first == 100 {
        match parse_dict_at(input, pos + 1) {
            Ok((entries, next)) => Ok((BencodeValue::Dict(entries), next)),
            Err(e) => Err(e),
        }
    } else {
        Err(Error::Syntax)
    }
}

/// Reads list items from `start` up to the closing `e`.
pub fn parse_list_at(input: &[u8], start: usize) -> (r: Result<(Vec<BencodeValue>, usize), Error>)
    requires
        start <= input.len(),
    ensures
        match parse_items(input@.skip(start as int)) {
            Ok((raw, rest)) => r matches Ok((items, next)) && list_view(items@) == normalize_list(
                raw,
            ) && start < next <= input.len() && input@.skip(next as int) == rest,
            Err(e) => r == Err::<(Vec<BencodeValue>, usize), Error>(e),
        },
    decreases input.len() - start, 1nat,
{
    let mut items: Vec<BencodeValue> = Vec::new();
    let mut pos: usize = start;
    let ghost mut raw: Seq<Value> = Seq::empty();
    let ghost whole = parse_items(input@.skip(start as int));
    proof {
        assert(whole == with_items_before(raw, parse_items(input@.skip(pos as int)))) by {
            match parse_items(input@.skip(pos as int)) {
                Ok((xs, rest)) => {
                    assert(raw + xs =~= xs);
                },
                Err(e) => {},
            }
        }
    }
    loop
        invariant
            start <= pos <= input.len(),
            whole == parse_items(input@.skip(start as int)),
            whole == with_items_before(raw, parse_items(input@.skip(pos as int))),
            list_view(items@) == normalize_list(raw),
        decreases input.len() - pos,
    {
        let ghost s = input@.skip(pos as int);
        if pos >= input.len() {
            return Err(Error::Syntax);
        }
        assert(s[0] == input@[pos as int]);
        if input[pos] == 101 {
            proof {
                assert(s.skip(1) =~= input@.skip(pos + 1));
                assert(raw + Seq::<Value>::empty() =~= raw);
            }
            return Ok((items, pos + 1));
        }
        match parse_value_at(input, pos) {
            Err(e) => {
                return Err(e);
            },
            Ok((item, next)) => {
                proof {
                    let raw_item = parse_value(s).unwrap().0;
                    let tail = parse_items(input@.skip(next as int));
                    assert(parse_items(s) == with_items_before(seq![raw_item], tail));
                    match tail {
                        Ok((xs, rest)) => {
                            assert(raw + (seq![raw_item] + xs) =~= raw.push(raw_item) + xs);
                        },
                        Err(e) => {},
                    }
                    assert(items@.push(item).drop_last() =~= items@);
                    assert(raw.push(raw_item).drop_last() =~= raw);
                    raw = raw.push(raw_item);
                }
                items.push(item);
                pos = next;
            },
        }
    }
}

/// Reads dictionary entries from `start` up to the closing `e`.
pub fn parse_dict_at(input: &[u8], start: usize) -> (r: Result<
    (Vec<(Vec<u8>, BencodeValue)>, usize),
    Error,
>)
    requires
        start <= input.len(),
    ensures
        match parse_entries(input@.skip(start as int)) {
            Ok((raw, rest)) => r matches Ok((entries, next)) && entries_view(entries@)
                == dict_from_entries(normalize_entries(raw)) && start < next <= input.len()
                && input@.skip(next as int) == rest,
            Err(e) => r == Err::<(Vec<(Vec<u8>, BencodeValue)>, usize), Error>(e),
        },
    decreases input.len() - start, 1nat,
{
    let mut entries: Vec<(Vec<u8>, BencodeValue)> = Vec::new();
    let mut pos: usize = start;
    let ghost mut raw: Seq<(Seq<u8>, Value)> = Seq::empty();
    let ghost whole = parse_entries(input@.skip(start as int));
    proof {
        assert(whole == with_entries_before(raw, parse_entries(input@.skip(pos as int)))) by {
            match parse_entries(input@.skip(pos as int)) {
                Ok((xs, rest)) => {
                    assert(raw + xs =~= xs);
                },
                Err(e) => {},
            }
        }
    }
    loop
        invariant
            start <= pos <= input.len(),
            whole == parse_entries(input@.skip(start as int)),
            whole == with_entries_before(raw, parse_entries(input@.skip(pos as int))),
            entries_view(entries@) == dict_from_entries(normalize_entries(raw)),
        decreases input.len() - pos,
    {
        let ghost s = input@.skip(pos as int);
        if pos >= input.len() {
            return Err(Error::Syntax);
        }
        assert(s[0] == input@[pos as int]);
        if input[pos] == 101 {
            proof {
                assert(s.skip(1) =~= input@.skip(pos + 1));
                assert(raw + Seq::<(Seq<u8>, Value)>::empty() =~= raw);
            }
            return Ok((entries, pos + 1));
        }
        let (key, after_key) = match parse_byte_string_at(input, pos) {
            Err(e) => {
                return Err(e);
            },
            Ok(found) => found,
        };
        match parse_value_at(input, after_key) {
            Err(e) => {
                return Err(e);
            },
            Ok((value, next)) => {
                proof {
                    let raw_value = parse_value(input@.skip(after_key as int)).unwrap().0;
                    let entry = (key@, raw_value);
                    let tail = parse_entries(input@.skip(next as int));
                    assert(parse_entries(s) == with_entries_before(seq![entry], tail));
                    match tail {
                        Ok((xs, rest)) => {
                            assert(raw + (seq![entry] + xs) =~= raw.push(entry) + xs);
                        },
                        Err(e) => {},
                    }
                    assert(raw.push(entry).drop_last() =~= raw);
                    let done = normalize_entries(raw);
                    let normal = (key@, normalize(raw_value));
                    assert(normalize_entries(raw.push(entry)) == done.push(normal));
                    assert(done.push(normal).drop_last() =~= done);
                    raw = raw.push(entry);
                }
                insert_entry(&mut entries, key, value);
                pos = next;
            },
        }
    }
}

impl BencodeValue {
    /// Decodes `bytes`, which must hold one value and nothing else. Keys may
    /// come in any order; the value returned has them in ascending order.
    pub fn try_from_bytes(bytes: &[u8]) -> (r: Result<BencodeValue, Error>)
        ensures
            match parse(bytes@) {
                Ok(v) => r matches Ok(x) && x@ == v && x.wf(),
                Err(e) => r == Err::<BencodeValue, Error>(e),
            },
    {
        proof {
            assert(bytes@.skip(0) =~= bytes@);
            if parse(bytes@) is Ok {
                lemma_decoded_wf(bytes@);
            }
        }
        match parse_value_at(bytes, 0) {
            Err(e) => Err(e),
            Ok((value, next)) => {
                if next == bytes.len() {
                    Ok(value)
                } else {
                    Err(Error::TrailingData)
                }
            },
        }
    }
}

} // verus!
