//! The bencode grammar as a function from bytes to trees.

use vstd::prelude::*;
use crate::bencode::dict::dict_from_entries;
use crate::bencode::error::Error;
use crate::bencode::value::Value;

verus! {

/// An ASCII decimal digit.
pub open spec fn is_digit(b: u8) -> bool {
    48 <= b <= 57
}

/// Number of digits that `s` starts with.
pub open spec fn digits_len(s: Seq<u8>) -> nat
    decreases s.len(),
{
    if s.len() > 0 && is_digit(s[0]) {
        1 + digits_len(s.drop_first())
    } else {
        0
    }
}

/// The number that a string of digits writes.
pub open spec fn digits_value(s: Seq<u8>) -> nat
    decreases s.len(),
{
    if s.len() == 0 {
        0
    } else {
        digits_value(s.drop_last()) * 10 + (s.last() - 48) as nat
    }
}

/// The unsigned number that `s` starts with, and how many bytes it takes:
/// a zero alone, or digits of which the first is not zero.
pub open spec fn parse_natural(s: Seq<u8>) -> Option<(nat, nat)> {
    let n = digits_len(s);
    if n == 0 {
        None
    } else if s[0] == 48 {
        Some((0, 1))
    } else {
        Some((digits_value(s.take(n as int)), n))
    }
}

/// A byte string at the start of `s`, and what follows it.
pub open spec fn parse_byte_string(s: Seq<u8>) -> Result<(Seq<u8>, Seq<u8>), Error> {
    match parse_natural(s) {
        None => Err(Error::Syntax),
        Some((n, used)) => {
            let r = s.skip(used as int);
            if r.len() == 0 || r[0] != 58 {
                Err(Error::Syntax)
            } else if r.len() - 1 < n {
                Err(Error::Syntax)
            } else {
                Ok((r.subrange(1, 1 + n as int), r.skip(1 + n as int)))
            }
        },
    }
}

/// An integer at the start of `s`, and what follows it. Minus zero is no
/// integer; one that 64 bits cannot hold is out of range.
pub open spec fn parse_integer(s: Seq<u8>) -> Result<(int, Seq<u8>), Error> {
    if s.len() == 0 || s[0] != 105 {
        Err(Error::Syntax)
    } else {
        let t = s.skip(1);
        let negative = t.len() > 0 && t[0] == 45;
        let u = if negative {
            t.skip(1)
        } else {
            t
        };
        match parse_natural(u) {
            None => Err(Error::Syntax),
            Some((n, used)) => {
                let r = u.skip(used as int);
                let value = if negative {
                    -(n as int)
                } else {
                    n as int
                };
                if r.len() == 0 || r[0] != 101 {
                    Err(Error::Syntax)
                } else if negative && n == 0 {
                    Err(Error::Syntax)
                } else if value < i64::MIN || value > i64::MAX {
                    Err(Error::OutOfRange)
                } else {
                    Ok((value, r.skip(1)))
                }
            },
        }
    }
}

/// The value at the start of `s` as it is written, dictionary entries in
/// the order of the input, and what follows it.
pub open spec fn parse_value(s: Seq<u8>) -> Result<(Value, Seq<u8>), Error>
    decreases s.len(), 0nat,
{
    if s.len() == 0 {
        Err(Error::Syntax)
    } else if is_digit(s[0]) {
        match parse_byte_string(s) {
            Ok((bytes, rest)) => Ok((Value::String(bytes), rest)),
            Err(e) => Err(e),
        }
    } else if s[0] == 105 {
        match parse_integer(s) {
            Ok((i, rest)) => Ok((Value::Integer(i), rest)),
            Err(e) => Err(e),
        }
    } else if s[0] == 108 {
        match parse_items(s.skip(1)) {
            Ok((items, rest)) => Ok((Value::List(items), rest)),
            Err(e) => Err(e),
        }
    } else if s[0] == 100 {
        match parse_entries(s.skip(1)) {
            Ok((entries, rest)) => Ok((Value::Dict(entries), rest)),
            Err(e) => Err(e),
        }
    } else {
        Err(Error::Syntax)
    }
}

/// The items of a list up to its closing `e`, and what follows that.
pub open spec fn parse_items(s: Seq<u8>) -> Result<(Seq<Value>, Seq<u8>), Error>
    decreases s.len(), 1nat,
{
    if s.len() == 0 {
        Err(Error::Syntax)
    } else if s[0] == 101 {
        Ok((Seq::empty(), s.skip(1)))
    } else {
        match parse_value(s) {
            Err(e) => Err(e),
            Ok((item, rest)) => if rest.len() < s.len() {
                match parse_items(rest) {
                    Err(e) => Err(e),
                    Ok((items, after)) => Ok((seq![item] + items, after)),
                }
            } else {
                Err(Error::Syntax)
            },
        }
    }
}

/// The entries of a dictionary up to its closing `e`, and what follows that.
pub open spec fn parse_entries(s: Seq<u8>) -> Result<(Seq<(Seq<u8>, Value)>, Seq<u8>), Error>
    decreases s.len(), 1nat,
{
    if s.len() == 0 {
        Err(Error::Syntax)
    } else if s[0] == 101 {
        Ok((Seq::empty(), s.skip(1)))
    } else {
        match parse_byte_string(s) {
            Err(e) => Err(e),
            Ok((key, rest)) => if rest.len() < s.len() {
                match parse_value(rest) {
                    Err(e) => Err(e),
                    Ok((value, rest2)) => if rest2.len() < s.len() {
                        match parse_entries(rest2) {
                            Err(e) => Err(e),
                            Ok((entries, after)) => Ok((seq![(key, value)] + entries, after)),
                        }
                    } else {
                        Err(Error::Syntax)
                    },
                }
            } else {
                Err(Error::Syntax)
            },
        }
    }
}

/// The tree with every dictionary in ascending key order; of two entries
/// with one key the later one stays.
pub open spec fn normalize(v: Value) -> Value
    decreases v,
{
    match v {
        Value::String(s) => v,
        Value::Integer(i) => v,
        Value::List(l) => Value::List(normalize_list(l)),
        Value::Dict(d) => Value::Dict(dict_from_entries(normalize_entries(d))),
    }
}

/// `normalize` of every item.
pub open spec fn normalize_list(l: Seq<Value>) -> Seq<Value>
    decreases l,
{
    if l.len() == 0 {
        Seq::empty()
    } else {
        normalize_list(l.drop_last()).push(normalize(l.last()))
    }
}

/// `normalize` of every value, the entries left in their order.
pub open spec fn normalize_entries(d: Seq<(Seq<u8>, Value)>) -> Seq<(Seq<u8>, Value)>
    decreases d,
{
    if d.len() == 0 {
        Seq::empty()
    } else {
        normalize_entries(d.drop_last()).push((d.last().0, normalize(d.last().1)))
    }
}

/// What a whole input decodes to: the one value it holds, in normal form.
pub open spec fn parse(s: Seq<u8>) -> Result<Value, Error> {
    match parse_value(s) {
        Err(e) => Err(e),
        Ok((v, rest)) => if rest.len() == 0 {
            Ok(normalize(v))
        } else {
            Err(Error::TrailingData)
        },
    }
}

} // verus!
