//! Text as the tracker's query needs it: bytes smuggled through strings as
//! ISO 8859-1, numbers in decimal, and the form encoding of pairs.

use vstd::prelude::*;
use vstd::string::StrSliceExecFns;
use vstd::utf8::{encode_utf8, valid_utf8};
use crate::bencode::encode::{decimal, push_decimal};

verus! {

/// Each byte as the character with that code point.
pub open spec fn latin1(bytes: Seq<u8>) -> Seq<char> {
    Seq::new(bytes.len(), |i: int| bytes[i] as char)
}

/// Every character has a code point of at most 255.
pub open spec fn is_latin1(text: Seq<char>) -> bool {
    forall|i: int| 0 <= i < text.len() ==> (#[trigger] text[i]) as u32 <= 0xff
}

/// Each character as the byte of its code point.
pub open spec fn latin1_bytes(text: Seq<char>) -> Seq<u8> {
    Seq::new(text.len(), |i: int| text[i] as u8)
}

/// `String::push`. Trusted: it appends the character.
#[verifier::external_body]
fn string_push(s: &mut String, c: char)
    ensures
        final(s)@ == old(s)@.push(c),
{
    s.push(c)
}

/// `String::from_utf8`. Trusted: it gives the text exactly when the bytes
/// are valid UTF-8, and the text then has these bytes.
#[verifier::external_body]
pub(crate) fn string_from_utf8(bytes: Vec<u8>) -> (text: Option<String>)
    ensures
        text is Some <==> valid_utf8(bytes@),
        text matches Some(s) ==> encode_utf8(s@) == bytes@,
{
    String::from_utf8(bytes).ok()
}

/// The string whose characters have the bytes as code points.
pub fn decode_iso_8859_1(bytes: &[u8]) -> (text: String)
    ensures
        text@ == latin1(bytes@),
        is_latin1(text@),
        latin1_bytes(text@) == bytes@,
{
    let mut text = String::new();
    let mut i: usize = 0;
    while i < bytes.len()
        invariant
            i <= bytes.len(),
            text@ == latin1(bytes@.take(i as int)),
        decreases bytes.len() - i,
    {
        string_push(&mut text, bytes[i] as char);
        proof {
            assert(text@ =~= latin1(bytes@.take(i + 1)));
        }
        i += 1;
    }
    proof {
        assert(bytes@.take(i as int) =~= bytes@);
        assert(latin1_bytes(text@) =~= bytes@);
    }
    text
}

/// Whether the text holds no character beyond code point 255.
pub fn is_iso_8859_1(input: &str) -> (fits: bool)
    ensures
        fits == is_latin1(input@),
{
    let n = input.unicode_len();
    let mut i: usize = 0;
    while i < n
        invariant
            i <= n,
            n == input@.len(),
            forall|j: int| 0 <= j < i ==> (#[trigger] input@[j]) as u32 <= 0xff,
        decreases n - i,
    {
        if input.get_char(i) as u32 > 0xff {
            return false;
        }
        i += 1;
    }
    true
}

/// The code points of the text as bytes. The text must hold no character
/// beyond code point 255.
pub fn encode_iso_8859_1(input: &str) -> (bytes: Vec<u8>)
    requires
        is_latin1(input@),
    ensures
        bytes@ == latin1_bytes(input@),
{
    let mut bytes: Vec<u8> = Vec::new();
    let n = input.unicode_len();
    let mut i: usize = 0;
    while i < n
        invariant
            i <= n,
            n == input@.len(),
            bytes@.len() == i,
            is_latin1(input@),
            forall|j: int| 0 <= j < i ==> bytes@[j] == (#[trigger] input@[j]) as u8,
        decreases n - i,
    {
        let c = input.get_char(i);
        bytes.push(c as u8);
        i += 1;
    }
    proof {
        assert(bytes@ =~= latin1_bytes(input@));
    }
    bytes
}

/// The decimal digits of `n` as text.
pub fn decimal_string(n: u64) -> (text: String)
    ensures
        text@ == latin1(decimal(n as nat)),
        is_latin1(text@),
{
    let mut digits: Vec<u8> = Vec::new();
    push_decimal(n, &mut digits);
    proof {
        assert(digits@ =~= decimal(n as nat));
    }
    decode_iso_8859_1(digits.as_slice())
}

/// The bytes that the form encoding leaves as they are: ASCII letters and
/// digits, `*`, `-`, `.` and `_`.
pub open spec fn form_unchanged(b: u8) -> bool {
    b == 42 || b == 45 || b == 46 || b == 95 || (48 <= b <= 57) || (65 <= b <= 90) || (97 <= b
        <= 122)
}

/// An upper-case hexadecimal digit.
pub open spec fn hex_upper(d: int) -> char {
    if d < 10 {
        (48 + d) as u8 as char
    } else {
        (55 + d) as u8 as char
    }
}

/// The form encoding of one byte: itself, `+` for a space, or `%` and two
/// upper-case hexadecimal digits.
pub open spec fn form_byte(b: u8) -> Seq<char> {
    if form_unchanged(b) {
        seq![b as char]
    } else if b == 32 {
        seq!['+']
    } else {
        seq!['%', hex_upper(b as int / 16), hex_upper(b as int % 16)]
    }
}

/// The form encoding of bytes, one after the other.
pub open spec fn form_bytes(bytes: Seq<u8>) -> Seq<char>
    decreases bytes.len(),
{
    if bytes.len() == 0 {
        Seq::empty()
    } else {
        form_bytes(bytes.drop_last()) + form_byte(bytes.last())
    }
}

/// Pairs in `application/x-www-form-urlencoded` syntax, names and values
/// taken as ISO 8859-1: `name=value`, joined by `&`.
pub open spec fn form_query(pairs: Seq<(Seq<char>, Seq<char>)>) -> Seq<char>
    decreases pairs.len(),
{
    if pairs.len() == 0 {
        Seq::empty()
    } else {
        let front = form_query(pairs.drop_last());
        let joined = if front.len() > 0 {
            front.push('&')
        } else {
            front
        };
        joined + form_bytes(latin1_bytes(pairs.last().0)).push('=') + form_bytes(
            latin1_bytes(pairs.last().1),
        )
    }
}

/// The names and values of pairs as sequences of characters.
pub open spec fn pairs_view(pairs: Seq<(String, String)>) -> Seq<(Seq<char>, Seq<char>)> {
    Seq::new(pairs.len(), |i: int| (pairs[i].0@, pairs[i].1@))
}

/// Serializes pairs with `form_urlencoded::Serializer` (`new`,
/// `encoding_override`, `extend_pairs`, `finish`), the encoding overridden
/// by `encode_iso_8859_1`.
///
/// Trusted: the serializer writes each pair as name, `=` and value, puts
/// `&` between pairs, and encodes the bytes of names and values as
/// `form_byte` says.
#[verifier::external_body]
pub(crate) fn form_urlencode(pairs: &Vec<(String, String)>) -> (query: String)
    requires
        forall|i: int|
            0 <= i < pairs@.len() ==> is_latin1((#[trigger] pairs@[i]).0@) && is_latin1(
                pairs@[i].1@,
            ),
    ensures
        query@ == form_query(pairs_view(pairs@)),
{
    let mut encoder = form_urlencoded::Serializer::new(String::new());
    encoder.encoding_override(Some(&|s| std::borrow::Cow::Owned(encode_iso_8859_1(s))));
    encoder.extend_pairs(pairs.iter());
    encoder.finish()
}

} // verus!
