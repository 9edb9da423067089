//! The byte buffers of the `bytes` crate, as verified code sees them: what
//! a buffer holds, and what each call used here does to it.

use vstd::prelude::*;
use bytes::{Buf, BufMut, Bytes, BytesMut};

verus! {

/// `bytes::Bytes`, a shared buffer that is read from its front. Nothing is
/// known of a value but what `bytes_contents` says.
#[verifier::external_type_specification]
#[verifier::external_body]
pub struct ExBytes(bytes::Bytes);

/// `bytes::BytesMut`, a buffer that is written at its end. Nothing is known
/// of a value but what `bytes_mut_contents` says.
#[verifier::external_type_specification]
#[verifier::external_body]
pub struct ExBytesMut(bytes::BytesMut);

/// The bytes that a `Bytes` holds, from its cursor to its end.
pub uninterp spec fn bytes_contents(b: Bytes) -> Seq<u8>;

/// The bytes written to a `BytesMut` so far.
pub uninterp spec fn bytes_mut_contents(b: BytesMut) -> Seq<u8>;

/// The number that bytes write in big-endian order.
pub open spec fn be_value(s: Seq<u8>) -> nat
    decreases s.len(),
{
    if s.len() == 0 {
        0
    } else {
        be_value(s.drop_last()) * 256 + s.last() as nat
    }
}

/// The `width` low bytes of `n` in big-endian order.
pub open spec fn be_bytes(n: nat, width: nat) -> Seq<u8>
    decreases width,
{
    if width == 0 {
        Seq::empty()
    } else {
        be_bytes(n / 256, (width - 1) as nat).push((n % 256) as u8)
    }
}

/// `Clone::clone` of `Bytes`, which shares the storage. Trusted: the clone
/// holds the same bytes.
pub assume_specification[ <bytes::Bytes as Clone>::clone ](b: &bytes::Bytes) -> (copy:
    bytes::Bytes)
    ensures
        bytes_contents(copy) == bytes_contents(*b),
;

/// `to_vec` on the slice that a `Bytes` derefs to. Trusted: the vector
/// holds the buffer's bytes.
#[verifier::external_body]
pub(crate) fn bytes_to_vec(b: &Bytes) -> (v: Vec<u8>)
    ensures
        v@ == bytes_contents(*b),
{
    b.to_vec()
}

/// `Buf::remaining` of `Bytes`. Trusted: it is the number of bytes held.
#[verifier::external_body]
pub(crate) fn bytes_remaining(b: &Bytes) -> (n: usize)
    ensures
        n == bytes_contents(*b).len(),
{
    b.remaining()
}

/// `Buf::get_u8` of `Bytes`, which panics on an empty buffer. Trusted: it
/// returns the first byte and leaves the others.
#[verifier::external_body]
pub(crate) fn bytes_get_u8(b: &mut Bytes) -> (r: u8)
    requires
        bytes_contents(*old(b)).len() >= 1,
    ensures
        r == bytes_contents(*old(b))[0],
        bytes_contents(*final(b)) == bytes_contents(*old(b)).skip(1),
{
    b.get_u8()
}

/// `Buf::get_u32` of `Bytes`, which panics on fewer than four bytes.
/// Trusted: it returns the first four bytes as a big-endian number and
/// leaves the others.
#[verifier::external_body]
pub(crate) fn bytes_get_u32(b: &mut Bytes) -> (r: u32)
    requires
        bytes_contents(*old(b)).len() >= 4,
    ensures
        r == be_value(bytes_contents(*old(b)).take(4)),
        bytes_contents(*final(b)) == bytes_contents(*old(b)).skip(4),
{
    b.get_u32()
}

/// `Buf::get_u64` of `Bytes`, which panics on fewer than eight bytes.
/// Trusted: it returns the first eight bytes as a big-endian number and
/// leaves the others.
#[verifier::external_body]
pub(crate) fn bytes_get_u64(b: &mut Bytes) -> (r: u64)
    requires
        bytes_contents(*old(b)).len() >= 8,
    ensures
        r == be_value(bytes_contents(*old(b)).take(8)),
        bytes_contents(*final(b)) == bytes_contents(*old(b)).skip(8),
{
    b.get_u64()
}

/// `Buf::copy_to_bytes` of `Bytes`, which panics past the end. Trusted: it
/// returns the first `len` bytes and leaves the others.
#[verifier::external_body]
pub(crate) fn bytes_copy_to_bytes(b: &mut Bytes, len: usize) -> (front: Bytes)
    requires
        len <= bytes_contents(*old(b)).len(),
    ensures
        bytes_contents(front) == bytes_contents(*old(b)).take(len as int),
        bytes_contents(*final(b)) == bytes_contents(*old(b)).skip(len as int),
{
    b.copy_to_bytes(len)
}

/// `BytesMut::new`. Trusted: the buffer is empty.
#[verifier::external_body]
pub(crate) fn bytes_mut_new() -> (b: BytesMut)
    ensures
        bytes_mut_contents(b) == Seq::<u8>::empty(),
{
    BytesMut::new()
}

/// `BytesMut::with_capacity`. Trusted: the buffer is empty.
#[verifier::external_body]
pub(crate) fn bytes_mut_with_capacity(capacity: usize) -> (b: BytesMut)
    requires
        capacity <= isize::MAX,
    ensures
        bytes_mut_contents(b) == Seq::<u8>::empty(),
{
    BytesMut::with_capacity(capacity)
}

/// `BufMut::put_u8` of `BytesMut`. Trusted: it appends the byte.
#[verifier::external_body]
pub(crate) fn bytes_mut_put_u8(b: &mut BytesMut, n: u8)
    requires
        bytes_mut_contents(*old(b)).len() + 1 <= isize::MAX,
    ensures
        bytes_mut_contents(*final(b)) == bytes_mut_contents(*old(b)).push(n),
{
    b.put_u8(n)
}

/// `BufMut::put_u32` of `BytesMut`. Trusted: it appends the four bytes of
/// `n`, the most significant first.
#[verifier::external_body]
pub(crate) fn bytes_mut_put_u32(b: &mut BytesMut, n: u32)
    requires
        bytes_mut_contents(*old(b)).len() + 4 <= isize::MAX,
    ensures
        bytes_mut_contents(*final(b)) == bytes_mut_contents(*old(b)) + be_bytes(n as nat, 4),
{
    b.put_u32(n)
}

/// `BufMut::put_u64` of `BytesMut`. Trusted: it appends the eight bytes of
/// `n`, the most significant first.
#[verifier::external_body]
pub(crate) fn bytes_mut_put_u64(b: &mut BytesMut, n: u64)
    requires
        bytes_mut_contents(*old(b)).len() + 8 <= isize::MAX,
    ensures
        bytes_mut_contents(*final(b)) == bytes_mut_contents(*old(b)) + be_bytes(n as nat, 8),
{
    b.put_u64(n)
}

/// `BufMut::put_slice` of `BytesMut`. Trusted: it appends the slice.
#[verifier::external_body]
pub(crate) fn bytes_mut_put_slice(b: &mut BytesMut, src: &[u8])
    requires
        bytes_mut_contents(*old(b)).len() + src@.len() <= isize::MAX,
    ensures
        bytes_mut_contents(*final(b)) == bytes_mut_contents(*old(b)) + src@,
{
    b.put_slice(src)
}

/// `BufMut::put` of `BytesMut` with a `Bytes` as the source. Trusted: it
/// appends all that the source holds.
#[verifier::external_body]
pub(crate) fn bytes_mut_put(b: &mut BytesMut, src: Bytes)
    requires
        bytes_mut_contents(*old(b)).len() + bytes_contents(src).len() <= isize::MAX,
    ensures
        bytes_mut_contents(*final(b)) == bytes_mut_contents(*old(b)) + bytes_contents(src),
{
    b.put(src)
}

/// `BytesMut::freeze`. Trusted: the `Bytes` holds what was written.
#[verifier::external_body]
pub(crate) fn bytes_mut_freeze(b: BytesMut) -> (frozen: Bytes)
    ensures
        bytes_contents(frozen) == bytes_mut_contents(b),
{
    b.freeze()
}

/// 256 to the power `width`.
pub open spec fn pow256(width: nat) -> nat
    decreases width,
{
    if width == 0 {
        1
    } else {
        256 * pow256((width - 1) as nat)
    }
}

/// `be_bytes` gives `width` bytes.
pub proof fn lemma_be_bytes_len(n: nat, width: nat)
    ensures
        be_bytes(n, width).len() == width,
    decreases width,
{
    if width > 0 {
        lemma_be_bytes_len(n / 256, (width - 1) as nat);
    }
}

/// A number that fits in `width` bytes is read back from them.
pub proof fn lemma_be_value_of_bytes(n: nat, width: nat)
    requires
        n < pow256(width),
    ensures
        be_value(be_bytes(n, width)) == n,
    decreases width,
{
    if width > 0 {
        let front = be_bytes(n / 256, (width - 1) as nat);
        lemma_be_value_of_bytes(n / 256, (width - 1) as nat);
        assert(be_bytes(n, width).drop_last() =~= front);
    } else {
        assert(be_bytes(n, width) =~= Seq::<u8>::empty());
    }
}

/// Bytes are written back from the number they read as, which fits.
pub proof fn lemma_be_bytes_of_value(s: Seq<u8>)
    ensures
        be_value(s) < pow256(s.len()),
        be_bytes(be_value(s), s.len()) == s,
    decreases s.len(),
{
    if s.len() > 0 {
        lemma_be_bytes_of_value(s.drop_last());
        let n = be_value(s);
        assert(n / 256 == be_value(s.drop_last()));
        assert(n % 256 == s.last());
        assert(be_bytes(n, s.len()) =~= s);
    } else {
        assert(be_bytes(be_value(s), s.len()) =~= s);
    }
}

/// Four bytes hold the numbers below 2 to the 32, eight those below 2 to the 64.
pub proof fn lemma_pow256()
    ensures
        pow256(4) == 0x1_0000_0000,
        pow256(8) == 0x1_0000_0000_0000_0000,
{
    reveal_with_fuel(pow256, 9);
}

/// The number that four bytes read as, written out.
pub proof fn lemma_be_value_u32(s: Seq<u8>)
    requires
        s.len() == 4,
    ensures
        be_value(s) == s[0] * 0x100_0000 + s[1] * 0x1_0000 + s[2] * 0x100 + s[3],
{
    let a = s.drop_last();
    let b = a.drop_last();
    let c = b.drop_last();
    assert(c.drop_last().len() == 0);
    assert(be_value(c.drop_last()) == 0);
    assert(be_value(c) == s[0]);
    assert(be_value(b) == s[0] * 256 + s[1]);
    assert(be_value(a) == (s[0] * 256 + s[1]) * 256 + s[2]);
}

} // verus!
