//! The byte buffers of the `bytes` crate, as the parser sees them.
//!
//! `BytesMut` and `Bytes` are opaque to the verifier. What each one holds is
//! named by [`bytes_mut_view`] and [`bytes_view`]; every method of the crate
//! that the parser calls goes through one of the wrappers below, whose
//! contracts say what the call does to those contents.

use vstd::prelude::*;
use bytes::{Buf, Bytes, BytesMut};

verus! {

#[verifier::external_type_specification]
#[verifier::external_body]
pub struct ExBytesMut(BytesMut);

#[verifier::external_type_specification]
#[verifier::external_body]
pub struct ExBytes(Bytes);

/// The bytes that a `BytesMut` holds, from its read position to its end.
pub uninterp spec fn bytes_mut_view(b: BytesMut) -> Seq<u8>;

/// The bytes that a `Bytes` holds.
pub uninterp spec fn bytes_view(b: Bytes) -> Seq<u8>;

/// `<Bytes as Clone>::clone` hands out a second handle to the same bytes.
pub assume_specification[ <bytes::Bytes as Clone>::clone ](b: &bytes::Bytes) -> (r: bytes::Bytes)
    ensures
        bytes_view(r) == bytes_view(*b),
;

/// Calls `<BytesMut as AsRef<[u8]>>::as_ref`, which hands out the buffer's
/// bytes as a slice: the slice is exactly what the buffer holds.
#[verifier::external_body]
pub(crate) fn contents(buf: &BytesMut) -> (r: &[u8])
    ensures
        r@ == bytes_mut_view(*buf),
{
    buf.as_ref()
}

/// Calls `<BytesMut as Buf>::advance`, which drops the first `cnt` bytes.
/// The crate panics when `cnt` exceeds the length; `requires` rules that out.
#[verifier::external_body]
pub(crate) fn advance(buf: &mut BytesMut, cnt: usize)
    requires
        cnt <= bytes_mut_view(*old(buf)).len(),
    ensures
        bytes_mut_view(*final(buf)) == bytes_mut_view(*old(buf)).skip(cnt as int),
{
    buf.advance(cnt)
}

/// Calls `BytesMut::split_to`, which hands out the first `at` bytes and
/// keeps the rest. The crate panics when `at` exceeds the length; `requires`
/// rules that out.
#[verifier::external_body]
pub(crate) fn split_to(buf: &mut BytesMut, at: usize) -> (head: BytesMut)
    requires
        at <= bytes_mut_view(*old(buf)).len(),
    ensures
        bytes_mut_view(head) == bytes_mut_view(*old(buf)).take(at as int),
        bytes_mut_view(*final(buf)) == bytes_mut_view(*old(buf)).skip(at as int),
{
    buf.split_to(at)
}

/// Calls `BytesMut::freeze`, which turns the buffer into an immutable
/// `Bytes` holding the same bytes.
#[verifier::external_body]
pub(crate) fn freeze(buf: BytesMut) -> (r: Bytes)
    ensures
        bytes_view(r) == bytes_mut_view(buf),
{
    buf.freeze()
}

/// Calls `<Bytes as Buf>::chunk`, which for `Bytes` is the whole of its
/// contents as a slice.
#[verifier::external_body]
pub(crate) fn chunk(b: &Bytes) -> (r: &[u8])
    ensures
        r@ == bytes_view(*b),
{
    b.chunk()
}

} // verus!
