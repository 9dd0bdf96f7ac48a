//! The byte buffers of the crates `bytes` and `tokio`, and what the library
//! relies on of them.
//!
//! `Bytes`, `BytesMut` and `ReadBuf` are opaque here. What they hold is named
//! by the functions `bytes_contents`, `bytes_mut_contents`, `read_buf_filled`
//! and `read_buf_capacity`; each function below makes one call and says what
//! that call does in those terms.

use bytes::{BufMut, Bytes, BytesMut};
use tokio::io::ReadBuf;
use vstd::prelude::*;

verus! {

/// `bytes::Bytes`: an immutable, cheaply shared byte string.
#[verifier::external_type_specification]
#[verifier::external_body]
pub struct ExBytes(Bytes);

/// `bytes::BytesMut`: a byte string that one owner can cut up.
#[verifier::external_type_specification]
#[verifier::external_body]
pub struct ExBytesMut(BytesMut);

/// `tokio::io::ReadBuf`: the buffer that a reader fills from the front.
#[verifier::external_type_specification]
#[verifier::external_body]
pub struct ExReadBuf<'a>(ReadBuf<'a>);

/// The bytes that a `Bytes` holds.
pub uninterp spec fn bytes_contents(bytes: Bytes) -> Seq<u8>;

/// The bytes that a `BytesMut` holds.
pub uninterp spec fn bytes_mut_contents(bytes: BytesMut) -> Seq<u8>;

/// The bytes that have been put into a `ReadBuf`.
pub uninterp spec fn read_buf_filled(buf: ReadBuf) -> Seq<u8>;

/// How many bytes a `ReadBuf` can hold in all.
pub uninterp spec fn read_buf_capacity(buf: ReadBuf) -> nat;

/// `<Bytes as AsRef<[u8]>>::as_ref`: the held bytes as a slice.
#[verifier::external_body]
pub(crate) fn bytes_as_slice(bytes: &Bytes) -> (slice: &[u8])
    ensures
        slice@ == bytes_contents(*bytes),
{
    bytes.as_ref()
}

/// `<Bytes as From<Vec<u8>>>::from`: takes over the vector's bytes.
#[verifier::external_body]
pub(crate) fn bytes_from_vec(data: Vec<u8>) -> (bytes: Bytes)
    ensures
        bytes_contents(bytes) == data@,
{
    Bytes::from(data)
}

/// `<BytesMut as From<&[u8]>>::from`: copies the slice's bytes.
#[verifier::external_body]
pub(crate) fn bytes_mut_from_slice(data: &[u8]) -> (bytes: BytesMut)
    ensures
        bytes_mut_contents(bytes) == data@,
{
    BytesMut::from(data)
}

/// `<BytesMut as AsRef<[u8]>>::as_ref`: the held bytes as a slice.
#[verifier::external_body]
pub(crate) fn bytes_mut_as_slice(bytes: &BytesMut) -> (slice: &[u8])
    ensures
        slice@ == bytes_mut_contents(*bytes),
{
    bytes.as_ref()
}

/// `BytesMut::split_to`: cuts off and returns the first `at` bytes. It panics
/// where fewer are held.
#[verifier::external_body]
pub(crate) fn bytes_mut_split_to(bytes: &mut BytesMut, at: usize) -> (front: BytesMut)
    requires
        at <= bytes_mut_contents(*old(bytes)).len(),
    ensures
        bytes_mut_contents(front) == bytes_mut_contents(*old(bytes)).take(at as int),
        bytes_mut_contents(*final(bytes)) == bytes_mut_contents(*old(bytes)).skip(at as int),
{
    bytes.split_to(at)
}

/// `<Bytes as From<BytesMut>>::from`: makes the held bytes immutable.
#[verifier::external_body]
pub(crate) fn bytes_mut_freeze(bytes: BytesMut) -> (frozen: Bytes)
    ensures
        bytes_contents(frozen) == bytes_mut_contents(bytes),
{
    Bytes::from(bytes)
}

/// `<Vec<u8> as BufMut>::put_slice`: appends the slice to the vector. It panics
/// where the vector would get longer than a vector can be.
#[verifier::external_body]
pub(crate) fn vec_put_slice(buf: &mut Vec<u8>, data: &[u8])
    requires
        old(buf)@.len() + data@.len() <= isize::MAX,
    ensures
        final(buf)@ == old(buf)@ + data@,
{
    buf.put_slice(data)
}

/// `ReadBuf::remaining`: how many bytes still fit.
#[verifier::external_body]
pub(crate) fn read_buf_remaining(buf: &ReadBuf) -> (room: usize)
    ensures
        room == read_buf_capacity(*buf) - read_buf_filled(*buf).len(),
{
    buf.remaining()
}

/// `ReadBuf::put_slice`: appends the slice to the filled part. It panics where
/// the slice does not fit.
#[verifier::external_body]
pub(crate) fn read_buf_put_slice(buf: &mut ReadBuf, data: &[u8])
    requires
        read_buf_filled(*old(buf)).len() + data@.len() <= read_buf_capacity(*old(buf)),
    ensures
        read_buf_filled(*final(buf)) == read_buf_filled(*old(buf)) + data@,
        read_buf_capacity(*final(buf)) == read_buf_capacity(*old(buf)),
{
    buf.put_slice(data)
}

} // verus!
