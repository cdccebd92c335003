//! The buffers of the `bytes` crate: what they hold, and the operations on them.

use bytes::{BufMut, Bytes, BytesMut};
use vstd::prelude::*;

verus! {

/// A shared, immutable buffer.
#[verifier::external_type_specification]
#[verifier::external_body]
pub struct ExBytes(Bytes);

/// A buffer that can be written to.
#[verifier::external_type_specification]
#[verifier::external_body]
pub struct ExBytesMut(BytesMut);

/// The bytes that a shared buffer holds.
pub uninterp spec fn contents(buf: Bytes) -> Seq<u8>;

/// The bytes that a writable buffer holds.
pub uninterp spec fn contents_mut(buf: BytesMut) -> Seq<u8>;

/// `Bytes::new`: an empty buffer.
#[verifier::external_body]
pub(crate) fn bytes_new() -> (buf: Bytes)
    ensures
        contents(buf) == Seq::<u8>::empty(),
{
    Bytes::new()
}

/// `Bytes::from` of a vector: a buffer that holds what the vector held.
#[verifier::external_body]
pub(crate) fn bytes_from_vec(data: Vec<u8>) -> (buf: Bytes)
    ensures
        contents(buf) == data@,
{
    Bytes::from(data)
}

/// `Bytes::as_ref`: the contents as a slice.
#[verifier::external_body]
pub(crate) fn bytes_as_ref(buf: &Bytes) -> (data: &[u8])
    ensures
        data@ == contents(*buf),
{
    buf.as_ref()
}

/// `Bytes::clone`: another handle to the same contents.
#[verifier::external_body]
pub(crate) fn bytes_clone(buf: &Bytes) -> (copy: Bytes)
    ensures
        contents(copy) == contents(*buf),
{
    buf.clone()
}

/// `Bytes::slice`: a handle to a part of the contents. It panics on a range outside of them,
/// hence the condition.
#[verifier::external_body]
pub(crate) fn bytes_slice(buf: &Bytes, start: usize, end: usize) -> (part: Bytes)
    requires
        start <= end <= contents(*buf).len(),
    ensures
        contents(part) == contents(*buf).subrange(start as int, end as int),
{
    buf.slice(start..end)
}

/// `BytesMut::zeroed`: a buffer of `len` zero bytes. It panics on a length that no allocation can
/// have, hence the condition.
#[verifier::external_body]
pub(crate) fn bytes_mut_zeroed(len: usize) -> (buf: BytesMut)
    requires
        len <= isize::MAX,
    ensures
        contents_mut(buf) == Seq::new(len as nat, |i: int| 0u8),
{
    BytesMut::zeroed(len)
}

/// `BytesMut::with_capacity`: an empty buffer. It panics on a capacity that no allocation can
/// have, hence the condition.
#[verifier::external_body]
pub(crate) fn bytes_mut_with_capacity(capacity: usize) -> (buf: BytesMut)
    requires
        capacity <= isize::MAX,
    ensures
        contents_mut(buf) == Seq::<u8>::empty(),
{
    BytesMut::with_capacity(capacity)
}

/// Copies `data` over a part of the buffer, through the mutable slice that `BytesMut` dereferences
/// to. It panics on a range outside of the buffer or of another length than `data`, hence the
/// conditions.
#[verifier::external_body]
pub(crate) fn bytes_mut_write(buf: &mut BytesMut, start: usize, end: usize, data: &[u8])
    requires
        start <= end <= contents_mut(*old(buf)).len(),
        end - start == data@.len(),
    ensures
        contents_mut(*final(buf)) == contents_mut(*old(buf)).subrange(0, start as int) + data@
            + contents_mut(*old(buf)).subrange(
            end as int,
            contents_mut(*old(buf)).len() as int,
        ),
{
    buf[start..end].copy_from_slice(data)
}

/// `BufMut::put_slice` on a `BytesMut`: appends `data`. A buffer that has to grow may take up to
/// twice the size that it needs, and growing panics on a size that no allocation can have, hence
/// the condition.
#[verifier::external_body]
pub(crate) fn bytes_mut_put_slice(buf: &mut BytesMut, data: &[u8])
    requires
        2 * (contents_mut(*old(buf)).len() + data@.len()) <= isize::MAX,
    ensures
        contents_mut(*final(buf)) == contents_mut(*old(buf)) + data@,
{
    buf.put_slice(data)
}

/// `BytesMut::resize`: cuts the buffer to `len` bytes, or extends it with `value`. A buffer that
/// has to grow may take up to twice the size that it needs, and growing panics on a size that no
/// allocation can have, hence the condition.
#[verifier::external_body]
pub(crate) fn bytes_mut_resize(buf: &mut BytesMut, len: usize, value: u8)
    requires
        2 * len <= isize::MAX,
    ensures
        contents_mut(*final(buf)) == Seq::new(
            len as nat,
            |i: int|
                if i < contents_mut(*old(buf)).len() {
                    contents_mut(*old(buf))[i]
                } else {
                    value
                },
        ),
{
    buf.resize(len, value)
}

/// `BytesMut::len`: the number of bytes that the buffer holds.
#[verifier::external_body]
pub(crate) fn bytes_mut_len(buf: &BytesMut) -> (len: usize)
    ensures
        len == contents_mut(*buf).len(),
{
    buf.len()
}

/// `BytesMut::freeze`: the buffer as a shared one with the same contents.
#[verifier::external_body]
pub(crate) fn bytes_mut_freeze(buf: BytesMut) -> (frozen: Bytes)
    ensures
        contents(frozen) == contents_mut(buf),
{
    buf.freeze()
}

} // verus!
