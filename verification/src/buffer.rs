//! The byte buffer that frames are written to and cut from: `bytes::BytesMut`,
//! known to the proofs only by the bytes it holds.

use vstd::prelude::*;
use bytes::BufMut;
use bytes::BytesMut;

verus! {

/// `bytes::BytesMut`, a growable buffer of bytes.
#[verifier::external_type_specification]
#[verifier::external_body]
pub struct ExBytesMut(bytes::BytesMut);

/// The bytes that a buffer holds, the oldest first.
pub uninterp spec fn buffered(buf: bytes::BytesMut) -> Seq<u8>;

/// Borrows the buffer's bytes through `BytesMut::as_ref`.
///
/// Trusted: the slice is the buffer's content, whole and in order.
#[verifier::external_body]
pub(crate) fn buffer_bytes(buf: &BytesMut) -> (bytes: &[u8])
    ensures
        bytes@ == buffered(*buf),
{
    buf.as_ref()
}

/// Appends through `BufMut::put_slice`, which for `BytesMut` is
/// `BytesMut::extend_from_slice`.
///
/// Trusted: the buffer afterwards holds what it held, followed by `src`.
/// The call grows the buffer as needed and panics where the new capacity
/// cannot be expressed, which the bound on the new length excludes.
#[verifier::external_body]
pub(crate) fn buffer_put(buf: &mut BytesMut, src: &[u8])
    requires
        buffered(*old(buf)).len() + src@.len() <= isize::MAX,
    ensures
        buffered(*final(buf)) == buffered(*old(buf)) + src@,
{
    buf.put_slice(src)
}

/// Cuts the first `at` bytes off through `BytesMut::split_to`.
///
/// Trusted: the returned buffer holds the bytes `[0, at)`, the buffer itself
/// keeps the bytes `[at, len)`. The call panics where `at` exceeds the
/// length, which the precondition excludes.
#[verifier::external_body]
pub(crate) fn buffer_split_to(buf: &mut BytesMut, at: usize) -> (head: BytesMut)
    requires
        at <= buffered(*old(buf)).len(),
    ensures
        buffered(head) == buffered(*old(buf)).subrange(0, at as int),
        buffered(*final(buf)) == buffered(*old(buf)).subrange(
            at as int,
            buffered(*old(buf)).len() as int,
        ),
{
    buf.split_to(at)
}

} // verus!
