//! What this crate relies on from `bytes::BytesMut`, the growable byte buffer
//! that tuples are built in and carried by.
//!
//! Nothing here is proved: each contract restates what the buffer's own
//! source does, over the sequence of bytes that the buffer holds.

use vstd::prelude::*;
use bytes::{BufMut, BytesMut};

verus! {

#[verifier::external_type_specification]
#[verifier::external_body]
pub struct ExBytesMut(BytesMut);

/// The bytes that a buffer holds, first to last.
pub uninterp spec fn contents(b: BytesMut) -> Seq<u8>;

/// `BytesMut::new` returns a buffer that holds no bytes.
pub assume_specification[ BytesMut::new ]() -> (b: BytesMut)
    ensures
        contents(b) == Seq::<u8>::empty(),
;

/// `BytesMut::with_capacity` returns a buffer that holds no bytes, whatever
/// room it set aside. It is built on `Vec::with_capacity`, which refuses a
/// capacity above `isize::MAX`.
pub assume_specification[ BytesMut::with_capacity ](capacity: usize) -> (b: BytesMut)
    requires
        capacity <= isize::MAX,
    ensures
        contents(b) == Seq::<u8>::empty(),
;

/// `BytesMut::len` is the number of bytes held.
pub assume_specification[ BytesMut::len ](b: &BytesMut) -> (n: usize)
    ensures
        n == contents(*b).len(),
;

/// `BytesMut::resize` truncates to `new_len`, or extends to it with copies of
/// `value`. Growing reserves room, which fails above `isize::MAX` bytes.
pub assume_specification[ BytesMut::resize ](b: &mut BytesMut, new_len: usize, value: u8)
    requires
        new_len <= isize::MAX,
    ensures
        contents(*final(b)) == (if new_len <= contents(*old(b)).len() {
            contents(*old(b)).take(new_len as int)
        } else {
            contents(*old(b)) + Seq::new(
                (new_len - contents(*old(b)).len()) as nat,
                |i: int| value,
            )
        }),
;

/// `BytesMut::clone` copies the bytes held into a new buffer.
pub assume_specification[ <BytesMut as Clone>::clone ](b: &BytesMut) -> (r: BytesMut)
    ensures
        contents(r) == contents(*b),
;

/// `BufMut::put_slice` on a `BytesMut` appends `src` to the bytes held. It
/// reserves room first, which fails above `isize::MAX` bytes.
#[verifier::external_body]
pub(crate) fn put_slice(b: &mut BytesMut, src: &[u8])
    requires
        contents(*old(b)).len() + src@.len() <= isize::MAX,
    ensures
        contents(*final(b)) == contents(*old(b)) + src@,
{
    b.put_slice(src)
}

/// `BytesMut::from(&[u8])` copies the slice into a new buffer.
#[verifier::external_body]
pub(crate) fn from_slice(src: &[u8]) -> (b: BytesMut)
    ensures
        contents(b) == src@,
{
    BytesMut::from(src)
}

/// `BytesMut::as_ref` borrows the bytes held as a slice.
#[verifier::external_body]
pub(crate) fn as_slice(b: &BytesMut) -> (s: &[u8])
    ensures
        s@ == contents(*b),
{
    b.as_ref()
}

/// Indexed assignment through `BytesMut::deref_mut` replaces the byte at `i`
/// and no other. An index past the end is refused by the slice.
#[verifier::external_body]
pub(crate) fn set_byte(b: &mut BytesMut, i: usize, value: u8)
    requires
        i < contents(*old(b)).len(),
    ensures
        contents(*final(b)) == contents(*old(b)).update(i as int, value),
{
    b[i] = value;
}

} // verus!
