//! Trusted view of the byte buffers that frames are parsed from and written
//! into. The buffer type comes from the `bytes` crate; everything the parser
//! needs of it is stated here over `bm_contents`, the sequence of bytes the
//! buffer currently holds, counted from its front.

use vstd::prelude::*;

verus! {

#[verifier::external_type_specification]
#[verifier::external_body]
pub struct ExBytesMut(bytes::BytesMut);

/// The bytes a buffer currently holds, front first.
pub uninterp spec fn bm_contents(b: bytes::BytesMut) -> Seq<u8>;

/// Relies on bytes::BytesMut::len: the number of bytes the buffer holds.
#[verifier::external_body]
pub fn bm_len(b: &bytes::BytesMut) -> (r: usize)
    ensures
        r == bm_contents(*b).len(),
{
    b.len()
}

/// Relies on bytes::BytesMut::split_to: afterwards the buffer holds the
/// bytes from `at` on, and the returned buffer holds the first `at` bytes.
/// It panics when `at` exceeds the length, so that is required away.
#[verifier::external_body]
pub fn bm_split_to(b: &mut bytes::BytesMut, at: usize) -> (r: bytes::BytesMut)
    requires
        at <= bm_contents(*old(b)).len(),
    ensures
        bm_contents(r) == bm_contents(*old(b)).take(at as int),
        bm_contents(*final(b)) == bm_contents(*old(b)).skip(at as int),
{
    b.split_to(at)
}

/// Relies on the slice view of bytes::BytesMut and on slice::to_vec: the
/// returned vector holds exactly the buffer's bytes, in order.
#[verifier::external_body]
pub fn bm_to_vec(b: &bytes::BytesMut) -> (r: Vec<u8>)
    ensures
        r@ == bm_contents(*b),
{
    b.to_vec()
}

/// Relies on bytes::BytesMut::extend_from_slice: the slice's bytes are
/// appended at the back of the buffer.
#[verifier::external_body]
pub fn bm_extend_from_slice(b: &mut bytes::BytesMut, s: &[u8])
    ensures
        bm_contents(*final(b)) == bm_contents(*old(b)) + s@,
{
    b.extend_from_slice(s)
}

/// True exactly of the netstring length delimiter `:`.
pub fn is_colon(b: u8) -> (r: bool)
    ensures
        r == (b == 58u8),
{
    b == 58u8
}

/// Relies on Iterator::position over bytes::BytesMut's byte iterator, which
/// yields the buffer's bytes front to back: the result is the index of the
/// first `:` byte, or None when the buffer holds no `:`. A buffer's length
/// always fits in usize, since BytesMut::len returns one.
#[verifier::external_body]
pub fn bm_find_colon(b: &bytes::BytesMut) -> (r: Option<usize>)
    ensures
        match r {
            Some(k) => {
                &&& k < bm_contents(*b).len()
                &&& bm_contents(*b).len() <= usize::MAX
                &&& bm_contents(*b)[k as int] == 58u8
                &&& forall|j: int| 0 <= j < k ==> bm_contents(*b)[j] != 58u8
            },
            None => forall|j: int|
                0 <= j < bm_contents(*b).len() ==> bm_contents(*b)[j] != 58u8,
        },
{
    b.iter().position(|x| is_colon(*x))
}

} // verus!
