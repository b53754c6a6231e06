//! The byte-string storage of decoded values: `bytes::Bytes`, seen through
//! the byte sequence that it holds.
use vstd::prelude::*;

verus! {

/// `bytes::Bytes` is carried through the library as an opaque value.
#[verifier::external_type_specification]
#[verifier::external_body]
pub struct ExBytes(bytes::Bytes);

/// The bytes that a `bytes::Bytes` holds, in order.
pub uninterp spec fn bytes_contents(b: bytes::Bytes) -> Seq<u8>;

/// Calls `bytes::Bytes::copy_from_slice`, which copies `data` into new
/// storage: the result holds exactly the bytes of `data`.
#[verifier::external_body]
pub(crate) fn copy_bytes(data: &[u8]) -> (r: bytes::Bytes)
    ensures
        bytes_contents(r) == data@,
{
    bytes::Bytes::copy_from_slice(data)
}

/// Calls `<bytes::Bytes as Deref>::deref`, which returns the slice of the
/// bytes held: the slice holds exactly `bytes_contents(*b)`.
#[verifier::external_body]
pub(crate) fn bytes_slice(b: &bytes::Bytes) -> (r: &[u8])
    ensures
        r@ == bytes_contents(*b),
{
    std::ops::Deref::deref(b)
}

/// Specifies `<bytes::Bytes as Clone>::clone`, which returns a new handle
/// to the same bytes: the clone holds exactly the bytes of `b`.
pub assume_specification[ <bytes::Bytes as core::clone::Clone>::clone ](b: &bytes::Bytes) -> (r: bytes::Bytes)
    ensures
        bytes_contents(r) == bytes_contents(*b),
;

} // verus!
