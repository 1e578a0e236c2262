//! Datagram payloads: the reference-counted buffers of the `bytes` crate.
use vstd::prelude::*;

verus! {

/// `bytes::Bytes`, an immutable buffer whose clones share one allocation
#[verifier::external_type_specification]
#[verifier::external_body]
pub struct ExBytes(bytes::Bytes);

/// The bytes that a buffer holds, in order
pub uninterp spec fn bytes_contents(b: bytes::Bytes) -> Seq<u8>;

/// `Bytes::len` is the number of bytes held.
pub assume_specification[ bytes::Bytes::len ](b: &bytes::Bytes) -> (len: usize)
    ensures
        len == bytes_contents(*b).len(),
;

/// `<Bytes as Clone>::clone` hands out another handle to the same bytes.
pub assume_specification[ <bytes::Bytes as Clone>::clone ](b: &bytes::Bytes) -> (copy: bytes::Bytes)
    ensures
        bytes_contents(copy) == bytes_contents(*b),
;

/// `<Bytes as AsRef<[u8]>>::as_ref` lends the bytes held, all of them, in order.
#[verifier::external_body]
pub(crate) fn as_slice(b: &bytes::Bytes) -> (slice: &[u8])
    ensures
        slice@ == bytes_contents(*b),
{
    b.as_ref()
}

} // verus!
