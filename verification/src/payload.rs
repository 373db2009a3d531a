//! Trusted view of `bytes::Bytes`, the cheaply-cloneable payload type that
//! carries OTLP request bodies through the relay.
//!
//! The buffer and merge logic never inspect a payload except through the
//! wrappers below; every contract speaks of [`bytes_view`], the byte sequence
//! a `Bytes` value holds.

use vstd::prelude::*;

verus! {

#[verifier::external_type_specification]
#[verifier::external_body]
pub struct ExBytes(bytes::Bytes);

/// The byte sequence held by a `bytes::Bytes` value.
pub uninterp spec fn bytes_view(b: bytes::Bytes) -> Seq<u8>;

/// Relies on `Bytes::len`: the number of bytes the value holds.
#[verifier::external_body]
pub fn bytes_len(b: &bytes::Bytes) -> (r: usize)
    ensures
        r as nat == bytes_view(*b).len(),
{
    b.len()
}

/// Relies on `Deref<Target = [u8]> for Bytes` and `slice::to_vec`: copies the
/// held bytes out.
#[verifier::external_body]
pub fn bytes_to_vec(b: &bytes::Bytes) -> (r: Vec<u8>)
    ensures
        r@ == bytes_view(*b),
{
    b.as_ref().to_vec()
}

} // verus!
