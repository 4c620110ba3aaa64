//! The strong-hash primitive: a collision-resistant digest used to confirm
//! weak-digest matches. The digest's value is a function of the input bytes
//! alone, so it is modelled by an uninterpreted name; nothing in this crate
//! depends on what the digest bytes are, only on equality between them.

use vstd::prelude::*;

verus! {

use blake2::Blake2b512;
use blake2::Digest;

/// The BLAKE2b-512 digest of a byte sequence.
pub uninterp spec fn strong_hash_of(b: Seq<u8>) -> Seq<u8>;

/// Relies on blake2's `Blake2b512` through the `Digest` trait: `update`
/// absorbs exactly the bytes given, `finalize` returns their digest, and the
/// digest depends on those bytes alone.
#[verifier::external_body]
pub(crate) fn strong_hash(bytes: &Vec<u8>) -> (r: Vec<u8>)
    ensures
        r@ == strong_hash_of(bytes@),
{
    let mut hasher = Blake2b512::new();
    hasher.update(bytes.as_slice());
    hasher.finalize().to_vec()
}

} // verus!
