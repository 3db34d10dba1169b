//! Content hashing behind a small trusted surface.
//!
//! The engine identifies file contents by their blake3 digest.  The digest of
//! a byte sequence is kept abstract: [`blake3_digest`] names the 32-byte
//! result, and the trusted wrappers around `blake3::Hasher` state how the
//! incremental hashing state relates to it.

use vstd::prelude::*;

verus! {

/// The length in bytes of a blake3 digest.
pub const DIGEST_LEN: usize = 32;

/// The digest that blake3 assigns to a byte sequence.  Two equal inputs
/// always produce the same digest; nothing else is assumed of the function.
pub uninterp spec fn blake3_digest(data: Seq<u8>) -> Seq<u8>;

/// The bytes absorbed so far by an incremental blake3 hashing state.
pub uninterp spec fn absorbed(h: blake3::Hasher) -> Seq<u8>;

#[verifier::external_type_specification]
#[verifier::external_body]
pub struct ExBlake3Hasher(blake3::Hasher);

/// Relies on `blake3::Hasher::new`: a fresh hasher has absorbed no input.
#[verifier::external_body]
pub fn hasher_new() -> (h: blake3::Hasher)
    ensures
        absorbed(h) == Seq::<u8>::empty(),
{
    blake3::Hasher::new()
}

/// Relies on `blake3::Hasher::update`: it appends `data` to the input
/// absorbed so far.
#[verifier::external_body]
pub fn hasher_update(h: &mut blake3::Hasher, data: &[u8])
    ensures
        absorbed(*final(h)) == absorbed(*old(h)) + data@,
{
    h.update(data);
}

/// Relies on `blake3::Hasher::finalize`: it returns the 32-byte digest of
/// the input absorbed so far, without consuming the state.
#[verifier::external_body]
pub fn hasher_finalize(h: &blake3::Hasher) -> (d: Vec<u8>)
    ensures
        d@ == blake3_digest(absorbed(*h)),
        d@.len() == DIGEST_LEN,
{
    h.finalize().as_bytes().to_vec()
}

/// The digest of `data`, computed in one pass.
pub fn hash_bytes(data: &[u8]) -> (d: Vec<u8>)
    ensures
        d@ == blake3_digest(data@),
        d@.len() == DIGEST_LEN,
{
    let mut h = hasher_new();
    hasher_update(&mut h, data);
    let d = hasher_finalize(&h);
    assert(absorbed(h) =~= data@);
    d
}

/// Whether two byte strings are equal, element by element.
pub fn bytes_equal(a: &[u8], b: &[u8]) -> (r: bool)
    ensures
        r == (a@ == b@),
{
    if a.len() != b.len() {
        assert(a@.len() != b@.len());
        return false;
    }
    let n = a.len();
    let mut i: usize = 0;
    while i < n
        invariant
            n == a@.len() == b@.len(),
            i <= n,
            forall|k: int| 0 <= k < i ==> a@[k] == b@[k],
        decreases n - i,
    {
        if a[i] != b[i] {
            return false;
        }
        i = i + 1;
    }
    assert(a@ =~= b@);
    true
}

} // verus!
