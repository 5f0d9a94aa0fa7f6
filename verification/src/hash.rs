//! The one-way combining function on digests.
//!
//! `combine` orders a pair of digests by byte value and hashes their
//! concatenation, so the result does not depend on which operand stood on
//! which side of the pair. This is what lets proofs omit left/right position
//! bits.

use vstd::prelude::*;

use crate::digest::Digest;
use crate::digest::lex_le;
use crate::digest::lemma_lex_le_antisymmetric;
use crate::digest::lemma_lex_le_total;

verus! {

/// The Keccak-256 digest of a byte sequence. The hash of given bytes is a
/// fixed 32-byte value; nothing further is assumed of it.
pub uninterp spec fn keccak256_of(bytes: Seq<u8>) -> Seq<u8>;

/// Relies on `alloy_primitives::keccak256`: the Keccak-256 digest of the
/// input bytes, a pure function of its argument alone.
#[verifier::external_body]
fn keccak256_bytes(bytes: &Vec<u8>) -> (r: Digest)
    ensures
        r@ == keccak256_of(bytes@),
{
    Digest(alloy_primitives::keccak256(bytes.as_slice()).0)
}

/// What `combine` returns: the hash of the concatenation of the pair,
/// smaller operand first.
pub open spec fn spec_combine(a: Seq<u8>, b: Seq<u8>) -> Seq<u8> {
    if lex_le(a, b) {
        keccak256_of(a + b)
    } else {
        keccak256_of(b + a)
    }
}

/// The order of the operands never matters to `combine`.
pub proof fn lemma_combine_commutes(a: Seq<u8>, b: Seq<u8>)
    ensures
        spec_combine(a, b) == spec_combine(b, a),
{
    lemma_lex_le_total(a, b);
    if lex_le(a, b) && lex_le(b, a) {
        lemma_lex_le_antisymmetric(a, b);
    }
}

/// Hash the concatenation of two digests, in the given order.
fn hash_pair(x: &Digest, y: &Digest) -> (r: Digest)
    ensures
        r@ == keccak256_of(x@ + y@),
{
    let mut buf: Vec<u8> = Vec::new();
    let mut i: usize = 0;
    while i < 32
        invariant
            i <= 32,
            buf@ =~= x@.take(i as int),
        decreases 32 - i,
    {
        buf.push(x.0[i]);
        i += 1;
    }
    let mut j: usize = 0;
    while j < 32
        invariant
            j <= 32,
            buf@ =~= x@ + y@.take(j as int),
        decreases 32 - j,
    {
        buf.push(y.0[j]);
        j += 1;
    }
    assert(buf@ =~= x@ + y@);
    keccak256_bytes(&buf)
}

/// Combine two digests into one: the pair is ordered by byte value before
/// hashing, so verification is independent of left/right position.
pub fn combine(a: Digest, b: Digest) -> (r: Digest)
    ensures
        r@ == spec_combine(a@, b@),
{
    if a.le_bytes(&b) {
        hash_pair(&a, &b)
    } else {
        hash_pair(&b, &a)
    }
}

} // verus!
