//! The external entry point: a stateless facade over the verification
//! engine, mirroring the call surface a host exposes to its callers.

use vstd::prelude::*;

use crate::digest::Digest;
use crate::merkle::MalformedProofError;
use crate::merkle::digests_view;
use crate::merkle::multi_proof_candidate;
use crate::merkle::process_proof;

verus! {

/// Verifies Merkle inclusion proofs against a caller-supplied root. The
/// type holds no state: both entry points are pure functions over their
/// arguments.
pub struct VerifierContract;

impl VerifierContract {
    /// Single-proof verification; see [`crate::merkle::verify`].
    pub fn verify(&self, proof: Vec<Digest>, root: Digest, leaf: Digest) -> (r: bool)
        ensures
            r == (process_proof(leaf@, digests_view(proof@)) == root@),
    {
        crate::merkle::verify(&proof, root, leaf)
    }

    /// Multi-proof verification; see [`crate::merkle::verify_multi_proof`].
    /// A malformed multi-proof is reported as an error instead of aborting
    /// the host.
    pub fn verify_multi_proof(
        &self,
        proof: Vec<Digest>,
        proof_flags: Vec<bool>,
        root: Digest,
        leaves: Vec<Digest>,
    ) -> (r: Result<bool, MalformedProofError>)
        ensures
            match r {
                Ok(b) => multi_proof_candidate(
                    digests_view(leaves@),
                    digests_view(proof@),
                    proof_flags@,
                ) matches Some(c) && b == (c == root@),
                Err(_) => multi_proof_candidate(
                    digests_view(leaves@),
                    digests_view(proof@),
                    proof_flags@,
                ) is None,
            },
    {
        crate::merkle::verify_multi_proof(&proof, &proof_flags, root, &leaves)
    }
}

} // verus!
