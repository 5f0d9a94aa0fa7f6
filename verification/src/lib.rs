//! Merkle inclusion-proof verification.
//!
//! Given a committed root digest, a leaf (or a batch of leaves) and an
//! accompanying proof, the engine decides whether the leaves are members of
//! the tree that produced the root, without ever materializing the tree.

pub mod contract;
pub mod digest;
pub mod hash;
pub mod merkle;
pub mod tree;

pub use contract::VerifierContract;
pub use digest::Digest;
pub use hash::combine;
pub use merkle::MalformedProofError;
pub use merkle::verify;
pub use merkle::verify_multi_proof;
