//! A BLAKE3 Merkle tree with inclusion and non-membership proofs.
//!
//! A non-membership proof is what a revocation check needs: it shows that a
//! credential is not in a revocation list without showing the list. The leaves
//! are kept in sorted order, and the proof names the two neighbours between
//! which the absent value would stand. That they are neighbours shows in their
//! paths, and is checked.
//!
//! Leaf digests and node digests are taken with different prefix bytes, so no
//! internal node passes for a leaf.

pub mod error;
pub mod laws;
pub mod model;
pub mod proofs;
pub mod sorted;
pub mod tree;

pub use error::MerkleError;
pub use proofs::{InclusionProof, NonMembershipProof, ProofStep};
pub use tree::MerkleTree;
