//! Fixed-width post-quantum state proofs, and a sorted Merkle tree for
//! revocation checks.
//!
//! - [`wire`] lays out a proof as bytes and reads it back in place.
//! - [`commitment`] commits to the state that a proof is about.
//! - [`attestation`] checks and issues proofs with ML-DSA-65 signatures.
//! - [`merkle`] proves that a value is, or is not, a leaf of a tree.

pub mod attestation;
pub mod bytes;
pub mod clock;
pub mod commitment;
pub mod error;
pub mod hashing;
pub mod merkle;
pub mod text;
pub mod wire;

pub use attestation::{issue_proof, IssueError};
pub use clock::unix_now;
pub use error::SubstrateError;
pub use merkle::{InclusionProof, MerkleError, MerkleTree, NonMembershipProof, ProofStep};
pub use wire::SovereignProofView;
