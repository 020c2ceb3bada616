//! What can go wrong with a tree or a proof.

use vstd::prelude::*;

verus! {

/// A refused tree or proof.
#[derive(Debug, Clone, Copy, PartialEq, Eq, Structural)]
pub enum MerkleError {
    /// There was no leaf to build a tree from.
    EmptyTree,
    /// A proof does not hold, or cannot be given.
    InvalidProof,
    /// The tree does not hold the requested leaf.
    LeafNotFound,
}

impl MerkleError {
    /// What the error says to a reader.
    pub open spec fn text(self) -> Seq<char> {
        match self {
            MerkleError::EmptyTree => "cannot build a Merkle tree from zero leaves"@,
            MerkleError::InvalidProof => "Merkle proof failed to reconstruct the expected root"@,
            MerkleError::LeafNotFound => "requested leaf value not present in the tree"@,
        }
    }

    /// The error as a line of text.
    pub fn message(&self) -> (message: String)
        ensures
            message@ == self.text(),
    {
        match self {
            MerkleError::EmptyTree => "cannot build a Merkle tree from zero leaves".to_owned(),
            MerkleError::InvalidProof => {
                "Merkle proof failed to reconstruct the expected root".to_owned()
            },
            MerkleError::LeafNotFound => "requested leaf value not present in the tree".to_owned(),
        }
    }
}

/// What each error says.
pub proof fn law_texts_say_what_went_wrong()
    ensures
        MerkleError::EmptyTree.text() == "cannot build a Merkle tree from zero leaves"@,
        MerkleError::InvalidProof.text() == "Merkle proof failed to reconstruct the expected root"@,
        MerkleError::LeafNotFound.text() == "requested leaf value not present in the tree"@,
{
}

} // verus!
