//! Proofs that a value is, or is not, a leaf of a tree, and their checks.

use vstd::prelude::*;

use crate::bytes;
use crate::hashing;
use crate::merkle::error::MerkleError;
use crate::merkle::model;

verus! {

/// A step in an inclusion proof: the sibling digest and which side it is on.
#[derive(Debug, Clone, Copy, PartialEq, Eq)]
pub struct ProofStep {
    /// The digest that is hashed together with the current one.
    pub sibling: hashing::Hash,
    /// Whether the sibling is the left child.
    pub is_left: bool,
}

/// A leaf digest and its siblings on the way to the root.
#[derive(Debug, Clone, PartialEq, Eq)]
pub struct InclusionProof {
    /// The digest of the leaf.
    pub leaf_hash: hashing::Hash,
    /// The siblings, from the leaf's own level upwards.
    pub path: Vec<ProofStep>,
}

impl InclusionProof {
    /// The root that this proof leads to.
    pub open spec fn implied_root(self) -> hashing::Hash {
        model::fold_path(self.leaf_hash, self.path@)
    }

    /// Recomputes the root from this proof and checks that it is `expected_root`.
    pub fn verify(&self, expected_root: &hashing::Hash) -> (result: Result<(), MerkleError>)
        ensures
            self.implied_root() == *expected_root ==> result == Ok::<(), MerkleError>(()),
            self.implied_root() != *expected_root ==> result == Err::<(), MerkleError>(
                MerkleError::InvalidProof,
            ),
    {
        let mut current: hashing::Hash = self.leaf_hash;
        let mut i: usize = 0;
        assert(self.path@.skip(0) =~= self.path@);
        while i < self.path.len()
            invariant
                i <= self.path@.len(),
                model::fold_path(current, self.path@.skip(i as int)) == self.implied_root(),
            decreases self.path@.len() - i,
        {
            let step = &self.path[i];
            assert(self.path@.skip(i as int).drop_first() =~= self.path@.skip(i + 1));
            current = if step.is_left {
                hashing::hash_node(&step.sibling, &current)
            } else {
                hashing::hash_node(&current, &step.sibling)
            };
            i += 1;
        }
        if hashing::hash_equal(&current, expected_root) {
            Ok(())
        } else {
            Err(MerkleError::InvalidProof)
        }
    }
}

/// Whether two paths have the shape of the paths of neighbouring leaves.
fn check_adjacent(lower: &Vec<ProofStep>, upper: &Vec<ProofStep>) -> (adjacent: bool)
    ensures
        adjacent == model::paths_adjacent(lower@, upper@),
{
    let mut a: usize = 0;
    while a < lower.len() && lower[a].is_left
        invariant
            a <= lower@.len(),
            forall|k: int| 0 <= k < a ==> (#[trigger] lower@[k]).is_left,
        decreases lower@.len() - a,
    {
        a += 1;
    }
    let mut b: usize = 0;
    while b < upper.len() && !upper[b].is_left
        invariant
            b <= upper@.len(),
            forall|k: int| 0 <= k < b ==> !(#[trigger] upper@[k]).is_left,
        decreases upper@.len() - b,
    {
        b += 1;
    }
    proof {
        // Only the first step of either path that turns can be the one that joins it.
        assert forall|x: int, y: int| #[trigger]
            model::paths_meet(lower@, upper@, x, y) implies x == a && y == b by {
            assert(!lower@[x].is_left);
            assert(upper@[y].is_left);
            if a < x {
                assert(lower@[a as int].is_left);
            }
            if b < y {
                assert(!upper@[b as int].is_left);
            }
        }
    }
    if a >= lower.len() || b >= upper.len() {
        return false;
    }
    if lower.len() - a != upper.len() - b {
        proof {
            if model::paths_meet(lower@, upper@, a as int, b as int) {
                assert(lower@.skip(a + 1).len() == upper@.skip(b + 1).len());
            }
        }
        return false;
    }
    let rest: usize = lower.len() - a;
    let ghost lower_rest = lower@.skip(a + 1);
    let ghost upper_rest = upper@.skip(b + 1);
    let mut i: usize = 1;
    while i < rest
        invariant
            1 <= i <= rest,
            a < lower@.len(),
            b < upper@.len(),
            rest == lower.len() - a,
            rest == upper.len() - b,
            lower_rest == lower@.skip(a + 1),
            upper_rest == upper@.skip(b + 1),
            forall|k: int| 0 <= k < i - 1 ==> lower_rest[k] == upper_rest[k],
            forall|x: int, y: int| #[trigger]
                model::paths_meet(lower@, upper@, x, y) ==> x == a && y == b,
        decreases rest - i,
    {
        let one = &lower[a + i];
        let other = &upper[b + i];
        if one.is_left != other.is_left || !hashing::hash_equal(&one.sibling, &other.sibling) {
            proof {
                if model::paths_meet(lower@, upper@, a as int, b as int) {
                    assert(lower_rest[i - 1] == upper_rest[i - 1]);
                }
            }
            return false;
        }
        assert(lower_rest[i - 1] == upper_rest[i - 1]);
        i += 1;
    }
    proof {
        assert(lower_rest =~= upper_rest);
        assert(model::paths_meet(lower@, upper@, a as int, b as int));
    }
    true
}

/// Two leaves, next to each other in sorted order, between which an absent
/// value would stand, each with its own inclusion proof.
#[derive(Debug, Clone)]
pub struct NonMembershipProof {
    /// The leaf before the absent value.
    pub lower: Vec<u8>,
    /// That `lower` is a leaf.
    pub lower_proof: InclusionProof,
    /// The leaf after the absent value.
    pub upper: Vec<u8>,
    /// That `upper` is a leaf.
    pub upper_proof: InclusionProof,
}

impl NonMembershipProof {
    /// The bounds lie on either side of `target`, each carries an inclusion
    /// proof of its own digest that leads to `expected_root`, and the two paths
    /// are those of neighbouring leaves.
    pub open spec fn holds(self, target: Seq<u8>, expected_root: hashing::Hash) -> bool {
        &&& bytes::bytes_lt(self.lower@, target)
        &&& bytes::bytes_lt(target, self.upper@)
        &&& self.lower_proof.leaf_hash == hashing::leaf_digest(self.lower@)
        &&& self.upper_proof.leaf_hash == hashing::leaf_digest(self.upper@)
        &&& self.lower_proof.implied_root() == expected_root
        &&& self.upper_proof.implied_root() == expected_root
        &&& model::paths_adjacent(self.lower_proof.path@, self.upper_proof.path@)
    }

    /// Verifies that `target` is not in the tree with root `expected_root`:
    /// `lower < target < upper`, both bounds are in the tree, and they are
    /// neighbours there, so that nothing sits between them.
    pub fn verify(&self, target: &[u8], expected_root: &hashing::Hash) -> (result: Result<
        (),
        MerkleError,
    >)
        ensures
            self.holds(target@, *expected_root) ==> result == Ok::<(), MerkleError>(()),
            !self.holds(target@, *expected_root) ==> result == Err::<(), MerkleError>(
                MerkleError::InvalidProof,
            ),
    {
        if !(bytes::bytes_less(self.lower.as_slice(), target) && bytes::bytes_less(
            target,
            self.upper.as_slice(),
        )) {
            return Err(MerkleError::InvalidProof);
        }
        let lower_hash = hashing::hash_leaf(self.lower.as_slice());
        if !hashing::hash_equal(&lower_hash, &self.lower_proof.leaf_hash) {
            return Err(MerkleError::InvalidProof);
        }
        let upper_hash = hashing::hash_leaf(self.upper.as_slice());
        if !hashing::hash_equal(&upper_hash, &self.upper_proof.leaf_hash) {
            return Err(MerkleError::InvalidProof);
        }
        self.lower_proof.verify(expected_root)?;
        self.upper_proof.verify(expected_root)?;
        if !check_adjacent(&self.lower_proof.path, &self.upper_proof.path) {
            return Err(MerkleError::InvalidProof);
        }
        Ok(())
    }
}

} // verus!
