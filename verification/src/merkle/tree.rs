//! The tree: building it, and proving what is and what is not in it.

use vstd::prelude::*;

use crate::bytes;
use crate::hashing;
use crate::merkle::error::MerkleError;
use crate::merkle::model;
use crate::merkle::proofs::{InclusionProof, NonMembershipProof, ProofStep};
use crate::merkle::sorted;

verus! {

/// A Merkle tree over sorted leaf values.
///
/// Its view is the list of its leaves, in ascending order and without repeats.
pub struct MerkleTree {
    /// The leaf values, in ascending order.
    leaves: Vec<Vec<u8>>,
    /// The levels, from the leaf digests up to the root.
    levels: Vec<Vec<hashing::Hash>>,
}

impl View for MerkleTree {
    type V = Seq<Seq<u8>>;

    closed spec fn view(&self) -> Seq<Seq<u8>> {
        sorted::contents(self.leaves@)
    }
}

/// Each level but the last has a partner to hash and is followed by its parent
/// level; the last holds a single digest.
spec fn levels_linked(levels: Seq<Vec<hashing::Hash>>) -> bool {
    &&& levels.len() > 0
    &&& forall|k: int|
        #![trigger levels[k]]
        0 <= k < levels.len() - 1 ==> levels[k]@.len() > 1 && levels[k + 1]@
            == model::parent_level(levels[k]@)
    &&& levels.last()@.len() == 1
}

/// The last level of a linked chain holds the root of each level below it.
proof fn lemma_last_level_is_root(levels: Seq<Vec<hashing::Hash>>, k: int)
    requires
        levels_linked(levels),
        0 <= k < levels.len(),
    ensures
        model::root_of_level(levels[k]@) == levels.last()@[0],
    decreases levels.len() - k,
{
    if k < levels.len() - 1 {
        lemma_last_level_is_root(levels, k + 1);
        assert(levels[k]@.len() > 1);
    }
}

/// The digests that a list of levels holds.
spec fn level_contents(levels: Seq<Vec<hashing::Hash>>) -> Seq<Seq<hashing::Hash>> {
    levels.map_values(|level: Vec<hashing::Hash>| level@)
}

/// A linked chain holds the levels from its lowest one upwards.
proof fn lemma_linked_levels(levels: Seq<Vec<hashing::Hash>>, k: int)
    requires
        levels_linked(levels),
        0 <= k < levels.len(),
    ensures
        level_contents(levels).skip(k) == model::levels_from(levels[k]@),
    decreases levels.len() - k,
{
    let rest = level_contents(levels).skip(k);
    if k < levels.len() - 1 {
        lemma_linked_levels(levels, k + 1);
        assert(levels[k]@.len() > 1);
        assert(rest =~= seq![levels[k]@] + level_contents(levels).skip(k + 1));
    } else {
        assert(rest =~= seq![levels[k]@]);
    }
}

/// The leaves at `index` and `index + 1` lie on either side of `target`.
pub open spec fn gap_at(leaves: Seq<Seq<u8>>, target: Seq<u8>, index: int) -> bool {
    &&& 0 <= index < leaves.len() - 1
    &&& bytes::bytes_lt(leaves[index], target)
    &&& bytes::bytes_lt(target, leaves[index + 1])
}

/// Two neighbouring leaves lie on either side of `target`.
pub open spec fn in_gap(leaves: Seq<Seq<u8>>, target: Seq<u8>) -> bool {
    exists|index: int| gap_at(leaves, target, index)
}

/// The digests of a list of leaves.
fn hash_leaves(leaves: &Vec<Vec<u8>>) -> (level: Vec<hashing::Hash>)
    ensures
        level@ == model::leaf_level(sorted::contents(leaves@)),
{
    let mut level: Vec<hashing::Hash> = Vec::with_capacity(leaves.len());
    let mut i: usize = 0;
    while i < leaves.len()
        invariant
            i <= leaves@.len(),
            level@ == model::leaf_level(sorted::contents(leaves@)).take(i as int),
        decreases leaves@.len() - i,
    {
        level.push(hashing::hash_leaf(leaves[i].as_slice()));
        i += 1;
        assert(level@ =~= model::leaf_level(sorted::contents(leaves@)).take(i as int));
    }
    assert(level@ =~= model::leaf_level(sorted::contents(leaves@)));
    level
}

/// Hashes one level into the level above it.
fn hash_level(level: &Vec<hashing::Hash>) -> (above: Vec<hashing::Hash>)
    ensures
        above@ == model::parent_level(level@),
{
    let ghost parents = model::parent_level(level@);
    let mut above: Vec<hashing::Hash> = Vec::with_capacity(level.len() / 2 + level.len() % 2);
    let mut i: usize = 0;
    while i < level.len()
        invariant
            parents == model::parent_level(level@),
            i % 2 == 0,
            i <= level@.len() + 1,
            above@ == parents.take((i / 2) as int),
        decreases level@.len() + 1 - i,
    {
        let ghost half: int = (i / 2) as int;
        if level.len() - i > 1 {
            above.push(hashing::hash_node(&level[i], &level[i + 1]));
            i += 2;
        } else {
            above.push(level[i]);
            assert(above@ =~= parents);
            return above;
        }
        assert(above@ =~= parents.take(half + 1));
    }
    assert(above@ =~= parents);
    above
}

impl MerkleTree {
    /// The levels that the tree keeps, from the leaf digests up to the root.
    pub closed spec fn level_digests(self) -> Seq<Seq<hashing::Hash>> {
        level_contents(self.levels@)
    }

    /// The leaves are sorted and not empty, and the levels are those of the
    /// tree over them.
    #[verifier::type_invariant]
    spec fn well_formed(self) -> bool {
        &&& self.leaves@.len() > 0
        &&& sorted::strictly_ascending(sorted::contents(self.leaves@))
        &&& levels_linked(self.levels@)
        &&& self.levels@[0]@ == model::leaf_level(sorted::contents(self.leaves@))
    }

    /// Builds a tree from arbitrary byte strings, in any order and with repeats.
    ///
    /// Leaves are sorted so that the absence of a value can be proved by the
    /// two leaves around it.
    pub fn build(leaves: Vec<Vec<u8>>) -> (result: Result<MerkleTree, MerkleError>)
        ensures
            leaves@.len() == 0 ==> result == Err::<MerkleTree, MerkleError>(
                MerkleError::EmptyTree,
            ),
            leaves@.len() > 0 ==> result is Ok,
            result matches Ok(tree) ==> {
                &&& sorted::strictly_ascending(tree@)
                &&& sorted::same_items(tree@, sorted::contents(leaves@))
                &&& tree.level_digests() == model::levels_of(tree@)
            },
    {
        if leaves.is_empty() {
            return Err(MerkleError::EmptyTree);
        }
        let ghost given = sorted::contents(leaves@);
        let leaves = sorted::sort_dedup(leaves);
        let ghost kept = sorted::contents(leaves@);
        proof {
            assert(given.contains(given[0]));
            assert(kept.contains(given[0]));
        }
        let mut level: Vec<hashing::Hash> = hash_leaves(&leaves);
        let mut levels: Vec<Vec<hashing::Hash>> = Vec::new();
        while level.len() > 1
            invariant
                level@.len() > 0,
                forall|k: int|
                    #![trigger levels@[k]]
                    0 <= k < levels@.len() ==> levels@[k]@.len() > 1 && (if k
                        == levels@.len() - 1 {
                        level@
                    } else {
                        levels@[k + 1]@
                    }) == model::parent_level(levels@[k]@),
                (if levels@.len() == 0 {
                    level@
                } else {
                    levels@[0]@
                }) == model::leaf_level(kept),
            decreases level@.len(),
        {
            let above = hash_level(&level);
            levels.push(level);
            level = above;
        }
        levels.push(level);
        proof {
            lemma_linked_levels(levels@, 0);
            assert(level_contents(levels@).skip(0) =~= level_contents(levels@));
        }
        Ok(MerkleTree { leaves, levels })
    }

    /// The root of the tree.
    pub fn root(&self) -> (root: hashing::Hash)
        ensures
            self@.len() > 0,
            sorted::strictly_ascending(self@),
            root == model::merkle_root(self@),
            self.level_digests() == model::levels_of(self@),
            self.level_digests().last() == seq![root],
    {
        proof {
            use_type_invariant(self);
            lemma_last_level_is_root(self.levels@, 0);
            lemma_linked_levels(self.levels@, 0);
            assert(self.level_digests().skip(0) =~= self.level_digests());
            assert(self.level_digests().last() =~= seq![model::merkle_root(self@)]);
        }
        self.levels[self.levels.len() - 1][0]
    }

    /// Proves that `leaf` is in the tree.
    pub fn prove_inclusion(&self, leaf: &[u8]) -> (result: Result<InclusionProof, MerkleError>)
        ensures
            self@.len() > 0,
            sorted::strictly_ascending(self@),
            self@.contains(leaf@) ==> result is Ok,
            !self@.contains(leaf@) ==> result == Err::<InclusionProof, MerkleError>(
                MerkleError::LeafNotFound,
            ),
            result matches Ok(proof) ==> {
                &&& proof.leaf_hash == hashing::leaf_digest(leaf@)
                &&& proof.path@ == model::path_from(
                    model::leaf_level(self@),
                    self@.index_of(leaf@),
                )
                &&& proof.implied_root() == model::merkle_root(self@)
            },
    {
        proof {
            use_type_invariant(self);
        }
        let ghost bottom = model::leaf_level(self@);
        let position = sorted::lower_bound(&self.leaves, leaf);
        if position >= self.leaves.len() || !bytes::bytes_equal(
            self.leaves[position].as_slice(),
            leaf,
        ) {
            proof {
                if self@.contains(leaf@) {
                    let i = self@.index_of(leaf@);
                    assert(self@[i] == leaf@);
                    bytes::lemma_bytes_lt_irreflexive(leaf@);
                    assert(i >= position);
                    if i > position {
                        assert(bytes::bytes_lt(self@[position as int], self@[i]));
                        assert(!bytes::bytes_lt(self@[position as int], leaf@));
                    }
                    assert(self@[position as int] == self.leaves[position as int]@);
                }
            }
            return Err(MerkleError::LeafNotFound);
        }
        proof {
            assert(self@[position as int] == leaf@);
            assert(self@.contains(leaf@));
            lemma_index_unique(self@, position as int);
            model::lemma_path_leads_to_root(bottom, position as int);
        }
        let leaf_hash = hashing::hash_leaf(leaf);
        let mut path: Vec<ProofStep> = Vec::new();
        let mut index: usize = position;
        let mut k: usize = 0;
        assert(path@ + model::path_from(bottom, position as int) =~= model::path_from(
            bottom,
            position as int,
        ));
        while k < self.levels.len() - 1
            invariant
                levels_linked(self.levels@),
                k < self.levels@.len(),
                index < self.levels@[k as int]@.len(),
                path@ + model::path_from(self.levels@[k as int]@, index as int)
                    == model::path_from(bottom, position as int),
            decreases self.levels@.len() - k,
        {
            let level = &self.levels[k];
            let ghost known = path@;
            let ghost ahead = model::path_from(level@, index as int);
            let ghost above = model::path_from(model::parent_level(level@), (index / 2) as int);
            let is_right: bool = index % 2 == 1;
            if is_right {
                path.push(ProofStep { sibling: level[index - 1], is_left: true });
                assert(path@ + above =~= known + ahead);
            } else if level.len() - index > 1 {
                path.push(ProofStep { sibling: level[index + 1], is_left: false });
                assert(path@ + above =~= known + ahead);
            }
            // A node without a sibling moves up unchanged, so its path has no
            // step on this level.
            index = index / 2;
            k += 1;
        }
        proof {
            assert(path@ =~= path@ + model::path_from(self.levels@[k as int]@, index as int));
        }
        Ok(InclusionProof { leaf_hash, path })
    }

    /// Proves that `target` is not in the tree, by the two leaves around it.
    ///
    /// A value before the first or after the last leaf has no such pair: a tree
    /// that has to cover the whole range holds a smallest and a largest
    /// sentinel leaf.
    pub fn prove_non_membership(&self, target: &[u8]) -> (result: Result<
        NonMembershipProof,
        MerkleError,
    >)
        ensures
            self@.len() > 0,
            sorted::strictly_ascending(self@),
            in_gap(self@, target@) ==> result is Ok,
            !in_gap(self@, target@) ==> result == Err::<NonMembershipProof, MerkleError>(
                MerkleError::InvalidProof,
            ),
            result matches Ok(proof) ==> {
                &&& !self@.contains(target@)
                &&& proof.holds(target@, model::merkle_root(self@))
                &&& exists|index: int| #[trigger]
                    gap_at(self@, target@, index) && proof.lower@ == self@[index]
                        && proof.upper@ == self@[index + 1] && proof.lower_proof.path@
                        == model::path_from(model::leaf_level(self@), index)
                        && proof.upper_proof.path@ == model::path_from(
                        model::leaf_level(self@),
                        index + 1,
                    )
            },
    {
        proof {
            use_type_invariant(self);
        }
        let position = sorted::lower_bound(&self.leaves, target);
        let ghost leaves = self@;
        if position < self.leaves.len() && bytes::bytes_equal(
            self.leaves[position].as_slice(),
            target,
        ) {
            proof {
                assert(leaves[position as int] == target@);
                lemma_leaf_not_in_gap(leaves, position as int);
            }
            return Err(MerkleError::InvalidProof);
        }
        if position == 0 || position == self.leaves.len() {
            proof {
                if in_gap(leaves, target@) {
                    let index = choose|index: int| gap_at(leaves, target@, index);
                    bytes::lemma_bytes_lt_asymmetric(target@, leaves[index + 1]);
                    if position == 0 {
                        assert(!bytes::bytes_lt(leaves[index], target@));
                    } else {
                        assert(bytes::bytes_lt(leaves[index + 1], target@));
                    }
                }
            }
            return Err(MerkleError::InvalidProof);
        }
        let lower: Vec<u8> = self.leaves[position - 1].clone();
        let upper: Vec<u8> = self.leaves[position].clone();
        let ghost index: int = position - 1;
        proof {
            assert(lower@ =~= leaves[index]);
            assert(upper@ =~= leaves[index + 1]);
            assert(bytes::bytes_lt(leaves[index], target@));
            assert(!bytes::bytes_lt(leaves[index + 1], target@));
            bytes::lemma_bytes_lt_total(leaves[index + 1], target@);
            assert(gap_at(leaves, target@, index));
            lemma_index_unique(leaves, index);
            lemma_index_unique(leaves, index + 1);
            lemma_gap_is_absent(leaves, target@, index);
            assert(leaves.contains(leaves[index]));
            assert(leaves.contains(leaves[index + 1]));
            model::lemma_neighbour_paths_are_adjacent(model::leaf_level(leaves), index);
        }
        let lower_proof = self.prove_inclusion(lower.as_slice())?;
        let upper_proof = self.prove_inclusion(upper.as_slice())?;
        Ok(NonMembershipProof { lower, lower_proof, upper, upper_proof })
    }
}

/// A value between two neighbouring leaves of a sorted list is not in the list.
pub proof fn lemma_gap_is_absent(leaves: Seq<Seq<u8>>, target: Seq<u8>, index: int)
    requires
        sorted::strictly_ascending(leaves),
        gap_at(leaves, target, index),
    ensures
        !leaves.contains(target),
{
    if leaves.contains(target) {
        let i = leaves.index_of(target);
        assert(leaves[i] == target);
        bytes::lemma_bytes_lt_asymmetric(leaves[index], target);
        bytes::lemma_bytes_lt_asymmetric(target, leaves[index + 1]);
        if i < index {
            assert(bytes::bytes_lt(leaves[i], leaves[index]));
        } else if i > index + 1 {
            assert(bytes::bytes_lt(leaves[index + 1], leaves[i]));
        }
    }
}

/// A leaf of a sorted list lies in none of its gaps.
proof fn lemma_leaf_not_in_gap(leaves: Seq<Seq<u8>>, position: int)
    requires
        sorted::strictly_ascending(leaves),
        0 <= position < leaves.len(),
    ensures
        !in_gap(leaves, leaves[position]),
{
    let target = leaves[position];
    if in_gap(leaves, target) {
        let index = choose|index: int| gap_at(leaves, target, index);
        lemma_gap_is_absent(leaves, target, index);
        assert(leaves.contains(target));
    }
}

/// An ascending list holds no item twice.
proof fn lemma_index_unique(list: Seq<Seq<u8>>, index: int)
    requires
        sorted::strictly_ascending(list),
        0 <= index < list.len(),
    ensures
        list.index_of(list[index]) == index,
{
    let found = list.index_of(list[index]);
    assert(list.contains(list[index]));
    assert(list[found] == list[index]);
    bytes::lemma_bytes_lt_irreflexive(list[index]);
    if found < index {
        assert(bytes::bytes_lt(list[found], list[index]));
    }
    if found > index {
        assert(bytes::bytes_lt(list[index], list[found]));
    }
}

} // verus!
