//! What holds of trees and proofs as a whole.
//!
//! Several of these laws say that something cannot happen unless BLAKE3 gives
//! two different inputs the same digest. They name the inputs in question: the
//! ones that are hashed when the tree is built and when the proof is checked.

use vstd::prelude::*;

use crate::bytes;
use crate::hashing;
use crate::merkle::model;
use crate::merkle::proofs::{InclusionProof, NonMembershipProof, ProofStep};
use crate::merkle::sorted;
use crate::merkle::tree;

verus! {

/// What is hashed for pair number `pair` of a level.
pub open spec fn pair_input(level: Seq<hashing::Hash>, pair: int) -> Seq<u8> {
    hashing::node_input(level[2 * pair], level[2 * pair + 1])
}

/// `input` is hashed on the way from `level` up to its root.
pub open spec fn hashed_above(level: Seq<hashing::Hash>, input: Seq<u8>) -> bool
    decreases level.len(),
{
    &&& level.len() > 1
    &&& {
        ||| exists|pair: int|
            0 <= pair && 2 * pair + 1 < level.len() && input == #[trigger] pair_input(level, pair)
        ||| hashed_above(model::parent_level(level), input)
    }
}

/// `input` is hashed when the tree over `leaves` is built.
pub open spec fn hashed_in_tree(leaves: Seq<Seq<u8>>, input: Seq<u8>) -> bool {
    ||| exists|i: int|
        0 <= i < leaves.len() && input == hashing::leaf_input(#[trigger] leaves[i])
    ||| hashed_above(model::leaf_level(leaves), input)
}

/// What step `k` of a path hashes when the path is followed from `start`.
pub open spec fn path_input(start: hashing::Hash, path: Seq<ProofStep>, k: int) -> Seq<u8> {
    model::step_input(model::fold_path(start, path.take(k)), path[k])
}

/// `input` is hashed when a path is followed from `start`.
pub open spec fn hashed_on_path(
    start: hashing::Hash,
    path: Seq<ProofStep>,
    input: Seq<u8>,
) -> bool {
    exists|k: int| 0 <= k < path.len() && input == #[trigger] path_input(start, path, k)
}

/// `input` is hashed when `leaf` is hashed and its path is followed.
pub open spec fn hashed_by_proof(leaf: Seq<u8>, path: Seq<ProofStep>, input: Seq<u8>) -> bool {
    ||| input == hashing::leaf_input(leaf)
    ||| hashed_on_path(hashing::leaf_digest(leaf), path, input)
}

/// No input of the proof shares its digest with a different input of the tree.
pub open spec fn proof_and_tree_collision_free(
    leaf: Seq<u8>,
    path: Seq<ProofStep>,
    leaves: Seq<Seq<u8>>,
) -> bool {
    forall|a: Seq<u8>, b: Seq<u8>| #[trigger]
        hashed_by_proof(leaf, path, a) && #[trigger] hashed_in_tree(leaves, b)
            && hashing::blake3_digest(a) == hashing::blake3_digest(b) ==> a == b
}

/// No input of one path shares its digest with a different input of the other.
pub open spec fn paths_collision_free(
    start_a: hashing::Hash,
    path_a: Seq<ProofStep>,
    start_b: hashing::Hash,
    path_b: Seq<ProofStep>,
) -> bool {
    forall|a: Seq<u8>, b: Seq<u8>| #[trigger]
        hashed_on_path(start_a, path_a, a) && #[trigger] hashed_on_path(start_b, path_b, b)
            && hashing::blake3_digest(a) == hashing::blake3_digest(b) ==> a == b
}

/// The digest reached after `k + 1` steps is that of input number `k`.
proof fn lemma_fold_take(start: hashing::Hash, path: Seq<ProofStep>, k: int)
    requires
        0 <= k < path.len(),
    ensures
        model::fold_path(start, path.take(k + 1)) == hashing::blake3_digest(
            path_input(start, path, k),
        ),
{
    model::lemma_fold_last_step(start, path.take(k + 1));
    assert(path.take(k + 1).drop_last() =~= path.take(k));
    assert(path.take(k + 1).last() == path[k]);
}

/// One level down: where a path passes a node that was hashed from a pair, it
/// came there by a step, and from the child on the side that the step says.
proof fn lemma_step_down(
    leaf: Seq<u8>,
    path: Seq<ProofStep>,
    leaves: Seq<Seq<u8>>,
    level: Seq<hashing::Hash>,
    k: int,
    pair: int,
)
    requires
        proof_and_tree_collision_free(leaf, path, leaves),
        level_hashed_in_tree(level, leaves),
        0 <= k <= path.len(),
        0 <= pair,
        2 * pair + 1 < level.len(),
        model::fold_path(hashing::leaf_digest(leaf), path.take(k)) == model::parent_level(
            level,
        )[pair],
    ensures
        k > 0,
        model::fold_path(hashing::leaf_digest(leaf), path.take(k - 1)) == (if path[k - 1].is_left {
            level[2 * pair + 1]
        } else {
            level[2 * pair]
        }),
{
    let start = hashing::leaf_digest(leaf);
    let input = pair_input(level, pair);
    assert(hashed_above(level, input));
    assert(hashed_in_tree(leaves, input));
    if k == 0 {
        assert(path.take(0) =~= Seq::<ProofStep>::empty());
        assert(hashed_by_proof(leaf, path, hashing::leaf_input(leaf)));
        hashing::law_leaf_and_node_inputs_differ(leaf, level[2 * pair], level[2 * pair + 1]);
    } else {
        lemma_fold_take(start, path, k - 1);
        assert(hashed_by_proof(leaf, path, path_input(start, path, k - 1)));
        let before = model::fold_path(start, path.take(k - 1));
        let children = model::step_children(before, path[k - 1]);
        hashing::law_node_input_injective(
            children.0,
            children.1,
            level[2 * pair],
            level[2 * pair + 1],
        );
    }
}

/// Everything that is hashed above `level` is hashed in the tree over `leaves`.
spec fn level_hashed_in_tree(level: Seq<hashing::Hash>, leaves: Seq<Seq<u8>>) -> bool {
    forall|input: Seq<u8>| #[trigger] hashed_above(level, input) ==> hashed_in_tree(leaves, input)
}

/// What is hashed above the parent level is hashed above the level.
proof fn lemma_parent_level_hashed_in_tree(level: Seq<hashing::Hash>, leaves: Seq<Seq<u8>>)
    requires
        level.len() > 1,
        level_hashed_in_tree(level, leaves),
    ensures
        level_hashed_in_tree(model::parent_level(level), leaves),
{
    assert forall|input: Seq<u8>| #[trigger]
        hashed_above(model::parent_level(level), input) implies hashed_in_tree(
        leaves,
        input,
    ) by {
        assert(hashed_above(level, input));
    }
}

/// Where a path passes the leaf level it is at its start, and its value is the
/// leaf there: a node digest is no leaf digest.
proof fn lemma_leaf_level_is_start(
    leaf: Seq<u8>,
    path: Seq<ProofStep>,
    leaves: Seq<Seq<u8>>,
    k: int,
    index: int,
)
    requires
        proof_and_tree_collision_free(leaf, path, leaves),
        0 <= k <= path.len(),
        0 <= index < leaves.len(),
        model::fold_path(hashing::leaf_digest(leaf), path.take(k)) == model::leaf_level(
            leaves,
        )[index],
    ensures
        k == 0,
        leaf == leaves[index],
{
    let start = hashing::leaf_digest(leaf);
    assert(hashed_in_tree(leaves, hashing::leaf_input(leaves[index])));
    if k == 0 {
        assert(path.take(0) =~= Seq::<ProofStep>::empty());
        assert(hashed_by_proof(leaf, path, hashing::leaf_input(leaf)));
        hashing::law_leaf_input_injective(leaf, leaves[index]);
    } else {
        lemma_fold_take(start, path, k - 1);
        assert(hashed_by_proof(leaf, path, path_input(start, path, k - 1)));
        let before = model::fold_path(start, path.take(k - 1));
        let children = model::step_children(before, path[k - 1]);
        hashing::law_leaf_and_node_inputs_differ(leaves[index], children.0, children.1);
    }
}

/// A path that leads from `leaf` to the root of `level` passes through `level`:
/// it cannot start above it, since a leaf digest is no node digest.
proof fn lemma_path_passes_level(
    leaf: Seq<u8>,
    path: Seq<ProofStep>,
    leaves: Seq<Seq<u8>>,
    level: Seq<hashing::Hash>,
)
    requires
        level.len() > 0,
        model::fold_path(hashing::leaf_digest(leaf), path) == model::root_of_level(level),
        proof_and_tree_collision_free(leaf, path, leaves),
        level_hashed_in_tree(level, leaves),
    ensures
        exists|k: int, i: int|
            #![trigger path.take(k), level[i]]
            0 <= k <= path.len() && 0 <= i < level.len() && model::fold_path(
                hashing::leaf_digest(leaf),
                path.take(k),
            ) == level[i],
    decreases level.len(),
{
    let start = hashing::leaf_digest(leaf);
    if level.len() == 1 {
        assert(path.take(path.len() as int) =~= path);
        assert(level[0] == model::root_of_level(level));
    } else {
        let above = model::parent_level(level);
        lemma_parent_level_hashed_in_tree(level, leaves);
        lemma_path_passes_level(leaf, path, leaves, above);
        let (k, i) = choose|k: int, i: int|
            #![trigger path.take(k), above[i]]
            0 <= k <= path.len() && 0 <= i < above.len() && model::fold_path(start, path.take(k))
                == above[i];
        if 2 * i + 1 < level.len() {
            lemma_step_down(leaf, path, leaves, level, k, i);
            if path[k - 1].is_left {
                assert(model::fold_path(start, path.take(k - 1)) == level[2 * i + 1]);
            } else {
                assert(model::fold_path(start, path.take(k - 1)) == level[2 * i]);
            }
        } else {
            assert(above[i] == level[2 * i]);
        }
    }
}

/// Soundness of inclusion proofs: a path that leads from the digest of `leaf`
/// to the root of the tree over `leaves` shows that `leaf` is one of them,
/// unless the proof and the tree collide. In particular no internal node passes
/// for a leaf.
pub proof fn law_included_value_is_a_leaf(
    leaf: Seq<u8>,
    path: Seq<ProofStep>,
    leaves: Seq<Seq<u8>>,
)
    requires
        leaves.len() > 0,
        model::fold_path(hashing::leaf_digest(leaf), path) == model::merkle_root(leaves),
        proof_and_tree_collision_free(leaf, path, leaves),
    ensures
        leaves.contains(leaf),
{
    let level = model::leaf_level(leaves);
    lemma_path_passes_level(leaf, path, leaves, level);
    let (k, i) = choose|k: int, i: int|
        #![trigger path.take(k), level[i]]
        0 <= k <= path.len() && 0 <= i < level.len() && model::fold_path(
            hashing::leaf_digest(leaf),
            path.take(k),
        ) == level[i];
    lemma_leaf_level_is_start(leaf, path, leaves, k, i);
}

/// Completeness of inclusion proofs: the path of a leaf leads from its digest to
/// the root.
pub proof fn law_every_leaf_is_provable(leaves: Seq<Seq<u8>>, index: int)
    requires
        0 <= index < leaves.len(),
    ensures
        model::fold_path(
            hashing::leaf_digest(leaves[index]),
            model::path_from(model::leaf_level(leaves), index),
        ) == model::merkle_root(leaves),
{
    model::lemma_path_leads_to_root(model::leaf_level(leaves), index);
}

/// An inclusion proof is accepted for one root only.
pub proof fn law_inclusion_proof_fits_one_root(
    proof: InclusionProof,
    root: hashing::Hash,
    other: hashing::Hash,
)
    requires
        proof.implied_root() == root,
        other != root,
    ensures
        proof.implied_root() != other,
{
}

/// A path binds what it starts from: two paths of the same shape that lead to
/// the same digest start from the same digest and name the same siblings,
/// unless the two collide.
pub proof fn law_path_binds_start_and_siblings(
    start_a: hashing::Hash,
    path_a: Seq<ProofStep>,
    start_b: hashing::Hash,
    path_b: Seq<ProofStep>,
)
    requires
        path_a.len() == path_b.len(),
        forall|k: int| 0 <= k < path_a.len() ==> path_a[k].is_left == path_b[k].is_left,
        model::fold_path(start_a, path_a) == model::fold_path(start_b, path_b),
        paths_collision_free(start_a, path_a, start_b, path_b),
    ensures
        start_a == start_b,
        path_a == path_b,
    decreases path_a.len(),
{
    if path_a.len() == 0 {
        assert(path_a =~= path_b);
    } else {
        let n = path_a.len() - 1;
        let short_a = path_a.drop_last();
        let short_b = path_b.drop_last();
        assert(path_a.take(n + 1) =~= path_a);
        assert(path_b.take(n + 1) =~= path_b);
        assert(path_a.take(n) =~= short_a);
        assert(path_b.take(n) =~= short_b);
        lemma_fold_take(start_a, path_a, n);
        lemma_fold_take(start_b, path_b, n);
        assert(hashed_on_path(start_a, path_a, path_input(start_a, path_a, n)));
        assert(hashed_on_path(start_b, path_b, path_input(start_b, path_b, n)));
        let before_a = model::fold_path(start_a, short_a);
        let before_b = model::fold_path(start_b, short_b);
        let children_a = model::step_children(before_a, path_a[n]);
        let children_b = model::step_children(before_b, path_b[n]);
        hashing::law_node_input_injective(children_a.0, children_a.1, children_b.0, children_b.1);
        assert(before_a == before_b);
        assert(path_a[n] == path_b[n]);
        assert(paths_collision_free(start_a, short_a, start_b, short_b)) by {
            assert forall|a: Seq<u8>, b: Seq<u8>| #[trigger]
                hashed_on_path(start_a, short_a, a) && #[trigger] hashed_on_path(
                start_b,
                short_b,
                b,
            ) && hashing::blake3_digest(a) == hashing::blake3_digest(b) implies a == b by {
                lemma_shorter_path_inputs(start_a, path_a, a);
                lemma_shorter_path_inputs(start_b, path_b, b);
            }
        }
        law_path_binds_start_and_siblings(start_a, short_a, start_b, short_b);
        assert(path_a =~= short_a.push(path_a[n]));
        assert(path_b =~= short_b.push(path_b[n]));
    }
}

/// What a path hashes without its last step, it hashes with it.
proof fn lemma_shorter_path_inputs(start: hashing::Hash, path: Seq<ProofStep>, input: Seq<u8>)
    requires
        path.len() > 0,
        hashed_on_path(start, path.drop_last(), input),
    ensures
        hashed_on_path(start, path, input),
{
    let short = path.drop_last();
    let k = choose|k: int|
        0 <= k < short.len() && input == #[trigger] path_input(start, short, k);
    assert(short.take(k) =~= path.take(k));
    assert(input == path_input(start, path, k));
}

/// A tampered leaf digest is rejected: a path that leads from one digest to a
/// root leads from no other digest to that root, unless the two runs collide.
pub proof fn law_tampered_leaf_hash_is_rejected(
    leaf_hash: hashing::Hash,
    tampered: hashing::Hash,
    path: Seq<ProofStep>,
    root: hashing::Hash,
)
    requires
        tampered != leaf_hash,
        model::fold_path(leaf_hash, path) == root,
        paths_collision_free(leaf_hash, path, tampered, path),
    ensures
        model::fold_path(tampered, path) != root,
{
    if model::fold_path(tampered, path) == root {
        law_path_binds_start_and_siblings(leaf_hash, path, tampered, path);
    }
}

/// Where two paths that meet at steps `a` and `b` pass a level: after they have
/// met they are at the same node and have the same way to go; before that they
/// are at neighbouring nodes.
spec fn passes_together(
    lower: Seq<ProofStep>,
    upper: Seq<ProofStep>,
    a: int,
    b: int,
    k: int,
    m: int,
    i: int,
    j: int,
) -> bool {
    &&& 0 <= k <= lower.len()
    &&& 0 <= m <= upper.len()
    &&& {
        ||| k > a && m > b && lower.len() - k == upper.len() - m && i == j
        ||| k <= a && m <= b && j == i + 1
    }
}

/// At step `k` and step `m` two paths stand at nodes `i` and `j` of a level.
spec fn passes_at(
    proof: NonMembershipProof,
    level: Seq<hashing::Hash>,
    k: int,
    m: int,
    i: int,
    j: int,
) -> bool {
    &&& 0 <= i < level.len()
    &&& 0 <= j < level.len()
    &&& model::fold_path(hashing::leaf_digest(proof.lower@), proof.lower_proof.path@.take(k))
        == level[i]
    &&& model::fold_path(hashing::leaf_digest(proof.upper@), proof.upper_proof.path@.take(m))
        == level[j]
}

/// The paths of an accepted proof pass every level at one node while they share
/// the way to the root, and at neighbouring nodes below that.
proof fn lemma_paths_pass_level_together(
    proof: NonMembershipProof,
    a: int,
    b: int,
    leaves: Seq<Seq<u8>>,
    level: Seq<hashing::Hash>,
) -> (at: (int, int, int, int))
    requires
        level.len() > 0,
        model::fold_path(hashing::leaf_digest(proof.lower@), proof.lower_proof.path@)
            == model::root_of_level(level),
        model::fold_path(hashing::leaf_digest(proof.upper@), proof.upper_proof.path@)
            == model::root_of_level(level),
        model::paths_meet(proof.lower_proof.path@, proof.upper_proof.path@, a, b),
        proof_and_tree_collision_free(proof.lower@, proof.lower_proof.path@, leaves),
        proof_and_tree_collision_free(proof.upper@, proof.upper_proof.path@, leaves),
        level_hashed_in_tree(level, leaves),
    ensures
        passes_together(
            proof.lower_proof.path@,
            proof.upper_proof.path@,
            a,
            b,
            at.0,
            at.1,
            at.2,
            at.3,
        ),
        passes_at(proof, level, at.0, at.1, at.2, at.3),
    decreases level.len(),
{
    let lower = proof.lower_proof.path@;
    let upper = proof.upper_proof.path@;
    assert(lower.skip(a + 1).len() == upper.skip(b + 1).len());
    if level.len() == 1 {
        assert(lower.take(lower.len() as int) =~= lower);
        assert(upper.take(upper.len() as int) =~= upper);
        (lower.len() as int, upper.len() as int, 0, 0)
    } else {
        let above = model::parent_level(level);
        lemma_parent_level_hashed_in_tree(level, leaves);
        let (k, m, i, j) = lemma_paths_pass_level_together(proof, a, b, leaves, above);
        if k > a {
            if 2 * i + 1 < level.len() {
                lemma_step_down(proof.lower@, lower, leaves, level, k, i);
                lemma_step_down(proof.upper@, upper, leaves, level, m, i);
                if k - 1 > a {
                    assert(lower[k - 1] == lower.skip(a + 1)[k - 2 - a]);
                    assert(upper[m - 1] == upper.skip(b + 1)[m - 2 - b]);
                    let side: int = if lower[k - 1].is_left {
                        2 * i + 1
                    } else {
                        2 * i
                    };
                    (k - 1, m - 1, side, side)
                } else {
                    (k - 1, m - 1, 2 * i, 2 * i + 1)
                }
            } else {
                (k, m, 2 * i, 2 * i)
            }
        } else {
            lemma_step_down(proof.lower@, lower, leaves, level, k, i);
            assert(lower[k - 1].is_left);
            if 2 * j + 1 < level.len() {
                lemma_step_down(proof.upper@, upper, leaves, level, m, j);
                assert(!upper[m - 1].is_left);
                (k - 1, m - 1, 2 * i + 1, 2 * j)
            } else {
                (k - 1, m, 2 * i + 1, 2 * j)
            }
        }
    }
}

/// The bounds of an accepted non-membership proof are neighbouring leaves of
/// the tree, one on either side of the target, unless a proof and the tree
/// collide.
pub proof fn law_bounds_of_accepted_proof_are_neighbours(
    proof: NonMembershipProof,
    target: Seq<u8>,
    leaves: Seq<Seq<u8>>,
)
    requires
        leaves.len() > 0,
        proof.holds(target, model::merkle_root(leaves)),
        proof_and_tree_collision_free(proof.lower@, proof.lower_proof.path@, leaves),
        proof_and_tree_collision_free(proof.upper@, proof.upper_proof.path@, leaves),
    ensures
        exists|index: int| #[trigger]
            tree::gap_at(leaves, target, index) && proof.lower@ == leaves[index] && proof.upper@
                == leaves[index + 1],
{
    let lower = proof.lower_proof.path@;
    let upper = proof.upper_proof.path@;
    let level = model::leaf_level(leaves);
    let (a, b) = choose|a: int, b: int| model::paths_meet(lower, upper, a, b);
    let (k, m, i, j) = lemma_paths_pass_level_together(proof, a, b, leaves, level);
    lemma_leaf_level_is_start(proof.lower@, lower, leaves, k, i);
    lemma_leaf_level_is_start(proof.upper@, upper, leaves, m, j);
    assert(tree::gap_at(leaves, target, i));
}

/// Soundness of non-membership proofs: an accepted proof shows that the target
/// is not in the tree, unless a proof and the tree collide.
pub proof fn law_accepted_proof_shows_absence(
    proof: NonMembershipProof,
    target: Seq<u8>,
    leaves: Seq<Seq<u8>>,
)
    requires
        sorted::strictly_ascending(leaves),
        leaves.len() > 0,
        proof.holds(target, model::merkle_root(leaves)),
        proof_and_tree_collision_free(proof.lower@, proof.lower_proof.path@, leaves),
        proof_and_tree_collision_free(proof.upper@, proof.upper_proof.path@, leaves),
    ensures
        !leaves.contains(target),
{
    law_bounds_of_accepted_proof_are_neighbours(proof, target, leaves);
    let index = choose|index: int| #[trigger]
        tree::gap_at(leaves, target, index) && proof.lower@ == leaves[index] && proof.upper@
            == leaves[index + 1];
    tree::lemma_gap_is_absent(leaves, target, index);
}

/// A non-membership proof is of no use for a target outside its bounds.
pub proof fn law_target_outside_bounds_is_rejected(
    proof: NonMembershipProof,
    target: Seq<u8>,
    root: hashing::Hash,
)
    requires
        !bytes::bytes_lt(proof.lower@, target) || !bytes::bytes_lt(target, proof.upper@),
    ensures
        !proof.holds(target, root),
{
}

/// A tampered bound is rejected: an inclusion proof fits one bound only, unless
/// the two leaf inputs collide.
pub proof fn law_tampered_bound_is_rejected(
    proof: NonMembershipProof,
    tampered: NonMembershipProof,
    target: Seq<u8>,
    root: hashing::Hash,
)
    requires
        proof.holds(target, root),
        tampered.lower_proof == proof.lower_proof,
        tampered.upper_proof == proof.upper_proof,
        tampered.lower@ != proof.lower@ || tampered.upper@ != proof.upper@,
        hashing::leaf_digest(tampered.lower@) == hashing::leaf_digest(proof.lower@)
            ==> hashing::leaf_input(tampered.lower@) == hashing::leaf_input(proof.lower@),
        hashing::leaf_digest(tampered.upper@) == hashing::leaf_digest(proof.upper@)
            ==> hashing::leaf_input(tampered.upper@) == hashing::leaf_input(proof.upper@),
    ensures
        !tampered.holds(target, root),
{
    if tampered.holds(target, root) {
        hashing::law_leaf_input_injective(tampered.lower@, proof.lower@);
        hashing::law_leaf_input_injective(tampered.upper@, proof.upper@);
    }
}

/// What is in the tree lies in no gap of it: no value can be proved both
/// present and absent by the tree.
pub proof fn law_present_value_has_no_gap(leaves: Seq<Seq<u8>>, target: Seq<u8>)
    requires
        sorted::strictly_ascending(leaves),
        leaves.contains(target),
    ensures
        !tree::in_gap(leaves, target),
{
    if tree::in_gap(leaves, target) {
        let index = choose|index: int| tree::gap_at(leaves, target, index);
        tree::lemma_gap_is_absent(leaves, target, index);
    }
}

/// Completeness of non-membership proofs: every absent value between the first
/// and the last leaf lies in a gap. With a smallest and a largest sentinel leaf
/// that is every absent value.
pub proof fn law_absent_value_between_sentinels_has_gap(leaves: Seq<Seq<u8>>, target: Seq<u8>)
    requires
        leaves.len() > 0,
        bytes::bytes_lt(leaves[0], target),
        bytes::bytes_lt(target, leaves.last()),
        !leaves.contains(target),
    ensures
        tree::in_gap(leaves, target),
{
    lemma_gap_below(leaves, target, leaves.len() - 1);
}

/// Between a leaf before the target and a later leaf after it there is a gap.
proof fn lemma_gap_below(leaves: Seq<Seq<u8>>, target: Seq<u8>, above: int)
    requires
        0 <= above < leaves.len(),
        bytes::bytes_lt(leaves[0], target),
        bytes::bytes_lt(target, leaves[above]),
        !leaves.contains(target),
    ensures
        tree::in_gap(leaves, target),
    decreases above,
{
    if above == 0 {
        bytes::lemma_bytes_lt_asymmetric(leaves[0], target);
    } else if bytes::bytes_lt(leaves[above - 1], target) {
        assert(tree::gap_at(leaves, target, above - 1));
    } else {
        bytes::lemma_bytes_lt_total(leaves[above - 1], target);
        assert(leaves.contains(leaves[above - 1]));
        lemma_gap_below(leaves, target, above - 1);
    }
}

/// The root depends on nothing but which leaves were given: neither their order
/// nor their repeats matter. `a` and `b` are the sorted leaves of the trees
/// built from `given_a` and `given_b`.
pub proof fn law_root_depends_on_the_set_of_leaves(
    given_a: Seq<Seq<u8>>,
    a: Seq<Seq<u8>>,
    given_b: Seq<Seq<u8>>,
    b: Seq<Seq<u8>>,
)
    requires
        sorted::strictly_ascending(a),
        sorted::same_items(a, given_a),
        sorted::strictly_ascending(b),
        sorted::same_items(b, given_b),
        sorted::same_items(given_a, given_b),
    ensures
        a == b,
        model::merkle_root(a) == model::merkle_root(b),
{
    assert forall|x: Seq<u8>| #[trigger] a.contains(x) <==> b.contains(x) by {
        assert(a.contains(x) <==> given_a.contains(x));
        assert(given_a.contains(x) <==> given_b.contains(x));
        assert(b.contains(x) <==> given_b.contains(x));
    }
    sorted::law_ascending_lists_are_canonical(a, b);
}

/// No input of one tree shares its digest with a different input of the other.
pub open spec fn trees_collision_free(leaves_a: Seq<Seq<u8>>, leaves_b: Seq<Seq<u8>>) -> bool {
    forall|a: Seq<u8>, b: Seq<u8>| #[trigger]
        hashed_in_tree(leaves_a, a) && #[trigger] hashed_in_tree(leaves_b, b)
            && hashing::blake3_digest(a) == hashing::blake3_digest(b) ==> a == b
}

/// What is hashed along the path of a node is hashed above the level it is on.
proof fn lemma_path_inputs_are_above(level: Seq<hashing::Hash>, index: int, k: int)
    requires
        0 <= index < level.len(),
        0 <= k < model::path_from(level, index).len(),
    ensures
        hashed_above(level, path_input(level[index], model::path_from(level, index), k)),
    decreases level.len(),
{
    let path = model::path_from(level, index);
    let above = model::parent_level(level);
    let rest = model::path_from(above, index / 2);
    let input = path_input(level[index], path, k);
    if model::sibling_index(index) < level.len() {
        if k == 0 {
            assert(path.take(0) =~= Seq::<ProofStep>::empty());
            assert(input == pair_input(level, index / 2));
        } else {
            assert(path.drop_first() =~= rest);
            assert(path.take(k).drop_first() =~= rest.take(k - 1));
            assert(model::step_digest(level[index], path[0]) == above[index / 2]);
            assert(path.take(k)[0] == path[0]);
            assert(input == path_input(above[index / 2], rest, k - 1));
            lemma_path_inputs_are_above(above, index / 2, k - 1);
        }
    } else {
        assert(above[index / 2] == level[index]);
        lemma_path_inputs_are_above(above, index / 2, k);
    }
}

/// A root commits to its leaves: two trees with the same root have the same
/// leaves, unless the trees collide.
pub proof fn law_root_commits_to_leaves(a: Seq<Seq<u8>>, b: Seq<Seq<u8>>)
    requires
        sorted::strictly_ascending(a),
        sorted::strictly_ascending(b),
        a.len() > 0,
        b.len() > 0,
        model::merkle_root(a) == model::merkle_root(b),
        trees_collision_free(a, b),
    ensures
        a == b,
{
    assert(trees_collision_free(b, a));
    assert forall|x: Seq<u8>| #[trigger] a.contains(x) <==> b.contains(x) by {
        if a.contains(x) {
            lemma_leaf_carries_over(a, b, a.index_of(x));
        }
        if b.contains(x) {
            lemma_leaf_carries_over(b, a, b.index_of(x));
        }
    }
    sorted::law_ascending_lists_are_canonical(a, b);
}

/// A leaf of one tree is a leaf of any tree with the same root.
proof fn lemma_leaf_carries_over(from: Seq<Seq<u8>>, to: Seq<Seq<u8>>, index: int)
    requires
        0 <= index < from.len(),
        to.len() > 0,
        model::merkle_root(from) == model::merkle_root(to),
        trees_collision_free(from, to),
    ensures
        to.contains(from[index]),
{
    let leaf = from[index];
    let level = model::leaf_level(from);
    let path = model::path_from(level, index);
    law_every_leaf_is_provable(from, index);
    assert(level[index] == hashing::leaf_digest(leaf));
    assert(proof_and_tree_collision_free(leaf, path, to)) by {
        assert forall|a: Seq<u8>, b: Seq<u8>| #[trigger]
            hashed_by_proof(leaf, path, a) && #[trigger] hashed_in_tree(to, b)
                && hashing::blake3_digest(a) == hashing::blake3_digest(b) implies a == b by {
            if a == hashing::leaf_input(leaf) {
                assert(hashed_in_tree(from, a));
            } else {
                let k = choose|k: int|
                    0 <= k < path.len() && a == #[trigger] path_input(
                        hashing::leaf_digest(leaf),
                        path,
                        k,
                    );
                lemma_path_inputs_are_above(level, index, k);
                assert(hashed_in_tree(from, a));
            }
        }
    }
    law_included_value_is_a_leaf(leaf, path, to);
}

/// The levels of a tree: the lowest holds the leaf digests, the highest and no
/// other holds a single digest, which is the root, and each is hashed into the
/// next, neighbours in pairs and a last node without a partner unchanged.
pub proof fn law_levels_are_hashed_upwards(leaves: Seq<Seq<u8>>)
    requires
        leaves.len() > 0,
    ensures
        model::levels_of(leaves).len() > 0,
        model::levels_of(leaves)[0].len() == leaves.len(),
        forall|i: int|
            0 <= i < leaves.len() ==> #[trigger] model::levels_of(leaves)[0][i]
                == hashing::leaf_digest(leaves[i]),
        model::levels_of(leaves).last() == seq![model::merkle_root(leaves)],
        forall|k: int|
            #![trigger model::levels_of(leaves)[k]]
            0 <= k < model::levels_of(leaves).len() - 1 ==> {
                &&& model::levels_of(leaves)[k].len() > 1
                &&& model::levels_of(leaves)[k + 1].len() == (model::levels_of(leaves)[k].len() + 1)
                    / 2
            },
        forall|k: int, i: int|
            0 < k < model::levels_of(leaves).len() && 0 <= i < model::levels_of(leaves)[k].len()
                ==> #[trigger] model::levels_of(leaves)[k][i] == (if 2 * i + 1
                < model::levels_of(leaves)[k - 1].len() {
                hashing::node_digest(
                    model::levels_of(leaves)[k - 1][2 * i],
                    model::levels_of(leaves)[k - 1][2 * i + 1],
                )
            } else {
                model::levels_of(leaves)[k - 1][2 * i]
            }),
{
    let level = model::leaf_level(leaves);
    let levels = model::levels_of(leaves);
    lemma_levels_from(level);
    assert forall|k: int| #![trigger levels[k]] 0 < k < levels.len() implies levels[k]
        == model::parent_level(levels[k - 1]) by {
        let below = levels[k - 1];
        assert(levels[k - 1 + 1] == model::parent_level(below));
    }
}

/// The levels above a level, one by one.
proof fn lemma_levels_from(level: Seq<hashing::Hash>)
    requires
        level.len() > 0,
    ensures
        model::levels_from(level).len() > 0,
        model::levels_from(level)[0] == level,
        model::levels_from(level).last() == seq![model::root_of_level(level)],
        forall|k: int|
            #![trigger model::levels_from(level)[k]]
            0 <= k < model::levels_from(level).len() - 1 ==> model::levels_from(level)[k].len() > 1
                && model::levels_from(level)[k + 1] == model::parent_level(
                model::levels_from(level)[k],
            ),
    decreases level.len(),
{
    let levels = model::levels_from(level);
    if level.len() == 1 {
        assert(level =~= seq![model::root_of_level(level)]);
    } else {
        let above = model::parent_level(level);
        let rest = model::levels_from(above);
        lemma_levels_from(above);
        assert(levels.len() == rest.len() + 1);
        assert(levels.last() == rest.last());
        assert forall|k: int| #![trigger levels[k]] 0 <= k < levels.len() - 1 implies levels[k].len()
            > 1 && levels[k + 1] == model::parent_level(levels[k]) by {
            assert(levels[k + 1] == rest[k]);
            if k > 0 {
                assert(levels[k] == rest[k - 1]);
            }
        }
    }
}

/// A proof shows little of the tree: a path names at most one sibling for each
/// halving of the leaves, so at most `depth` where there are at most two to the
/// power of `depth` leaves.
pub proof fn law_path_is_no_longer_than_the_tree_is_deep(
    leaves: Seq<Seq<u8>>,
    index: int,
    depth: nat,
)
    requires
        0 <= index < leaves.len(),
        leaves.len() <= vstd::arithmetic::power2::pow2(depth),
    ensures
        model::path_from(model::leaf_level(leaves), index).len() <= depth,
{
    lemma_path_length(model::leaf_level(leaves), index, depth);
}

/// A path upwards from a level is no longer than the level can be halved.
proof fn lemma_path_length(level: Seq<hashing::Hash>, index: int, depth: nat)
    requires
        0 <= index < level.len(),
        level.len() <= vstd::arithmetic::power2::pow2(depth),
    ensures
        model::path_from(level, index).len() <= depth,
    decreases level.len(),
{
    if level.len() > 1 {
        if depth == 0 {
            vstd::arithmetic::power2::lemma2_to64();
        } else {
            vstd::arithmetic::power2::lemma_pow2_unfold(depth);
            lemma_path_length(model::parent_level(level), index / 2, (depth - 1) as nat);
        }
    }
}

/// The lowest level holds the digests of the leaves, in order.
pub proof fn law_lowest_level_holds_the_leaf_digests(leaves: Seq<Seq<u8>>)
    ensures
        model::leaf_level(leaves).len() == leaves.len(),
        forall|i: int|
            0 <= i < leaves.len() ==> #[trigger] model::leaf_level(leaves)[i]
                == hashing::leaf_digest(leaves[i]),
{
}

/// The next level holds one node for each pair, hashed left child first, and a
/// last node without a partner as it is.
pub proof fn law_next_level_holds_the_pairs(level: Seq<hashing::Hash>)
    ensures
        2 * model::parent_level(level).len() == level.len() + level.len() % 2,
        forall|i: int|
            0 <= i && 2 * i + 1 < level.len() ==> #[trigger] model::parent_level(level)[i]
                == hashing::node_digest(level[2 * i], level[2 * i + 1]),
        level.len() % 2 == 1 ==> model::parent_level(level).last() == level.last(),
{
}

/// The root is the top of the pyramid: whenever each level holds the pairs of
/// the one below, and a last node without a partner, from the leaf digests up to
/// a level of one, that one is the root.
pub proof fn law_root_is_the_top_of_the_pyramid(
    leaves: Seq<Seq<u8>>,
    levels: Seq<Seq<hashing::Hash>>,
)
    requires
        levels.len() > 0,
        leaves.len() > 0,
        levels[0].len() == leaves.len(),
        forall|i: int|
            0 <= i < leaves.len() ==> #[trigger] levels[0][i] == hashing::leaf_digest(leaves[i]),
        forall|k: int|
            #![trigger levels[k]]
            0 <= k < levels.len() - 1 ==> {
                &&& levels[k].len() > 1
                &&& levels[k + 1].len() == (levels[k].len() + 1) / 2
                &&& forall|i: int|
                    0 <= i < levels[k + 1].len() ==> #[trigger] levels[k + 1][i] == (if 2 * i + 1
                        < levels[k].len() {
                        hashing::node_digest(levels[k][2 * i], levels[k][2 * i + 1])
                    } else {
                        levels[k][2 * i]
                    })
            },
        levels.last().len() == 1,
    ensures
        model::merkle_root(leaves) == levels.last()[0],
        model::levels_of(leaves) == levels,
{
    assert(levels[0] =~= model::leaf_level(leaves));
    assert forall|k: int| #![trigger levels[k]] 0 <= k < levels.len() - 1 implies levels[k].len()
        > 1 && levels[k + 1] == model::parent_level(levels[k]) by {
        assert(levels[k + 1] =~= model::parent_level(levels[k]));
    }
    lemma_pyramid_above(levels, 0);
    assert(levels.skip(0) =~= levels);
}

/// The part of a pyramid above one of its levels.
proof fn lemma_pyramid_above(levels: Seq<Seq<hashing::Hash>>, k: int)
    requires
        0 <= k < levels.len(),
        forall|j: int|
            #![trigger levels[j]]
            0 <= j < levels.len() - 1 ==> levels[j].len() > 1 && levels[j + 1]
                == model::parent_level(levels[j]),
        levels.last().len() == 1,
    ensures
        model::root_of_level(levels[k]) == levels.last()[0],
        model::levels_from(levels[k]) == levels.skip(k),
    decreases levels.len() - k,
{
    if k < levels.len() - 1 {
        assert(levels[k].len() > 1);
        lemma_pyramid_above(levels, k + 1);
        assert(levels.skip(k) =~= seq![levels[k]] + levels.skip(k + 1));
    } else {
        assert(levels.skip(k) =~= seq![levels[k]]);
    }
}

/// The path of a node: it names the left neighbour of a right child, as being on
/// the left, and the right neighbour of a left child, as being on the right, and
/// then goes on from the parent. A last node without a partner goes up without a
/// step, and the root has no way to go.
pub proof fn law_path_names_the_sibling_of_every_level(level: Seq<hashing::Hash>, index: int)
    requires
        0 <= index < level.len(),
    ensures
        level.len() == 1 ==> model::path_from(level, index).len() == 0,
        level.len() > 1 && index % 2 == 1 ==> {
            &&& model::path_from(level, index).len() == 1 + model::path_from(
                model::parent_level(level),
                index / 2,
            ).len()
            &&& model::path_from(level, index).first().sibling == level[index - 1]
            &&& model::path_from(level, index).first().is_left
            &&& model::path_from(level, index).skip(1) == model::path_from(
                model::parent_level(level),
                index / 2,
            )
        },
        level.len() > 1 && index % 2 == 0 && index + 1 < level.len() ==> {
            &&& model::path_from(level, index).len() == 1 + model::path_from(
                model::parent_level(level),
                index / 2,
            ).len()
            &&& model::path_from(level, index).first().sibling == level[index + 1]
            &&& !model::path_from(level, index).first().is_left
            &&& model::path_from(level, index).skip(1) == model::path_from(
                model::parent_level(level),
                index / 2,
            )
        },
        level.len() > 1 && index % 2 == 0 && index + 1 == level.len() ==> model::path_from(
            level,
            index,
        ) == model::path_from(model::parent_level(level), index / 2),
{
    if level.len() > 1 && model::sibling_index(index) < level.len() {
        assert(model::path_from(level, index).skip(1) =~= model::path_from(
            model::parent_level(level),
            index / 2,
        ));
    }
}

/// Following a path: whenever each digest of a run is hashed from the one before
/// it and the sibling of the step, the sibling first where it is on the left,
/// the run ends where the path leads.
pub proof fn law_path_is_followed_step_by_step(
    path: Seq<ProofStep>,
    run: Seq<hashing::Hash>,
)
    requires
        run.len() == path.len() + 1,
        forall|k: int|
            0 <= k < path.len() ==> run[k + 1] == (if (#[trigger] path[k]).is_left {
                hashing::node_digest(path[k].sibling, run[k])
            } else {
                hashing::node_digest(run[k], path[k].sibling)
            }),
    ensures
        model::fold_path(run[0], path) == run.last(),
    decreases path.len(),
{
    if path.len() > 0 {
        let rest = path.drop_first();
        let run_rest = run.drop_first();
        assert(path[0] == path.first());
        assert forall|k: int| 0 <= k < rest.len() implies run_rest[k + 1] == (if (
        #[trigger] rest[k]).is_left {
            hashing::node_digest(rest[k].sibling, run_rest[k])
        } else {
            hashing::node_digest(run_rest[k], rest[k].sibling)
        }) by {
            assert(rest[k] == path[k + 1]);
        }
        law_path_is_followed_step_by_step(rest, run_rest);
        assert(run[1] == model::step_digest(run[0], path[0]));
    }
}

/// An inclusion proof leads from its leaf digest along its path.
pub proof fn law_inclusion_proof_leads_where_its_path_leads(
    proof: InclusionProof,
    run: Seq<hashing::Hash>,
)
    requires
        run.len() == proof.path@.len() + 1,
        run[0] == proof.leaf_hash,
        forall|k: int|
            0 <= k < proof.path@.len() ==> run[k + 1] == (if (#[trigger] proof.path@[k]).is_left {
                hashing::node_digest(proof.path@[k].sibling, run[k])
            } else {
                hashing::node_digest(run[k], proof.path@[k].sibling)
            }),
    ensures
        proof.implied_root() == run.last(),
{
    law_path_is_followed_step_by_step(proof.path@, run);
}

/// A non-membership proof is accepted exactly where the target lies between its
/// bounds, each bound comes with an inclusion proof of its own that leads to the
/// root, and the paths join: below some step the lower path has siblings on the
/// left only, below some step the upper path has siblings on the right only, at
/// these steps the one comes from the left and the other from the right, and
/// above them they agree.
pub proof fn law_non_membership_is_accepted_exactly_when(
    proof: NonMembershipProof,
    target: Seq<u8>,
    root: hashing::Hash,
)
    ensures
        proof.holds(target, root) <==> {
            &&& bytes::bytes_lt(proof.lower@, target)
            &&& bytes::bytes_lt(target, proof.upper@)
            &&& proof.lower_proof.leaf_hash == hashing::leaf_digest(proof.lower@)
            &&& proof.upper_proof.leaf_hash == hashing::leaf_digest(proof.upper@)
            &&& model::fold_path(proof.lower_proof.leaf_hash, proof.lower_proof.path@) == root
            &&& model::fold_path(proof.upper_proof.leaf_hash, proof.upper_proof.path@) == root
            &&& exists|a: int, b: int|
                #![trigger proof.lower_proof.path@[a], proof.upper_proof.path@[b]]
                0 <= a < proof.lower_proof.path@.len() && 0 <= b < proof.upper_proof.path@.len()
                    && !proof.lower_proof.path@[a].is_left && proof.upper_proof.path@[b].is_left
                    && (forall|k: int|
                    0 <= k < a ==> (#[trigger] proof.lower_proof.path@[k]).is_left) && (forall|
                    k: int,
                |
                    0 <= k < b ==> !(#[trigger] proof.upper_proof.path@[k]).is_left)
                    && proof.lower_proof.path@.skip(a + 1) == proof.upper_proof.path@.skip(b + 1)
        },
{
    let lower = proof.lower_proof.path@;
    let upper = proof.upper_proof.path@;
    if model::paths_adjacent(lower, upper) {
        let (a, b) = choose|a: int, b: int| model::paths_meet(lower, upper, a, b);
        assert(!lower[a].is_left && upper[b].is_left);
    }
    assert forall|a: int, b: int|
        #![trigger lower[a], upper[b]]
        0 <= a < lower.len() && 0 <= b < upper.len() && !lower[a].is_left && upper[b].is_left && (
        forall|k: int| 0 <= k < a ==> (#[trigger] lower[k]).is_left) && (forall|k: int|
            0 <= k < b ==> !(#[trigger] upper[k]).is_left) && lower.skip(a + 1) == upper.skip(
            b + 1,
        ) implies model::paths_adjacent(lower, upper) by {
        assert(model::paths_meet(lower, upper, a, b));
    }
}

/// Completeness of non-membership proofs: two neighbouring leaves around a
/// target, each with its own path, make a proof that is accepted.
pub proof fn law_neighbours_around_a_target_are_accepted(
    proof: NonMembershipProof,
    target: Seq<u8>,
    leaves: Seq<Seq<u8>>,
    index: int,
)
    requires
        0 <= index < leaves.len() - 1,
        proof.lower@ == leaves[index],
        proof.upper@ == leaves[index + 1],
        bytes::bytes_lt(leaves[index], target),
        bytes::bytes_lt(target, leaves[index + 1]),
        proof.lower_proof.leaf_hash == hashing::leaf_digest(leaves[index]),
        proof.upper_proof.leaf_hash == hashing::leaf_digest(leaves[index + 1]),
        proof.lower_proof.path@ == model::path_from(model::leaf_level(leaves), index),
        proof.upper_proof.path@ == model::path_from(model::leaf_level(leaves), index + 1),
    ensures
        proof.holds(target, model::merkle_root(leaves)),
{
    law_every_leaf_is_provable(leaves, index);
    law_every_leaf_is_provable(leaves, index + 1);
    model::lemma_neighbour_paths_are_adjacent(model::leaf_level(leaves), index);
}

/// A gap is a pair of neighbouring leaves around the target.
pub proof fn law_gap_is_between_neighbours(leaves: Seq<Seq<u8>>, target: Seq<u8>, index: int)
    ensures
        tree::gap_at(leaves, target, index) <==> 0 <= index && index + 1 < leaves.len()
            && bytes::bytes_lt(leaves[index], target) && bytes::bytes_lt(
            target,
            leaves[index + 1],
        ),
        tree::gap_at(leaves, target, index) ==> tree::in_gap(leaves, target),
{
}

/// A target can be proved absent exactly where it is absent and lies between the
/// first and the last leaf.
pub proof fn law_provably_absent_exactly_between_first_and_last(
    leaves: Seq<Seq<u8>>,
    target: Seq<u8>,
)
    requires
        sorted::strictly_ascending(leaves),
        leaves.len() > 0,
    ensures
        tree::in_gap(leaves, target) <==> !leaves.contains(target) && bytes::bytes_lt(
            leaves[0],
            target,
        ) && bytes::bytes_lt(target, leaves.last()),
{
    if tree::in_gap(leaves, target) {
        let index = choose|index: int| tree::gap_at(leaves, target, index);
        tree::lemma_gap_is_absent(leaves, target, index);
        if index > 0 {
            assert(bytes::bytes_lt(leaves[0], leaves[index]));
            bytes::lemma_bytes_lt_transitive(leaves[0], leaves[index], target);
        }
        if index + 1 < leaves.len() - 1 {
            assert(bytes::bytes_lt(leaves[index + 1], leaves[leaves.len() - 1]));
            bytes::lemma_bytes_lt_transitive(target, leaves[index + 1], leaves.last());
        }
    }
    if !leaves.contains(target) && bytes::bytes_lt(leaves[0], target) && bytes::bytes_lt(
        target,
        leaves.last(),
    ) {
        law_absent_value_between_sentinels_has_gap(leaves, target);
    }
}

} // verus!
