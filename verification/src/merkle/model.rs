//! What a tree over a list of leaves is: its levels, its root, and the path
//! from a leaf to the root.

use vstd::prelude::*;

use crate::hashing;
use crate::merkle::proofs::ProofStep;

verus! {

/// The digests of the leaves, in order.
pub open spec fn leaf_level(leaves: Seq<Seq<u8>>) -> Seq<hashing::Hash> {
    leaves.map_values(|leaf: Seq<u8>| hashing::leaf_digest(leaf))
}

/// The level above `level`: neighbours are hashed in pairs, and a last node
/// without a partner moves up unchanged.
pub open spec fn parent_level(level: Seq<hashing::Hash>) -> Seq<hashing::Hash> {
    Seq::new(
        ((level.len() + 1) / 2) as nat,
        |i: int|
            if 2 * i + 1 < level.len() {
                hashing::node_digest(level[2 * i], level[2 * i + 1])
            } else {
                level[2 * i]
            },
    )
}

/// The single digest that is left after hashing upwards from `level`.
pub open spec fn root_of_level(level: Seq<hashing::Hash>) -> hashing::Hash
    decreases level.len(),
{
    if level.len() <= 1 {
        level[0]
    } else {
        root_of_level(parent_level(level))
    }
}

/// The levels from `level` up to its root.
pub open spec fn levels_from(level: Seq<hashing::Hash>) -> Seq<Seq<hashing::Hash>>
    decreases level.len(),
{
    if level.len() <= 1 {
        seq![level]
    } else {
        seq![level] + levels_from(parent_level(level))
    }
}

/// The levels of the tree over `leaves`, from the leaf digests up to the root.
pub open spec fn levels_of(leaves: Seq<Seq<u8>>) -> Seq<Seq<hashing::Hash>> {
    levels_from(leaf_level(leaves))
}

/// The root of the tree over `leaves`.
pub open spec fn merkle_root(leaves: Seq<Seq<u8>>) -> hashing::Hash {
    root_of_level(leaf_level(leaves))
}

/// The index of the node that is hashed together with node `index`.
pub open spec fn sibling_index(index: int) -> int {
    if index % 2 == 1 {
        index - 1
    } else {
        index + 1
    }
}

/// The siblings met on the way from node `index` of `level` up to the root. A
/// node that moves up unchanged meets none on its level.
pub open spec fn path_from(level: Seq<hashing::Hash>, index: int) -> Seq<ProofStep>
    decreases level.len(),
{
    if level.len() <= 1 {
        Seq::empty()
    } else {
        let above = path_from(parent_level(level), index / 2);
        if sibling_index(index) < level.len() {
            seq![
                ProofStep { sibling: level[sibling_index(index)], is_left: index % 2 == 1 },
            ] + above
        } else {
            above
        }
    }
}

/// The two children, left then right, that a step hashes together when it is
/// reached with digest `current`.
pub open spec fn step_children(current: hashing::Hash, step: ProofStep) -> (hashing::Hash, hashing::Hash) {
    if step.is_left {
        (step.sibling, current)
    } else {
        (current, step.sibling)
    }
}

/// What a step hashes when it is reached with digest `current`.
pub open spec fn step_input(current: hashing::Hash, step: ProofStep) -> Seq<u8> {
    hashing::node_input(step_children(current, step).0, step_children(current, step).1)
}

/// The digest after one step.
pub open spec fn step_digest(current: hashing::Hash, step: ProofStep) -> hashing::Hash {
    hashing::node_digest(step_children(current, step).0, step_children(current, step).1)
}

/// The digest after all steps of a path, first step first.
pub open spec fn fold_path(start: hashing::Hash, path: Seq<ProofStep>) -> hashing::Hash
    decreases path.len(),
{
    if path.len() == 0 {
        start
    } else {
        fold_path(step_digest(start, path[0]), path.drop_first())
    }
}

/// Folding the path of a node gives the root of its level.
pub proof fn lemma_path_leads_to_root(level: Seq<hashing::Hash>, index: int)
    requires
        0 <= index < level.len(),
    ensures
        fold_path(level[index], path_from(level, index)) == root_of_level(level),
    decreases level.len(),
{
    if level.len() > 1 {
        let above = parent_level(level);
        lemma_path_leads_to_root(above, index / 2);
        let path = path_from(level, index);
        if sibling_index(index) < level.len() {
            assert(path.drop_first() =~= path_from(above, index / 2));
            assert(step_digest(level[index], path[0]) == above[index / 2]);
        }
    }
}

/// The last step of a path is folded last.
pub proof fn lemma_fold_last_step(start: hashing::Hash, path: Seq<ProofStep>)
    requires
        path.len() > 0,
    ensures
        fold_path(start, path) == step_digest(fold_path(start, path.drop_last()), path.last()),
    decreases path.len(),
{
    reveal_with_fuel(fold_path, 2);
    if path.len() > 1 {
        lemma_fold_last_step(step_digest(start, path[0]), path.drop_first());
        assert(path.drop_first().drop_last() =~= path.drop_last().drop_first());
    }
}

/// Two paths start from neighbouring nodes: up to step `a` the lower path comes
/// from the right end of what is below, up to step `b` the upper path comes from
/// the left end, these two steps join them from the left and from the right, and
/// from there on the paths are the same.
pub open spec fn paths_meet(
    lower: Seq<ProofStep>,
    upper: Seq<ProofStep>,
    a: int,
    b: int,
) -> bool {
    &&& 0 <= a < lower.len()
    &&& 0 <= b < upper.len()
    &&& !lower[a].is_left
    &&& upper[b].is_left
    &&& forall|k: int| 0 <= k < a ==> (#[trigger] lower[k]).is_left
    &&& forall|k: int| 0 <= k < b ==> !(#[trigger] upper[k]).is_left
    &&& lower.skip(a + 1) == upper.skip(b + 1)
}

/// The paths have the shape of the paths of neighbouring nodes.
pub open spec fn paths_adjacent(lower: Seq<ProofStep>, upper: Seq<ProofStep>) -> bool {
    exists|a: int, b: int| paths_meet(lower, upper, a, b)
}

/// The paths of neighbouring nodes of a level meet.
pub proof fn lemma_neighbour_paths_are_adjacent(level: Seq<hashing::Hash>, index: int)
    requires
        0 <= index < level.len() - 1,
    ensures
        paths_adjacent(path_from(level, index), path_from(level, index + 1)),
    decreases level.len(),
{
    let above = parent_level(level);
    let lower = path_from(level, index);
    let upper = path_from(level, index + 1);
    let lower_above = path_from(above, index / 2);
    if index % 2 == 0 {
        assert((index + 1) / 2 == index / 2);
        assert(lower.skip(1) =~= lower_above);
        assert(upper.skip(1) =~= lower_above);
        assert(paths_meet(lower, upper, 0, 0));
    } else {
        assert((index + 1) / 2 == index / 2 + 1);
        lemma_neighbour_paths_are_adjacent(above, index / 2);
        let upper_above = path_from(above, index / 2 + 1);
        let (a, b) = choose|a: int, b: int| paths_meet(lower_above, upper_above, a, b);
        let shift: int = if sibling_index(index + 1) < level.len() {
            1
        } else {
            0
        };
        assert(lower.skip(a + 2) =~= lower_above.skip(a + 1));
        assert(upper.skip(b + shift + 1) =~= upper_above.skip(b + 1));
        assert forall|k: int| 0 <= k < a + 1 implies (#[trigger] lower[k]).is_left by {
            if k > 0 {
                assert(lower[k] == lower_above[k - 1]);
            }
        }
        assert forall|k: int| 0 <= k < b + shift implies !(#[trigger] upper[k]).is_left by {
            if k >= shift {
                assert(upper[k] == upper_above[k - shift]);
            }
        }
        assert(paths_meet(lower, upper, a + 1, b + shift));
    }
}

} // verus!
