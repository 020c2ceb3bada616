//! BLAKE3 digests of tree leaves and tree nodes.
//!
//! Leaf inputs and node inputs start with different prefix bytes, so no leaf
//! input is ever a node input.

use vstd::prelude::*;

use crate::bytes::append_bytes;

verus! {

/// The byte in front of every leaf input.
pub const LEAF_PREFIX: u8 = 0x00;

/// The byte in front of every node input.
pub const NODE_PREFIX: u8 = 0x01;

/// A 32-byte digest.
pub type Hash = [u8; 32];

/// The BLAKE3 digest of a byte string, in the default (unkeyed) mode with the
/// default output length.
pub uninterp spec fn blake3_digest(input: Seq<u8>) -> [u8; 32];

/// Calls `blake3::hash`. Claimed of it: the digest is a function of the input
/// bytes alone, the one named `blake3_digest`. Nothing is claimed about which
/// digest belongs to which input, nor that digests of different inputs differ.
#[verifier::external_body]
fn blake3_hash(input: &[u8]) -> (digest: [u8; 32])
    ensures
        digest == blake3_digest(input@),
{
    *blake3::hash(input).as_bytes()
}

/// What is hashed for a leaf value.
pub open spec fn leaf_input(data: Seq<u8>) -> Seq<u8> {
    seq![LEAF_PREFIX] + data
}

/// What is hashed for an internal node.
pub open spec fn node_input(left: Hash, right: Hash) -> Seq<u8> {
    seq![NODE_PREFIX] + left@ + right@
}

/// The digest of a leaf value.
pub open spec fn leaf_digest(data: Seq<u8>) -> Hash {
    blake3_digest(leaf_input(data))
}

/// The digest of an internal node over its two children.
pub open spec fn node_digest(left: Hash, right: Hash) -> Hash {
    blake3_digest(node_input(left, right))
}

/// Domain separation: no leaf input is a node input, whatever the leaf value
/// and whatever the children.
pub proof fn law_leaf_and_node_inputs_differ(data: Seq<u8>, left: Hash, right: Hash)
    ensures
        leaf_input(data) != node_input(left, right),
{
    assert(leaf_input(data)[0] == LEAF_PREFIX);
    assert(node_input(left, right)[0] == NODE_PREFIX);
}

/// Different leaf values have different leaf inputs.
pub proof fn law_leaf_input_injective(a: Seq<u8>, b: Seq<u8>)
    requires
        leaf_input(a) == leaf_input(b),
    ensures
        a == b,
{
    assert(leaf_input(a).drop_first() =~= a);
    assert(leaf_input(b).drop_first() =~= b);
}

/// A node input determines both children and their sides.
pub proof fn law_node_input_injective(
    left_a: Hash,
    right_a: Hash,
    left_b: Hash,
    right_b: Hash,
)
    requires
        node_input(left_a, right_a) == node_input(left_b, right_b),
    ensures
        left_a == left_b,
        right_a == right_b,
{
    assert(node_input(left_a, right_a).subrange(1, 33) =~= left_a@);
    assert(node_input(left_b, right_b).subrange(1, 33) =~= left_b@);
    assert(node_input(left_a, right_a).subrange(33, 65) =~= right_a@);
    assert(node_input(left_b, right_b).subrange(33, 65) =~= right_b@);
    assert(left_a =~= left_b);
    assert(right_a =~= right_b);
}

/// Hashes a leaf value.
pub fn hash_leaf(data: &[u8]) -> (digest: Hash)
    ensures
        digest == leaf_digest(data@),
{
    let mut input: Vec<u8> = Vec::new();
    input.push(LEAF_PREFIX);
    append_bytes(&mut input, data);
    assert(input@ =~= leaf_input(data@));
    blake3_hash(input.as_slice())
}

/// Hashes two children into their parent.
pub fn hash_node(left: &Hash, right: &Hash) -> (digest: Hash)
    ensures
        digest == node_digest(*left, *right),
{
    let mut input: Vec<u8> = Vec::with_capacity(65);
    input.push(NODE_PREFIX);
    append_bytes(&mut input, left.as_slice());
    append_bytes(&mut input, right.as_slice());
    assert(input@ =~= node_input(*left, *right));
    blake3_hash(input.as_slice())
}

/// Whether two digests are the same.
pub fn hash_equal(a: &Hash, b: &Hash) -> (equal: bool)
    ensures
        equal == (*a == *b),
{
    let mut i: usize = 0;
    while i < 32
        invariant
            i <= 32,
            forall|j: int| 0 <= j < i ==> a@[j] == b@[j],
        decreases 32 - i,
    {
        if a[i] != b[i] {
            return false;
        }
        i += 1;
    }
    assert(*a =~= *b);
    true
}

/// What a leaf digest covers: a zero byte, then the leaf value.
pub proof fn law_leaf_digest_covers_the_value(data: Seq<u8>, input: Seq<u8>)
    requires
        input.len() == 1 + data.len(),
        input[0] == 0,
        forall|i: int| 0 <= i < data.len() ==> input[1 + i] == #[trigger] data[i],
    ensures
        leaf_input(data) == input,
        leaf_digest(data) == blake3_digest(input),
{
    assert(leaf_input(data) =~= input);
}

/// What a node digest covers: a one byte, then the 32 bytes of the left child,
/// then the 32 bytes of the right child.
pub proof fn law_node_digest_covers_the_children(left: Hash, right: Hash, input: Seq<u8>)
    requires
        input.len() == 65,
        input[0] == 1,
        forall|i: int| 0 <= i < 32 ==> input[1 + i] == #[trigger] left@[i],
        forall|i: int| 0 <= i < 32 ==> input[33 + i] == #[trigger] right@[i],
    ensures
        node_input(left, right) == input,
        node_digest(left, right) == blake3_digest(input),
{
    assert forall|i: int| 0 <= i < 65 implies node_input(left, right)[i] == input[i] by {
        if 1 <= i < 33 {
            assert(input[1 + (i - 1)] == left@[i - 1]);
        } else if 33 <= i {
            assert(input[33 + (i - 33)] == right@[i - 33]);
        }
    }
    assert(node_input(left, right) =~= input);
}

/// Where the parts of a node input stand: the left child before the right one.
pub proof fn law_left_child_is_hashed_before_the_right(left: Hash, right: Hash)
    ensures
        node_input(left, right).len() == 65,
        node_input(left, right)[0] == 1,
        node_input(left, right).subrange(1, 33) == left@,
        node_input(left, right).subrange(33, 65) == right@,
{
    assert(node_input(left, right).subrange(1, 33) =~= left@);
    assert(node_input(left, right).subrange(33, 65) =~= right@);
}

} // verus!
