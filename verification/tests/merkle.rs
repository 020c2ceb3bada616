use entangled_substrate::hashing::{hash_equal, hash_leaf, hash_node};
use entangled_substrate::merkle::sorted::{lower_bound, sort_dedup};
use entangled_substrate::merkle::{
    InclusionProof, MerkleError, MerkleTree, NonMembershipProof, ProofStep,
};

fn sample_leaves() -> Vec<Vec<u8>> {
    vec![
        b"credential-0001".to_vec(),
        b"credential-0002".to_vec(),
        b"credential-0005".to_vec(),
        b"credential-0009".to_vec(),
        b"credential-0012".to_vec(),
    ]
}

fn numbered(count: u8) -> Vec<Vec<u8>> {
    (0..count).map(|i| vec![2 * i + 1]).collect()
}

#[test]
fn build_and_root_is_deterministic() {
    let t1 = MerkleTree::build(sample_leaves()).unwrap();
    let t2 = MerkleTree::build(sample_leaves()).unwrap();
    assert_eq!(t1.root(), t2.root());
}

#[test]
fn inclusion_proof_verifies_for_present_leaf() {
    let tree = MerkleTree::build(sample_leaves()).unwrap();
    let root = tree.root();
    let proof = tree.prove_inclusion(b"credential-0005").unwrap();
    proof.verify(&root).expect("valid inclusion proof must verify");
}

#[test]
fn inclusion_proof_fails_for_wrong_root() {
    let tree = MerkleTree::build(sample_leaves()).unwrap();
    let proof = tree.prove_inclusion(b"credential-0005").unwrap();
    let wrong_root = [0xAAu8; 32];
    assert!(proof.verify(&wrong_root).is_err());
}

#[test]
fn inclusion_proof_fails_for_tampered_leaf_hash() {
    let tree = MerkleTree::build(sample_leaves()).unwrap();
    let root = tree.root();
    let mut proof = tree.prove_inclusion(b"credential-0005").unwrap();
    proof.leaf_hash[0] ^= 0xFF;
    assert!(proof.verify(&root).is_err());
}

#[test]
fn absent_leaf_cannot_be_included() {
    let tree = MerkleTree::build(sample_leaves()).unwrap();
    let result = tree.prove_inclusion(b"credential-9999");
    assert!(matches!(result, Err(MerkleError::LeafNotFound)));
}

#[test]
fn non_membership_proof_verifies_for_absent_value_between_leaves() {
    let tree = MerkleTree::build(sample_leaves()).unwrap();
    let root = tree.root();
    // "credential-0003" sits between 0002 and 0005 lexicographically.
    let proof = tree.prove_non_membership(b"credential-0003").unwrap();
    proof
        .verify(b"credential-0003", &root)
        .expect("valid non-membership proof must verify");
}

#[test]
fn non_membership_proof_rejected_for_present_value() {
    let tree = MerkleTree::build(sample_leaves()).unwrap();
    let result = tree.prove_non_membership(b"credential-0005");
    assert!(matches!(result, Err(MerkleError::InvalidProof)));
}

#[test]
fn non_membership_proof_rejects_target_outside_claimed_bounds() {
    let tree = MerkleTree::build(sample_leaves()).unwrap();
    let root = tree.root();
    let proof = tree.prove_non_membership(b"credential-0003").unwrap();
    // The proof is reused for another target, which is not strictly between
    // lower and upper.
    let result = proof.verify(b"credential-9999", &root);
    assert!(result.is_err());
}

#[test]
fn non_membership_proof_rejects_tampered_bracket() {
    let tree = MerkleTree::build(sample_leaves()).unwrap();
    let root = tree.root();
    let mut proof = tree.prove_non_membership(b"credential-0003").unwrap();
    // The claimed lower bound changes, its proof does not.
    proof.lower = b"credential-0001".to_vec();
    let result = proof.verify(b"credential-0003", &root);
    assert!(result.is_err());
}

#[test]
fn empty_tree_is_rejected() {
    let result = MerkleTree::build(vec![]);
    assert!(matches!(result, Err(MerkleError::EmptyTree)));
}

#[test]
fn duplicate_leaves_are_deduplicated() {
    let leaves = vec![b"a".to_vec(), b"a".to_vec(), b"b".to_vec()];
    let tree = MerkleTree::build(leaves).unwrap();
    let root = tree.root();
    let proof = tree.prove_inclusion(b"a").unwrap();
    proof.verify(&root).expect("dedup'd tree must still verify inclusion");
}

#[test]
fn leaf_digest_is_blake3_of_the_prefixed_leaf() {
    let mut hasher = blake3::Hasher::new();
    hasher.update(&[0x00]);
    hasher.update(b"credential-0005");
    assert_eq!(hash_leaf(b"credential-0005"), *hasher.finalize().as_bytes());

    let long = vec![7u8; 5000];
    let mut hasher = blake3::Hasher::new();
    hasher.update(&[0x00]);
    hasher.update(&long);
    assert_eq!(hash_leaf(&long), *hasher.finalize().as_bytes());
}

#[test]
fn node_digest_is_blake3_of_the_prefixed_children() {
    let left = [1u8; 32];
    let right = [2u8; 32];
    let mut hasher = blake3::Hasher::new();
    hasher.update(&[0x01]);
    hasher.update(&left);
    hasher.update(&right);
    let expected = *hasher.finalize().as_bytes();
    assert_eq!(hash_node(&left, &right), expected);
    assert_ne!(hash_node(&right, &left), expected);
}

#[test]
fn digests_are_compared_byte_by_byte() {
    let a = [3u8; 32];
    let mut b = a;
    assert!(hash_equal(&a, &b));
    b[31] = 4;
    assert!(!hash_equal(&a, &b));
}

#[test]
fn root_of_one_leaf_is_its_digest() {
    let tree = MerkleTree::build(vec![b"only".to_vec()]).unwrap();
    assert_eq!(tree.root(), hash_leaf(b"only"));
    let proof = tree.prove_inclusion(b"only").unwrap();
    assert!(proof.path.is_empty());
    assert!(proof.verify(&tree.root()).is_ok());
}

#[test]
fn root_of_five_leaves_promotes_the_odd_one() {
    let tree = MerkleTree::build(sample_leaves()).unwrap();
    let h: Vec<[u8; 32]> = sample_leaves().iter().map(|leaf| hash_leaf(leaf)).collect();
    let pairs = hash_node(&hash_node(&h[0], &h[1]), &hash_node(&h[2], &h[3]));
    assert_eq!(tree.root(), hash_node(&pairs, &h[4]));

    // The promoted leaf meets a sibling on the top level only.
    let proof = tree.prove_inclusion(b"credential-0012").unwrap();
    assert_eq!(proof.leaf_hash, h[4]);
    assert_eq!(proof.path, vec![ProofStep { sibling: pairs, is_left: true }]);
}

#[test]
fn path_names_siblings_from_the_bottom_up() {
    let tree = MerkleTree::build(sample_leaves()).unwrap();
    let h: Vec<[u8; 32]> = sample_leaves().iter().map(|leaf| hash_leaf(leaf)).collect();
    let proof = tree.prove_inclusion(b"credential-0005").unwrap();
    assert_eq!(proof.leaf_hash, h[2]);
    assert_eq!(
        proof.path,
        vec![
            ProofStep { sibling: h[3], is_left: false },
            ProofStep { sibling: hash_node(&h[0], &h[1]), is_left: true },
            ProofStep { sibling: h[4], is_left: false },
        ]
    );
}

#[test]
fn every_leaf_of_every_small_tree_is_provable() {
    for count in 1..20u8 {
        let tree = MerkleTree::build(numbered(count)).unwrap();
        let root = tree.root();
        for leaf in numbered(count) {
            assert_eq!(tree.prove_inclusion(&leaf).unwrap().verify(&root), Ok(()));
            assert_eq!(
                tree.prove_non_membership(&leaf).err(),
                Some(MerkleError::InvalidProof)
            );
        }
    }
}

#[test]
fn every_absent_value_between_sentinels_is_provably_absent() {
    for count in 2..20u8 {
        let tree = MerkleTree::build(numbered(count)).unwrap();
        let root = tree.root();
        for i in 1..count {
            let target = [2 * i];
            let proof = tree.prove_non_membership(&target).unwrap();
            assert_eq!(proof.lower, vec![2 * i - 1]);
            assert_eq!(proof.upper, vec![2 * i + 1]);
            assert_eq!(proof.verify(&target, &root), Ok(()));
            assert_eq!(tree.prove_inclusion(&target), Err(MerkleError::LeafNotFound));
        }
    }
}

#[test]
fn values_outside_the_leaves_have_no_non_membership_proof() {
    let tree = MerkleTree::build(sample_leaves()).unwrap();
    assert_eq!(
        tree.prove_non_membership(b"credential-0000").err(),
        Some(MerkleError::InvalidProof)
    );
    assert_eq!(
        tree.prove_non_membership(b"credential-9999").err(),
        Some(MerkleError::InvalidProof)
    );
}

#[test]
fn root_ignores_order_and_repeats() {
    let mut shuffled = sample_leaves();
    shuffled.reverse();
    shuffled.push(b"credential-0002".to_vec());
    shuffled.swap(1, 3);
    let a = MerkleTree::build(sample_leaves()).unwrap();
    let b = MerkleTree::build(shuffled).unwrap();
    assert_eq!(a.root(), b.root());
}

#[test]
fn root_changes_with_the_leaves() {
    let mut other = sample_leaves();
    other.pop();
    let a = MerkleTree::build(sample_leaves()).unwrap();
    let b = MerkleTree::build(other).unwrap();
    assert_ne!(a.root(), b.root());
}

#[test]
fn tampered_sibling_is_rejected() {
    let tree = MerkleTree::build(sample_leaves()).unwrap();
    let mut proof = tree.prove_inclusion(b"credential-0005").unwrap();
    proof.path[1].sibling[5] ^= 1;
    assert_eq!(proof.verify(&tree.root()), Err(MerkleError::InvalidProof));
}

#[test]
fn internal_node_does_not_pass_for_a_leaf() {
    let leaves = vec![b"a".to_vec(), b"b".to_vec(), b"c".to_vec(), b"d".to_vec()];
    let tree = MerkleTree::build(leaves).unwrap();
    let left = hash_leaf(b"a");
    let right = hash_leaf(b"b");
    let above = hash_node(&hash_leaf(b"c"), &hash_leaf(b"d"));
    let mut fake = Vec::new();
    fake.extend_from_slice(&left);
    fake.extend_from_slice(&right);
    let proof = InclusionProof {
        leaf_hash: hash_leaf(&fake),
        path: vec![ProofStep { sibling: above, is_left: false }],
    };
    assert_eq!(proof.verify(&tree.root()), Err(MerkleError::InvalidProof));
}

fn proof_from_bounds(tree: &MerkleTree, lower: &[u8], upper: &[u8]) -> NonMembershipProof {
    NonMembershipProof {
        lower: lower.to_vec(),
        lower_proof: tree.prove_inclusion(lower).unwrap(),
        upper: upper.to_vec(),
        upper_proof: tree.prove_inclusion(upper).unwrap(),
    }
}

#[test]
fn bounds_that_are_not_neighbours_are_rejected() {
    let tree = MerkleTree::build(sample_leaves()).unwrap();
    let proof = proof_from_bounds(&tree, b"credential-0001", b"credential-0009");
    for target in [
        b"credential-0001",
        b"credential-0003",
        b"credential-0005",
        b"credential-0009",
    ] {
        assert_eq!(
            proof.verify(target, &tree.root()),
            Err(MerkleError::InvalidProof)
        );
    }
}

#[test]
fn bounds_around_a_leaf_do_not_show_it_absent() {
    let leaves = vec![b"a".to_vec(), b"b".to_vec(), b"c".to_vec()];
    let tree = MerkleTree::build(leaves).unwrap();
    let proof = proof_from_bounds(&tree, b"a", b"c");
    assert_eq!(proof.verify(b"b", &tree.root()), Err(MerkleError::InvalidProof));
}

#[test]
fn exactly_neighbouring_bounds_are_accepted_in_trees_of_every_shape() {
    for count in 2u8..=33 {
        let leaves: Vec<Vec<u8>> = (0..count).map(|i| vec![2 * i]).collect();
        let tree = MerkleTree::build(leaves).unwrap();
        let root = tree.root();
        for i in 0..count {
            for j in i + 1..count {
                let proof = proof_from_bounds(&tree, &[2 * i], &[2 * j]);
                let expected = if j == i + 1 {
                    Ok(())
                } else {
                    Err(MerkleError::InvalidProof)
                };
                assert_eq!(proof.verify(&[2 * i + 1], &root), expected);
            }
        }
    }
}

#[test]
fn shortened_path_of_a_bound_is_rejected() {
    let tree = MerkleTree::build(sample_leaves()).unwrap();
    let mut proof = tree.prove_non_membership(b"credential-0003").unwrap();
    assert_eq!(proof.verify(b"credential-0003", &tree.root()), Ok(()));
    proof.upper_proof.path.pop();
    assert_eq!(
        proof.verify(b"credential-0003", &tree.root()),
        Err(MerkleError::InvalidProof)
    );
}

#[test]
fn paths_are_no_longer_than_the_tree_is_deep() {
    for count in 1u8..=33 {
        let leaves: Vec<Vec<u8>> = (0..count).map(|i| vec![i]).collect();
        let tree = MerkleTree::build(leaves).unwrap();
        let depth = (count as usize).next_power_of_two().trailing_zeros() as usize;
        for i in 0..count {
            let path = tree.prove_inclusion(&[i]).unwrap().path;
            assert!(path.len() <= depth);
        }
        assert_eq!(tree.prove_inclusion(&[0]).unwrap().path.len(), depth);
    }
}

#[test]
fn levels_are_hashed_in_pairs_and_a_last_node_goes_up_unchanged() {
    let leaves: Vec<Vec<u8>> = (0u8..5).map(|i| vec![i]).collect();
    let tree = MerkleTree::build(leaves).unwrap();
    let ab = hash_node(&hash_leaf(&[0]), &hash_leaf(&[1]));
    let cd = hash_node(&hash_leaf(&[2]), &hash_leaf(&[3]));
    let abcd = hash_node(&ab, &cd);
    assert_eq!(tree.root(), hash_node(&abcd, &hash_leaf(&[4])));
    assert_eq!(
        tree.prove_inclusion(&[4]).unwrap().path,
        vec![ProofStep { sibling: abcd, is_left: true }]
    );
}

#[test]
fn upper_bound_must_carry_its_own_proof() {
    let tree = MerkleTree::build(sample_leaves()).unwrap();
    let mut proof = tree.prove_non_membership(b"credential-0003").unwrap();
    proof.upper = b"credential-0012".to_vec();
    assert_eq!(
        proof.verify(b"credential-0003", &tree.root()),
        Err(MerkleError::InvalidProof)
    );
}

#[test]
fn sorting_orders_and_drops_repeats() {
    let list = vec![
        vec![2u8],
        vec![],
        vec![1, 2],
        vec![1],
        vec![2],
        vec![1, 2, 3],
        vec![255],
        vec![],
    ];
    let mut expected = list.clone();
    expected.sort();
    expected.dedup();
    assert_eq!(sort_dedup(list), expected);
}

#[test]
fn sorting_agrees_with_the_standard_library() {
    let mut state: u32 = 1;
    let mut list: Vec<Vec<u8>> = Vec::new();
    for _ in 0..500 {
        state = state.wrapping_mul(1664525).wrapping_add(1013904223);
        let len = (state >> 28) as usize % 4;
        list.push((0..len).map(|i| (state >> (8 * i)) as u8 & 7).collect());
    }
    let mut expected = list.clone();
    expected.sort();
    expected.dedup();
    assert_eq!(sort_dedup(list), expected);
}

#[test]
fn lower_bound_counts_smaller_items() {
    let list = vec![vec![1u8], vec![3], vec![3, 1], vec![5]];
    assert_eq!(lower_bound(&list, &[0]), 0);
    assert_eq!(lower_bound(&list, &[1]), 0);
    assert_eq!(lower_bound(&list, &[3]), 1);
    assert_eq!(lower_bound(&list, &[3, 0]), 2);
    assert_eq!(lower_bound(&list, &[5]), 3);
    assert_eq!(lower_bound(&list, &[6]), 4);
}

#[test]
fn merkle_errors_say_what_is_wrong() {
    assert_eq!(
        MerkleError::EmptyTree.message(),
        "cannot build a Merkle tree from zero leaves"
    );
    assert_eq!(
        MerkleError::InvalidProof.message(),
        "Merkle proof failed to reconstruct the expected root"
    );
    assert_eq!(
        MerkleError::LeafNotFound.message(),
        "requested leaf value not present in the tree"
    );
}
