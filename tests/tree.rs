use recursive_merkle::ascent::{Ascent, NodeJob};
use recursive_merkle::digest::{concat_digests, is_canonical, Digest};
use recursive_merkle::layout::{is_power_of_two, locate};
use recursive_merkle::merkle_tree::{MerkleTree, TreeError};
use recursive_merkle::pairwise_hash::{parent_digest, PairwiseHash};
use recursive_merkle::recursive_hash::{exposes_digest, inner_witness_consistent};

const ORDER: u64 = 0xFFFF_FFFF_0000_0001;

/// A deterministic stand-in for the field hash: up to four elements pass
/// through padded with zeros, longer inputs are mixed.
fn toy_hash(inputs: Vec<u64>) -> Digest {
    if inputs.len() <= 4 {
        let mut elements = [0u64; 4];
        for (i, x) in inputs.iter().enumerate() {
            elements[i] = *x;
        }
        return Digest::new(elements);
    }
    let mut state = [7u64, 11, 13, 17];
    for (i, x) in inputs.iter().enumerate() {
        let lane = i % 4;
        state[lane] = (state[lane].wrapping_mul(31).wrapping_add(*x).wrapping_add(i as u64)) % ORDER;
        state[(lane + 1) % 4] ^= state[lane].rotate_left(17) % ORDER;
    }
    Digest::new([state[0] % ORDER, state[1] % ORDER, state[2] % ORDER, state[3] % ORDER])
}

fn hash_pair(left: &Digest, right: &Digest) -> Digest {
    let mut input = left.elements.to_vec();
    input.extend_from_slice(&right.elements);
    toy_hash(input)
}

fn recursive_root(leaf_digests: &[Digest]) -> Digest {
    if leaf_digests.len() == 1 {
        return leaf_digests[0];
    }
    let half = leaf_digests.len() / 2;
    hash_pair(&recursive_root(&leaf_digests[..half]), &recursive_root(&leaf_digests[half..]))
}

fn four_leaves() -> Vec<Vec<u64>> {
    vec![vec![1], vec![2], vec![3], vec![4]]
}

fn one_to_eight(copies: usize) -> Vec<Vec<u64>> {
    let mut leaves = vec![];
    for _ in 0..copies {
        for v in 1..=8u64 {
            leaves.push(vec![v]);
        }
    }
    leaves
}

#[test]
fn four_single_element_leaves() {
    let tree = MerkleTree::create(four_leaves(), toy_hash);
    assert_eq!(tree.digests.len(), 7);
    assert_eq!(tree.digests[0], Digest::new([1, 0, 0, 0]));
    assert_eq!(tree.digests[1], Digest::new([2, 0, 0, 0]));
    assert_eq!(tree.digests[2], Digest::new([3, 0, 0, 0]));
    assert_eq!(tree.digests[3], Digest::new([4, 0, 0, 0]));
    let left = hash_pair(&tree.digests[0], &tree.digests[1]);
    let right = hash_pair(&tree.digests[2], &tree.digests[3]);
    assert_eq!(tree.digests[4], left);
    assert_eq!(tree.digests[5], right);
    assert_eq!(tree.digests[6], hash_pair(&left, &right));
    assert_eq!(tree.root, tree.digests[6]);
    assert!(tree.check(&toy_hash).is_ok());
}

#[test]
fn root_matches_recursive_root() {
    for copies in [1usize, 2, 8] {
        let leaves = one_to_eight(copies);
        let leaf_digests: Vec<Digest> = leaves.iter().map(|l| toy_hash(l.clone())).collect();
        let tree = MerkleTree::create(leaves, toy_hash);
        assert_eq!(tree.root, recursive_root(&leaf_digests));
    }
}

#[test]
fn multi_element_leaves_are_hashed() {
    let leaves = vec![vec![1, 2, 3, 4, 5], vec![6], vec![7, 8], vec![9, 10, 11, 12, 13, 14]];
    let tree = MerkleTree::create(leaves.clone(), toy_hash);
    assert_eq!(tree.digests[0], toy_hash(leaves[0].clone()));
    assert_ne!(tree.digests[0], Digest::new([1, 2, 3, 4]));
    assert_eq!(tree.digests[2], Digest::new([7, 8, 0, 0]));
    assert!(tree.check(&toy_hash).is_ok());
}

#[test]
fn check_is_repeatable() {
    let tree = MerkleTree::create(one_to_eight(1), toy_hash);
    assert_eq!(tree.check(&toy_hash), Ok(()));
    assert_eq!(tree.check(&toy_hash), Ok(()));
}

#[test]
fn changed_digest_is_found_at_its_level() {
    let mut tree = MerkleTree::create(four_leaves(), toy_hash);
    tree.digests[2] = toy_hash(vec![0]);
    // Leaf digest 2 is first read by the leaf pair at level 1, position 1.
    assert_eq!(tree.check(&toy_hash), Err(TreeError::DigestMismatch { level: 1, position: 1 }));

    let expected = [(1, 0), (1, 0), (1, 1), (1, 1), (2, 0), (2, 0)];
    for (t, (level, position)) in expected.iter().enumerate() {
        let mut tree = MerkleTree::create(four_leaves(), toy_hash);
        tree.digests[t] = Digest::new([99, 98, 97, 96]);
        assert_eq!(
            tree.check(&toy_hash),
            Err(TreeError::DigestMismatch { level: *level, position: *position })
        );
    }
    // The top digest is read by the comparison with the declared root.
    let mut tree = MerkleTree::create(four_leaves(), toy_hash);
    tree.digests[6] = Digest::new([99, 98, 97, 96]);
    assert_eq!(tree.check(&toy_hash), Err(TreeError::RootMismatch));
}

#[test]
fn changed_digest_in_larger_tree() {
    let mut tree = MerkleTree::create(one_to_eight(2), toy_hash);
    // 16 leaves, 8 nodes on level 1, 4 on level 2: flat index 26 is level 2,
    // position 2, read by its parent at level 3, position 1.
    tree.digests[26] = Digest::new([5, 5, 5, 5]);
    assert_eq!(tree.check(&toy_hash), Err(TreeError::DigestMismatch { level: 3, position: 1 }));
}

#[test]
fn changed_leaf_data_is_found() {
    let mut tree = MerkleTree::create(four_leaves(), toy_hash);
    tree.leaves[0] = vec![0];
    assert_eq!(tree.check(&toy_hash), Err(TreeError::DigestMismatch { level: 1, position: 0 }));
    let mut tree = MerkleTree::create(four_leaves(), toy_hash);
    tree.leaves[3] = vec![9];
    assert_eq!(tree.check(&toy_hash), Err(TreeError::DigestMismatch { level: 1, position: 1 }));
}

#[test]
fn leaf_data_with_the_same_padded_hash_is_not_a_change() {
    // Up to four elements pass through padded with zeros, so [1] and [1, 0]
    // have the same digest and the check cannot tell them apart.
    let mut tree = MerkleTree::create(four_leaves(), toy_hash);
    tree.leaves[0] = vec![1, 0];
    assert_eq!(tree.check(&toy_hash), Ok(()));
}

#[test]
fn changed_root_is_found() {
    let mut tree = MerkleTree::create(four_leaves(), toy_hash);
    tree.root = toy_hash(vec![0, 1, 0, 1, 1, 0, 1, 0]);
    assert_eq!(tree.check(&toy_hash), Err(TreeError::RootMismatch));
}

#[test]
fn malformed_trees_are_refused() {
    let three = MerkleTree {
        leaves: vec![vec![1], vec![2], vec![3]],
        digests: vec![Digest::new([1, 0, 0, 0]); 5],
        root: Digest::new([1, 0, 0, 0]),
    };
    assert_eq!(three.check(&toy_hash), Err(TreeError::Malformed));
    let one = MerkleTree {
        leaves: vec![vec![1]],
        digests: vec![Digest::new([1, 0, 0, 0])],
        root: Digest::new([1, 0, 0, 0]),
    };
    assert_eq!(one.check(&toy_hash), Err(TreeError::Malformed));
    let mut short = MerkleTree::create(four_leaves(), toy_hash);
    short.digests.pop();
    assert_eq!(short.check(&toy_hash), Err(TreeError::Malformed));
    assert!(matches!(Ascent::start(&short, &toy_hash), Err(TreeError::Malformed)));
}

#[test]
fn values_above_the_field_order_are_refused() {
    let mut leaf = MerkleTree::create(four_leaves(), toy_hash);
    leaf.leaves[1] = vec![ORDER];
    assert_eq!(leaf.check(&toy_hash), Err(TreeError::Malformed));
    let mut digest = MerkleTree::create(four_leaves(), toy_hash);
    digest.digests[4] = Digest::new([0, u64::MAX, 0, 0]);
    assert_eq!(digest.check(&toy_hash), Err(TreeError::Malformed));
    let mut root = MerkleTree::create(four_leaves(), toy_hash);
    root.root = Digest::new([ORDER, 0, 0, 0]);
    assert_eq!(root.check(&toy_hash), Err(TreeError::Malformed));
    assert!(is_canonical(&vec![0, 1, ORDER - 1]));
    assert!(!is_canonical(&vec![0, ORDER]));
}

#[test]
fn inner_witness_of_consistent_children() {
    let left_hash = toy_hash(vec![0]);
    let right_hash = toy_hash(vec![1]);
    let parent = parent_digest(&left_hash, &right_hash, &toy_hash);
    assert_eq!(parent, hash_pair(&left_hash, &right_hash));
    let left_inputs = left_hash.elements.to_vec();
    let right_inputs = right_hash.elements.to_vec();
    assert!(exposes_digest(&left_inputs, &left_hash));
    assert!(inner_witness_consistent(
        &left_hash, &left_inputs, &right_hash, &right_inputs, &parent, &toy_hash
    ));
}

#[test]
fn inner_witness_with_replaced_left_digest() {
    let left_hash = toy_hash(vec![0]);
    let right_hash = toy_hash(vec![1]);
    let parent = parent_digest(&left_hash, &right_hash, &toy_hash);
    let left_inputs = left_hash.elements.to_vec();
    let right_inputs = right_hash.elements.to_vec();
    let replaced = toy_hash(vec![255]);
    assert!(!exposes_digest(&left_inputs, &replaced));
    assert!(!inner_witness_consistent(
        &replaced, &left_inputs, &right_hash, &right_inputs, &parent, &toy_hash
    ));
    // A child proof exposing five values, or the wrong parent, is refused too.
    let mut five = left_inputs.clone();
    five.push(0);
    assert!(!inner_witness_consistent(
        &left_hash, &five, &right_hash, &right_inputs, &parent, &toy_hash
    ));
    assert!(!inner_witness_consistent(
        &left_hash, &left_inputs, &right_hash, &right_inputs, &left_hash, &toy_hash
    ));
}

#[test]
fn ascent_over_four_leaves() {
    let tree = MerkleTree::create(four_leaves(), toy_hash);
    let mut ascent = Ascent::start(&tree, &toy_hash).unwrap();
    assert!(!ascent.is_done());
    let jobs = ascent.next_jobs(&tree).unwrap();
    assert_eq!(jobs.len(), 2);
    match &jobs[1] {
        NodeJob::LeafPair { left, right } => {
            assert_eq!(left.data, vec![3]);
            assert_eq!(left.hash, tree.digests[2]);
            assert_eq!(right.data, vec![4]);
            assert_eq!(right.hash, tree.digests[3]);
        }
        NodeJob::Inner { .. } => panic!("the first step pairs leaves"),
    }
    for (j, job) in jobs.iter().enumerate() {
        if let NodeJob::LeafPair { left, right } = job {
            assert_eq!(tree.digests[4 + j], hash_pair(&left.hash, &right.hash));
        }
    }
    assert_eq!(ascent.finish_step(&vec![true, true]), Ok(()));
    let jobs = ascent.next_jobs(&tree).unwrap();
    assert_eq!(jobs.len(), 1);
    match &jobs[0] {
        NodeJob::Inner { left_hash, right_hash, left_proof, right_proof } => {
            assert_eq!(*left_hash, tree.digests[4]);
            assert_eq!(*right_hash, tree.digests[5]);
            assert_eq!((*left_proof, *right_proof), (0, 1));
            assert_eq!(tree.digests[6], hash_pair(left_hash, right_hash));
        }
        NodeJob::LeafPair { .. } => panic!("later steps pair proofs"),
    }
    assert_eq!(ascent.finish_step(&vec![true]), Ok(()));
    assert!(ascent.is_done());
    assert!(ascent.next_jobs(&tree).is_none());
}

#[test]
fn ascent_reports_the_failed_node() {
    let tree = MerkleTree::create(one_to_eight(1), toy_hash);
    let mut ascent = Ascent::start(&tree, &toy_hash).unwrap();
    assert_eq!(ascent.next_jobs(&tree).unwrap().len(), 4);
    assert_eq!(ascent.finish_step(&vec![true; 4]), Ok(()));
    assert_eq!(
        ascent.finish_step(&vec![true, false]),
        Err(TreeError::ProvingFailed { level: 2, position: 1 })
    );
    assert_eq!(ascent.step, 1);
    assert_eq!(ascent.next_jobs(&tree).unwrap().len(), 2);
}

#[test]
fn ascent_refuses_a_changed_tree() {
    let mut tree = MerkleTree::create(four_leaves(), toy_hash);
    tree.digests[5] = Digest::new([0, 0, 0, 0]);
    assert!(matches!(
        Ascent::start(&tree, &toy_hash),
        Err(TreeError::DigestMismatch { level: 2, position: 0 })
    ));
}

#[test]
fn large_uniform_tree() {
    let leaves = vec![vec![0u64]; 16_384];
    let tree = MerkleTree::create(leaves, toy_hash);
    assert_eq!(tree.digests.len(), 2 * 16_384 - 1);
    let mut ascent = Ascent::start(&tree, &toy_hash).unwrap();
    let mut steps = 0;
    while let Some(jobs) = ascent.next_jobs(&tree) {
        let outcome = vec![true; jobs.len()];
        assert_eq!(ascent.finish_step(&outcome), Ok(()));
        steps += 1;
    }
    assert_eq!(steps, 14);
}

#[test]
fn powers_of_two() {
    let expected = [(0usize, false), (1, true), (2, true), (3, false), (4, true), (6, false), (8, true), (1024, true), (1023, false)];
    for (n, r) in expected {
        assert_eq!(is_power_of_two(n), r);
    }
}

#[test]
fn locate_in_eight_leaf_tree() {
    let expected = [
        (0, 0), (0, 1), (0, 2), (0, 3), (0, 4), (0, 5), (0, 6), (0, 7),
        (1, 0), (1, 1), (1, 2), (1, 3), (2, 0), (2, 1), (3, 0),
    ];
    for (i, e) in expected.iter().enumerate() {
        assert_eq!(locate(8, i), *e);
    }
}

#[test]
fn digests_concatenate_and_compare() {
    let a = Digest::new([1, 2, 3, 4]);
    let b = Digest::new([5, 6, 7, 8]);
    assert_eq!(concat_digests(&a, &b), vec![1, 2, 3, 4, 5, 6, 7, 8]);
    assert!(a.same_as(&Digest::new([1, 2, 3, 4])));
    assert!(!a.same_as(&b));
}

#[test]
fn pairwise_hash_parent_and_consistency() {
    let left = toy_hash(vec![0]);
    let right = toy_hash(vec![1]);
    let pair = PairwiseHash::new(vec![0], left, vec![1], right, &toy_hash);
    assert_eq!(pair.parent_hash, hash_pair(&left, &right));
    assert_eq!(pair.evaluate(), pair.parent_hash);
    assert!(pair.witness_consistent(&toy_hash));

    let mut bad_data = pair.clone();
    bad_data.left_child.data = vec![5];
    assert!(!bad_data.witness_consistent(&toy_hash));
    let mut bad_hash = pair.clone();
    bad_hash.right_child.hash = toy_hash(vec![255]);
    assert!(!bad_hash.witness_consistent(&toy_hash));
    let mut bad_parent = pair;
    bad_parent.parent_hash = left;
    assert!(!bad_parent.witness_consistent(&toy_hash));
}
