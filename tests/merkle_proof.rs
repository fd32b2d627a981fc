use merkly::error::MerkleError;
use merkly::hash::{hash_function, make_node, LEFT, RIGHT};
use merkly::merkle_proof::make_proof;
use merkly::merkle_root::make_root;

fn setup_leaves() -> Vec<[u8; 32]> {
    vec![
        // a
        [
            58, 194, 37, 22, 141, 245, 66, 18, 162, 92, 28, 1, 253, 53, 190, 191, 234, 64, 143,
            218, 194, 227, 29, 221, 111, 128, 164, 187, 249, 165, 241, 203,
        ],
        // b
        [
            181, 85, 61, 227, 21, 224, 237, 245, 4, 217, 21, 10, 248, 45, 175, 165, 196, 102,
            127, 166, 24, 237, 10, 111, 25, 198, 155, 65, 22, 108, 85, 16,
        ],
        // c
        [
            11, 66, 182, 57, 60, 31, 83, 6, 15, 227, 221, 191, 205, 122, 173, 204, 168, 148, 70,
            90, 90, 67, 143, 105, 200, 125, 121, 11, 34, 153, 185, 178,
        ],
        // d
        [
            241, 145, 142, 133, 98, 35, 110, 177, 122, 220, 133, 2, 51, 47, 76, 156, 130, 188, 20,
            225, 155, 252, 10, 161, 10, 182, 116, 255, 117, 179, 210, 243,
        ],
    ]
}

fn setup_proof() -> Vec<[u8; 33]> {
    vec![
        [
            181, 85, 61, 227, 21, 224, 237, 245, 4, 217, 21, 10, 248, 45, 175, 165, 196, 102,
            127, 166, 24, 237, 10, 111, 25, 198, 155, 65, 22, 108, 85, 16, 1,
        ],
        [
            210, 83, 165, 45, 76, 176, 13, 226, 137, 94, 133, 242, 82, 158, 41, 118, 230, 170,
            170, 92, 24, 16, 107, 104, 171, 102, 129, 62, 20, 65, 86, 105, 1,
        ],
    ]
}

fn combine(a: &[u8; 32], b: &[u8; 32]) -> [u8; 32] {
    let mut out = [0u8; 32];
    hash_function(a, b, &mut out);
    out
}

fn replay(leaf: [u8; 32], proof: &[[u8; 33]]) -> [u8; 32] {
    let mut candidate = leaf;
    for step in proof {
        let mut sibling = [0u8; 32];
        sibling.copy_from_slice(&step[..32]);
        candidate = if step[32] == LEFT {
            combine(&sibling, &candidate)
        } else {
            combine(&candidate, &sibling)
        };
    }
    candidate
}

fn many_leaves(n: u8) -> Vec<[u8; 32]> {
    (0..n).map(|i| [i.wrapping_mul(37).wrapping_add(1); 32]).collect()
}

#[test]
fn merkle_proof_test_make_root() {
    let leaves = setup_leaves();
    let proof = setup_proof();
    let leaf = leaves[0];
    let result = make_proof(&leaves, leaf).unwrap();
    assert_eq!(result, proof);
}

#[test]
fn proof_of_first_leaf_names_its_siblings() {
    let l = setup_leaves();
    let proof = make_proof(&l, l[0]).unwrap();
    let expected = vec![make_node(l[1], RIGHT), make_node(combine(&l[2], &l[3]), RIGHT)];
    assert_eq!(proof, expected);
}

#[test]
fn proof_of_last_leaf_has_left_siblings() {
    let l = setup_leaves();
    let proof = make_proof(&l, l[3]).unwrap();
    let expected = vec![make_node(l[2], LEFT), make_node(combine(&l[0], &l[1]), LEFT)];
    assert_eq!(proof, expected);
}

#[test]
fn proof_replays_to_root_for_four_leaves() {
    let l = setup_leaves();
    let root = make_root(&l).unwrap();
    for leaf in &l {
        let proof = make_proof(&l, *leaf).unwrap();
        assert_eq!(proof.len(), 2);
        assert_eq!(replay(*leaf, &proof), root);
    }
}

#[test]
fn proof_replays_to_root_for_eight_and_two_leaves() {
    for n in [2u8, 8, 16] {
        let l = many_leaves(n);
        let root = make_root(&l).unwrap();
        for leaf in &l {
            let proof = make_proof(&l, *leaf).unwrap();
            assert_eq!(replay(*leaf, &proof), root);
        }
    }
}

#[test]
fn proof_of_two_leaves_is_the_other_leaf() {
    let l = setup_leaves();
    assert_eq!(make_proof(&l[0..2], l[0]), Ok(vec![make_node(l[1], RIGHT)]));
    assert_eq!(make_proof(&l[0..2], l[1]), Ok(vec![make_node(l[0], LEFT)]));
}

#[test]
fn proof_on_three_leaves_splits_into_halves() {
    let l = setup_leaves();
    let proof = make_proof(&l[0..3], l[2]).unwrap();
    assert_eq!(proof, vec![make_node(l[1], LEFT), make_node(l[0], LEFT)]);
    let proof = make_proof(&l[0..3], l[0]).unwrap();
    assert_eq!(proof, vec![make_node(combine(&l[1], &l[2]), RIGHT)]);
}

#[test]
fn proof_takes_the_first_occurrence() {
    let l = setup_leaves();
    let dup = vec![l[0], l[1], l[2], l[1]];
    let proof = make_proof(&dup, l[1]).unwrap();
    assert_eq!(proof, vec![make_node(l[0], LEFT), make_node(combine(&l[2], &l[1]), RIGHT)]);
}

#[test]
fn proof_of_absent_leaf_is_not_found() {
    let l = setup_leaves();
    assert_eq!(make_proof(&l, [0u8; 32]), Err(MerkleError::LeafNotFound));
    assert_eq!(make_proof(&l[0..1], l[1]), Err(MerkleError::LeafNotFound));
    assert_eq!(make_proof(&l[0..3], l[3]), Err(MerkleError::LeafNotFound));
}

#[test]
fn proof_of_single_leaf_is_invalid_input() {
    let l = setup_leaves();
    assert_eq!(make_proof(&l[0..1], l[0]), Err(MerkleError::InvalidInput));
}

#[test]
fn proof_of_empty_tree_is_invalid_input() {
    let leaves: Vec<[u8; 32]> = Vec::new();
    assert_eq!(make_proof(&leaves, [1u8; 32]), Err(MerkleError::InvalidInput));
}

#[test]
fn make_node_appends_the_side_code() {
    let l = setup_leaves();
    let node = make_node(l[1], RIGHT);
    assert_eq!(&node[..32], &l[1][..]);
    assert_eq!(node[32], 1);
    assert_eq!(make_node(l[3], LEFT)[32], 0);
    assert_eq!(node.to_vec(), setup_proof()[0].to_vec());
}
