use sparse_merkle_tree::hash::merge;
use sparse_merkle_tree::{compute_default_tree, SparseMerkleTree, H256};

fn key_with_last(b: u8) -> H256 {
    let mut key = [0u8; 32];
    key[31] = b;
    key
}

fn goes_left(key: &H256, i: usize) -> bool {
    (key[i / 8] >> (7 - i % 8)) & 1 == 1
}

fn replay(key: &H256, value: &H256, proof: &[H256]) -> H256 {
    let mut node = *value;
    for i in (0..256).rev() {
        node = if goes_left(key, i) {
            merge(&node, &proof[i])
        } else {
            merge(&proof[i], &node)
        };
    }
    node
}

#[test]
fn test_default_root() {
    let tree = SparseMerkleTree::default();
    assert_eq!(tree.cache.len(), 256);
    assert_eq!(
        tree.root,
        [
            196, 132, 51, 8, 180, 167, 239, 184, 118, 169, 184, 200, 14, 177, 93, 124, 168,
            217, 185, 198, 139, 96, 205, 180, 89, 151, 241, 223, 31, 135, 83, 182
        ]
    );
}

#[test]
fn test_update() {
    let mut tree = SparseMerkleTree::default();
    let mut key = [0u8; 32];
    key[31] = 1;
    let value = [7u8; 32];
    tree.update(&key, value);
    assert_eq!(tree.get(&key), &value);
}

#[test]
fn default_tree_matches_computed_table() {
    let (root, cache) = compute_default_tree();
    let tree = SparseMerkleTree::default();
    assert_eq!(tree.root, root);
    assert_eq!(tree.cache, cache);
    assert_eq!(cache[0].0, merge(&[0u8; 32], &[0u8; 32]));
    assert_eq!(cache[0].1, ([0u8; 32], [0u8; 32]));
}

#[test]
fn empty_tree_holds_zero_everywhere() {
    let tree = SparseMerkleTree::default();
    assert_eq!(tree.get(&[0u8; 32]), &[0u8; 32]);
    assert_eq!(tree.get(&[0xffu8; 32]), &[0u8; 32]);
    assert_eq!(tree.get(&key_with_last(9)), &[0u8; 32]);
}

#[test]
fn update_then_get_zero_key_and_zero_value() {
    let mut tree = SparseMerkleTree::default();
    tree.update(&[0u8; 32], [0u8; 32]);
    assert_eq!(tree.get(&[0u8; 32]), &[0u8; 32]);
    tree.update(&[0u8; 32], [5u8; 32]);
    assert_eq!(tree.get(&[0u8; 32]), &[5u8; 32]);
}

#[test]
fn update_then_get_all_ones_key() {
    let mut tree = SparseMerkleTree::default();
    let key = [0xffu8; 32];
    let value = [0xabu8; 32];
    tree.update(&key, value);
    assert_eq!(tree.get(&key), &value);
}

#[test]
fn distinct_keys_do_not_interfere() {
    let mut tree = SparseMerkleTree::default();
    let k1 = key_with_last(1);
    let k2 = key_with_last(2);
    tree.update(&k1, [1u8; 32]);
    tree.update(&k2, [2u8; 32]);
    assert_eq!(tree.get(&k1), &[1u8; 32]);
    assert_eq!(tree.get(&k2), &[2u8; 32]);
    let mut k3 = [0u8; 32];
    k3[0] = 0x80;
    tree.update(&k3, [3u8; 32]);
    assert_eq!(tree.get(&k1), &[1u8; 32]);
    assert_eq!(tree.get(&k2), &[2u8; 32]);
    assert_eq!(tree.get(&k3), &[3u8; 32]);
}

#[test]
fn second_update_of_a_key_wins() {
    let mut tree = SparseMerkleTree::default();
    let key = key_with_last(4);
    tree.update(&key, [1u8; 32]);
    let root_after_first = tree.root;
    tree.update(&key, [2u8; 32]);
    assert_eq!(tree.get(&key), &[2u8; 32]);
    assert_ne!(tree.root, root_after_first);
    let mut fresh = SparseMerkleTree::default();
    fresh.update(&key, [2u8; 32]);
    assert_eq!(fresh.root, tree.root);
}

#[test]
fn proof_has_256_siblings_and_rebuilds_root() {
    let mut tree = SparseMerkleTree::default();
    let key = key_with_last(1);
    tree.update(&key, [7u8; 32]);
    tree.update(&key_with_last(3), [8u8; 32]);
    let proof = tree.gen_proof(&key);
    assert_eq!(proof.len(), 256);
    assert_eq!(replay(&key, &[7u8; 32], &proof), tree.root);
    assert_ne!(replay(&key, &[6u8; 32], &proof), tree.root);
}

#[test]
fn proof_of_empty_tree_is_default_siblings() {
    let tree = SparseMerkleTree::default();
    let key = [0u8; 32];
    let proof = tree.gen_proof(&key);
    assert_eq!(proof.len(), 256);
    assert_eq!(proof[255], [0u8; 32]);
    assert_eq!(proof[254], merge(&[0u8; 32], &[0u8; 32]));
    assert_eq!(replay(&key, &[0u8; 32], &proof), tree.root);
}

#[test]
fn setting_the_held_value_keeps_root() {
    let mut tree = SparseMerkleTree::default();
    let empty_root = tree.root;
    tree.update(&key_with_last(5), [0u8; 32]);
    assert_eq!(tree.root, empty_root);
    assert_eq!(tree.cache.len(), 256);
    tree.update(&key_with_last(6), [9u8; 32]);
    let root = tree.root;
    let len = tree.cache.len();
    tree.update(&key_with_last(6), [9u8; 32]);
    assert_eq!(tree.root, root);
    assert_eq!(tree.cache.len(), len);
}

#[test]
fn scenario_single_update_on_empty_tree() {
    let mut tree = SparseMerkleTree::default();
    let empty_root = tree.root;
    let key = key_with_last(1);
    tree.update(&key, [7u8; 32]);
    assert_eq!(tree.get(&key), &[7u8; 32]);
    assert_eq!(tree.get(&[0u8; 32]), &[0u8; 32]);
    assert_ne!(tree.root, empty_root);
    assert_eq!(tree.cache.len(), 512);
}

#[test]
fn old_roots_stay_resolvable() {
    let mut tree = SparseMerkleTree::default();
    let key = key_with_last(1);
    tree.update(&key, [7u8; 32]);
    let old_root = tree.root;
    tree.update(&key, [8u8; 32]);
    let old = SparseMerkleTree::new(old_root, tree.cache.clone());
    assert_eq!(old.get(&key), &[7u8; 32]);
    assert_eq!(tree.get(&key), &[8u8; 32]);
}

#[test]
fn merge_depends_on_order() {
    let a = [1u8; 32];
    let b = [2u8; 32];
    assert_ne!(merge(&a, &b), merge(&b, &a));
    assert_eq!(merge(&a, &b), merge(&a, &b));
    assert_ne!(merge(&a, &b), a);
}
