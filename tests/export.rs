use sparse_merkle_tree::merkle_proof::MerkleProof;
use sparse_merkle_tree::proof_ics23::{
    convert, get_inner_op, get_leaf_op, get_spec, HASH_OP_NO_HASH, HASH_OP_SHA256,
    LENGTH_OP_NO_PREFIX,
};
use sparse_merkle_tree::sha256::Sha256Hasher;
use sparse_merkle_tree::H256;

fn sha256_of(h: &H256) -> H256 {
    let mut hasher = Sha256Hasher::new();
    hasher.write_h256(h);
    hasher.finish()
}

#[test]
fn wire_values_match_ics23() {
    assert_eq!(HASH_OP_NO_HASH, ics23::HashOp::NoHash as i32);
    assert_eq!(HASH_OP_SHA256, ics23::HashOp::Sha256 as i32);
    assert_eq!(LENGTH_OP_NO_PREFIX, ics23::LengthOp::NoPrefix as i32);
}

#[test]
fn sha256_hasher_known_digest() {
    let mut hasher = Sha256Hasher::new();
    hasher.write_byte(b'a');
    hasher.write_byte(b'b');
    hasher.write_byte(b'c');
    let digest = hasher.finish();
    assert_eq!(
        digest,
        [
            0xba, 0x78, 0x16, 0xbf, 0x8f, 0x01, 0xcf, 0xea, 0x41, 0x41, 0x40, 0xde, 0x5d, 0xae,
            0x22, 0x23, 0xb0, 0x03, 0x61, 0xa3, 0x96, 0x17, 0x7a, 0x9c, 0xb4, 0x10, 0xff, 0x61,
            0xf2, 0x00, 0x15, 0xad
        ]
    );
}

#[test]
fn leaf_op_is_fixed() {
    let leaf = get_leaf_op();
    assert_eq!(leaf.hash, 1);
    assert_eq!(leaf.prehash_key, 0);
    assert_eq!(leaf.prehash_value, 0);
    assert_eq!(leaf.length, 0);
    assert!(leaf.prefix.is_empty());
}

#[test]
fn inner_op_places_sibling_by_side() {
    let sibling = [3u8; 32];
    let right = get_inner_op(&sibling, true);
    assert_eq!(right.prefix, sibling.to_vec());
    assert!(right.suffix.is_empty());
    let left = get_inner_op(&sibling, false);
    assert!(left.prefix.is_empty());
    assert_eq!(left.suffix, sibling.to_vec());
    assert_eq!(left.hash, 1);
}

#[test]
fn spec_is_fixed() {
    let spec = get_spec();
    assert_eq!(spec.leaf_spec, Some(get_leaf_op()));
    let inner = spec.inner_spec.unwrap();
    assert_eq!(inner.child_order, vec![0, 1]);
    assert_eq!(inner.child_size, 32);
    assert_eq!(inner.min_prefix_length, 0);
    assert_eq!(inner.max_prefix_length, 32);
    assert!(inner.empty_child.is_empty());
    assert_eq!(inner.hash, 1);
    assert_eq!(spec.max_depth, 255);
    assert_eq!(spec.min_depth, 0);
    assert!(spec.prehash_key_before_comparison);
}

#[test]
fn convert_follows_bitmap_and_key_side() {
    let mut heights = [0u8; 32];
    heights[0] = 0b101;
    let a = [0xaau8; 32];
    let b = [0xbbu8; 32];
    let mut key = [0u8; 32];
    key[0] = 1;
    let value = [7u8; 32];
    let proof = convert(MerkleProof::new(heights, vec![a, b]), &key, &value);
    assert_eq!(proof.key, key.to_vec());
    assert_eq!(proof.value, value.to_vec());
    assert_eq!(proof.leaf, Some(get_leaf_op()));
    assert_eq!(proof.path.len(), 2);
    assert_eq!(proof.path[0].prefix, sha256_of(&a).to_vec());
    assert!(proof.path[0].suffix.is_empty());
    assert!(proof.path[1].prefix.is_empty());
    assert_eq!(proof.path[1].suffix, sha256_of(&b).to_vec());
    assert_ne!(sha256_of(&a), a);
}

#[test]
fn convert_stops_when_siblings_run_out() {
    let heights = [0xffu8; 32];
    let proof = convert(MerkleProof::new(heights, vec![[1u8; 32]]), &[0u8; 32], &[2u8; 32]);
    assert_eq!(proof.path.len(), 1);
    assert_eq!(proof.path[0].suffix, sha256_of(&[1u8; 32]).to_vec());
}

#[test]
fn convert_stops_after_highest_height() {
    let mut heights = [0u8; 32];
    heights[31] = 0x80;
    let siblings = vec![[1u8; 32], [2u8; 32]];
    let proof = convert(MerkleProof::new(heights, siblings), &[0u8; 32], &[2u8; 32]);
    assert_eq!(proof.path.len(), 1);
    assert_eq!(proof.path[0].suffix, sha256_of(&[1u8; 32]).to_vec());
    let empty = convert(MerkleProof::new([0u8; 32], vec![[1u8; 32]]), &[0u8; 32], &[2u8; 32]);
    assert!(empty.path.is_empty());
}

#[test]
fn convert_of_empty_proof_has_no_path() {
    let proof = convert(MerkleProof::new([0xffu8; 32], Vec::new()), &[4u8; 32], &[5u8; 32]);
    assert!(proof.path.is_empty());
    assert_eq!(proof.key, vec![4u8; 32]);
}
