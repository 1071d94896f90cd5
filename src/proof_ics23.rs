//! Export of a compact proof to an ICS-23 existence proof, and the proof spec that
//! such a proof is checked against.

use crate::hash::{h256_to_vec, H256};
use crate::merkle_proof::{get_bit, height_bit, is_right, MerkleProof};
use crate::sha256::{sha256_of, Sha256Hasher};
use crate::tree::views;
use ics23::{ExistenceProof, InnerOp, InnerSpec, LeafOp, ProofSpec};
use vstd::prelude::*;

verus! {

/// Declares ics23's `ExistenceProof`, a plain message struct whose fields are all public,
/// so that contracts can speak of its fields.
#[verifier::external_type_specification]
pub struct ExExistenceProof(ExistenceProof);

/// Declares ics23's `LeafOp`, a plain message struct whose fields are all public,
/// so that contracts can speak of its fields.
#[verifier::external_type_specification]
pub struct ExLeafOp(LeafOp);

/// Declares ics23's `InnerOp`, a plain message struct whose fields are all public,
/// so that contracts can speak of its fields.
#[verifier::external_type_specification]
pub struct ExInnerOp(InnerOp);

/// Declares ics23's `ProofSpec`, a plain message struct whose fields are all public,
/// so that contracts can speak of its fields.
#[verifier::external_type_specification]
pub struct ExProofSpec(ProofSpec);

/// Declares ics23's `InnerSpec`, a plain message struct whose fields are all public,
/// so that contracts can speak of its fields.
#[verifier::external_type_specification]
pub struct ExInnerSpec(InnerSpec);

/// The wire value of `HashOp::NoHash`.
pub const HASH_OP_NO_HASH: i32 = 0;

/// The wire value of `HashOp::Sha256`.
pub const HASH_OP_SHA256: i32 = 1;

/// The wire value of `LengthOp::NoPrefix`.
pub const LENGTH_OP_NO_PREFIX: i32 = 0;

/// The highest height of a proof.
pub const MAX_HEIGHT: u8 = 255;

/// The leaf operation of an exported proof: SHA-256, no pre-hashing, no length
/// prefix, an empty prefix.
pub open spec fn is_export_leaf(op: LeafOp) -> bool {
    &&& op.hash == HASH_OP_SHA256
    &&& op.prehash_key == HASH_OP_NO_HASH
    &&& op.prehash_value == HASH_OP_NO_HASH
    &&& op.length == LENGTH_OP_NO_PREFIX
    &&& op.prefix@ == Seq::<u8>::empty()
}

/// The (prefix, suffix) of the inner operation for the sibling `sibling`: its SHA-256
/// digest as the prefix where the proven key takes the right branch, else as the suffix.
pub open spec fn inner_step(sibling: Seq<u8>, right: bool) -> (Seq<u8>, Seq<u8>) {
    if right {
        (sha256_of(sibling), Seq::empty())
    } else {
        (Seq::empty(), sha256_of(sibling))
    }
}

/// The (prefix, suffix) pairs of the inner operations exported from height `h` up, where
/// `sibs` are the siblings not yet consumed: one for each height up to the highest
/// whose bit is set in `heights`, while siblings remain.
pub open spec fn export_steps(heights: Seq<u8>, sibs: Seq<Seq<u8>>, key: Seq<u8>, h: int) -> Seq<
    (Seq<u8>, Seq<u8>),
>
    decreases 256 - h,
{
    if h > MAX_HEIGHT || sibs.len() == 0 {
        seq![]
    } else if height_bit(heights, h) {
        seq![inner_step(sibs[0], is_right(key, h))] + export_steps(
            heights,
            sibs.drop_first(),
            key,
            h + 1,
        )
    } else {
        export_steps(heights, sibs, key, h + 1)
    }
}

/// The inner operations `path` carry exactly the (prefix, suffix) pairs `steps`, each
/// hashed with SHA-256.
pub open spec fn path_matches(path: Seq<InnerOp>, steps: Seq<(Seq<u8>, Seq<u8>)>) -> bool {
    &&& path.len() == steps.len()
    &&& forall|j: int|
        0 <= j < path.len() ==> {
            &&& (#[trigger] path[j]).hash == HASH_OP_SHA256
            &&& path[j].prefix@ == steps[j].0
            &&& path[j].suffix@ == steps[j].1
        }
}

/// The leaf operation of an exported proof.
pub fn get_leaf_op() -> (r: LeafOp)
    ensures
        is_export_leaf(r),
{
    LeafOp {
        hash: HASH_OP_SHA256,
        prehash_key: HASH_OP_NO_HASH,
        prehash_value: HASH_OP_NO_HASH,
        length: LENGTH_OP_NO_PREFIX,
        prefix: Vec::new(),
    }
}

/// The inner operation for a sibling digest: the digest as the prefix where the proven
/// key takes the right branch, else as the suffix.
pub fn get_inner_op(sibling: &H256, is_right_node: bool) -> (r: InnerOp)
    ensures
        r.hash == HASH_OP_SHA256,
        is_right_node ==> r.prefix@ == sibling@ && r.suffix@ == Seq::<u8>::empty(),
        !is_right_node ==> r.prefix@ == Seq::<u8>::empty() && r.suffix@ == sibling@,
{
    let node = h256_to_vec(sibling);
    let (prefix, suffix) = if is_right_node {
        (node, Vec::new())
    } else {
        (Vec::new(), node)
    };
    InnerOp { hash: HASH_OP_SHA256, prefix, suffix }
}

/// Converts a compact proof of `key` holding `value` into an existence proof. From
/// height 0 up to `MAX_HEIGHT`, while siblings remain, each height whose bit is set
/// consumes the next sibling and adds the inner operation of its SHA-256 digest.
pub fn convert(merkle_proof: MerkleProof, key: &H256, value: &H256) -> (r: ExistenceProof)
    ensures
        r.key@ == key@,
        r.value@ == value@,
        r.leaf matches Some(op) && is_export_leaf(op),
        path_matches(
            r.path@,
            export_steps(merkle_proof.merge_heights@, views(merkle_proof.siblings@), key@, 0),
        ),
{
    let heights = merkle_proof.merge_heights;
    let siblings = merkle_proof.siblings;
    let ghost all = views(siblings@);
    let ghost target = export_steps(heights@, all, key@, 0);
    let mut path: Vec<InnerOp> = Vec::new();
    let mut next: usize = 0;
    let mut height: u8 = 0;
    proof {
        assert(path_matches(path@, seq![]));
        assert(all.skip(0) =~= all);
        assert(seq![] + target =~= target);
    }
    loop
        invariant_except_break
            next <= siblings@.len(),
            all == views(siblings@),
            target == export_steps(heights@, all, key@, 0),
            exists|steps: Seq<(Seq<u8>, Seq<u8>)>|
                path_matches(path@, steps) && steps + export_steps(
                    heights@,
                    all.skip(next as int),
                    key@,
                    height as int,
                ) == target,
        ensures
            path_matches(path@, target),
        decreases siblings@.len() - next, 256 - height,
    {
        let ghost rest = all.skip(next as int);
        let ghost steps = choose|steps: Seq<(Seq<u8>, Seq<u8>)>|
            path_matches(path@, steps) && steps + export_steps(heights@, rest, key@, height as int)
                == target;
        if next >= siblings.len() {
            assert(rest.len() == 0);
            assert(export_steps(heights@, rest, key@, height as int) == Seq::<
                (Seq<u8>, Seq<u8>),
            >::empty());
            assert(steps + seq![] =~= steps);
            break;
        }
        if get_bit(&heights, height) {
            let mut hasher = Sha256Hasher::new();
            hasher.write_h256(&siblings[next]);
            let digest = hasher.finish();
            let op = get_inner_op(&digest, get_bit(key, height));
            proof {
                assert(all[next as int] == siblings@[next as int]@);
                assert(hasher.written@ =~= all[next as int]);
                assert(rest[0] == all[next as int]);
                assert(rest.drop_first() =~= all.skip(next as int + 1));
            }
            path.push(op);
            next = next + 1;
            proof {
                let step = inner_step(rest[0], is_right(key@, height as int));
                assert(path_matches(path@, steps.push(step)));
                assert(steps + export_steps(heights@, rest, key@, height as int) =~= steps.push(
                    step,
                ) + export_steps(heights@, rest.drop_first(), key@, height as int + 1));
            }
        }
        if height == MAX_HEIGHT {
            proof {
                let s2 = choose|s2: Seq<(Seq<u8>, Seq<u8>)>|
                    path_matches(path@, s2) && s2 + export_steps(
                        heights@,
                        all.skip(next as int),
                        key@,
                        height as int + 1,
                    ) == target;
                assert(s2 + seq![] =~= s2);
            }
            break;
        }
        height = height + 1;
    }
    ExistenceProof { key: h256_to_vec(key), value: h256_to_vec(value), leaf: Some(get_leaf_op()), path }
}

/// The inner spec of exported proofs: children in the order (0, 1), 32 bytes each, a
/// prefix of 0 to 32 bytes, no empty-child marker, SHA-256.
pub open spec fn is_export_inner_spec(spec: InnerSpec) -> bool {
    &&& spec.child_order@ == seq![0i32, 1i32]
    &&& spec.child_size == 32
    &&& spec.min_prefix_length == 0
    &&& spec.max_prefix_length == 32
    &&& spec.empty_child@ == Seq::<u8>::empty()
    &&& spec.hash == HASH_OP_SHA256
}

/// The inner spec of exported proofs.
pub fn get_inner_spec() -> (r: InnerSpec)
    ensures
        is_export_inner_spec(r),
{
    let mut child_order: Vec<i32> = Vec::new();
    child_order.push(0);
    child_order.push(1);
    proof {
        assert(child_order@ =~= seq![0i32, 1i32]);
    }
    InnerSpec {
        child_order,
        child_size: 32,
        min_prefix_length: 0,
        max_prefix_length: 32,
        empty_child: Vec::new(),
        hash: HASH_OP_SHA256,
    }
}

/// The proof spec that exported proofs are checked against: the export leaf and inner
/// spec, depths 0 to `MAX_HEIGHT`, keys pre-hashed before comparison.
pub fn get_spec() -> (r: ProofSpec)
    ensures
        r.leaf_spec matches Some(op) && is_export_leaf(op),
        r.inner_spec matches Some(inner) && is_export_inner_spec(inner),
        r.max_depth == MAX_HEIGHT as i32,
        r.min_depth == 0,
        r.prehash_key_before_comparison,
{
    ProofSpec {
        leaf_spec: Some(get_leaf_op()),
        inner_spec: Some(get_inner_spec()),
        max_depth: MAX_HEIGHT as i32,
        min_depth: 0,
        prehash_key_before_comparison: true,
    }
}

} // verus!
