//! Laws of the tree engine, stated over the models that the operations' contracts use.

use crate::hash::merge_spec;
use crate::path::goes_left;
use crate::tree::{
    default_node, default_nodes, zero_digest,
    child_of, climb, is_bound, leaf_at, pair_at, resolves, sibling_of, siblings_from,
    written, NodeMap, SparseMerkleTree,
};
use vstd::prelude::*;

verus! {

proof fn lemma_siblings_len(nodes: NodeMap, node: Seq<u8>, key: Seq<u8>, i: int)
    requires
        0 <= i <= 256,
    ensures
        siblings_from(nodes, node, key, i).len() == 256 - i,
    decreases 256 - i,
{
    if i < 256 {
        lemma_siblings_len(nodes, child_of(nodes[node], key, i), key, i + 1);
    }
}

proof fn lemma_replay(nodes: NodeMap, node: Seq<u8>, key: Seq<u8>, i: int, full: Seq<Seq<u8>>)
    requires
        0 <= i <= 256,
        full.len() == 256,
        is_bound(nodes),
        resolves(nodes, node, key, i),
        full.skip(i) == siblings_from(nodes, node, key, i),
    ensures
        climb(key, leaf_at(nodes, node, key, i), full, i) == node,
    decreases 256 - i,
{
    if i < 256 {
        let pair = nodes[node];
        let child = child_of(pair, key, i);
        let rest = siblings_from(nodes, child, key, i + 1);
        assert(full.skip(i)[0] == full[i]);
        assert(full.skip(i + 1) =~= full.skip(i).drop_first());
        assert(siblings_from(nodes, node, key, i).drop_first() =~= rest);
        lemma_replay(nodes, child, key, i + 1, full);
        assert(node == merge_spec(pair.0, pair.1));
    }
}

/// A proof has 256 siblings, and merging upward from the value that the key holds,
/// with the siblings in the proof's order taken from the bottom level up, gives the root.
pub proof fn lemma_proof_rebuilds_root(tree: SparseMerkleTree, key: Seq<u8>)
    requires
        tree.bound(),
        tree.resolves_key(key),
    ensures
        tree.proof_of(key).len() == 256,
        climb(key, tree.value_at(key), tree.proof_of(key), 0) == tree.root@,
{
    lemma_siblings_len(tree.nodes(), tree.root@, key, 0);
    assert(tree.proof_of(key).skip(0) =~= tree.proof_of(key));
    lemma_replay(tree.nodes(), tree.root@, key, 0, tree.proof_of(key));
}

/// Setting a key to the value it already holds gives the root that the tree had.
pub proof fn lemma_update_same_value_keeps_root(tree: SparseMerkleTree, key: Seq<u8>, value: Seq<u8>)
    requires
        tree.bound(),
        tree.resolves_key(key),
        value == tree.value_at(key),
    ensures
        climb(key, value, tree.proof_of(key), 0) == tree.root@,
{
    lemma_proof_rebuilds_root(tree, key);
}

/// No digest rebuilt along an update's path clashes: where a rebuilt digest is already
/// a key of `nodes` it has the same children there, and two levels that rebuild the same
/// digest rebuild it from the same children. A clash would be a collision of the merge.
pub open spec fn fresh_path(nodes: NodeMap, key: Seq<u8>, leaf: Seq<u8>, sibs: Seq<Seq<u8>>) -> bool {
    &&& forall|i: int|
        0 <= i < 256 && nodes.contains_key(#[trigger] climb(key, leaf, sibs, i)) ==> nodes[climb(
            key,
            leaf,
            sibs,
            i,
        )] == pair_at(key, leaf, sibs, i)
    &&& forall|i: int, j: int|
        0 <= i < 256 && 0 <= j < 256 && #[trigger] climb(key, leaf, sibs, i) == #[trigger] climb(
            key,
            leaf,
            sibs,
            j,
        ) ==> pair_at(key, leaf, sibs, i) == pair_at(key, leaf, sibs, j)
}

/// `after` is what `update(key, value)` makes of `before`.
pub open spec fn updated(
    before: SparseMerkleTree,
    after: SparseMerkleTree,
    key: Seq<u8>,
    value: Seq<u8>,
) -> bool {
    &&& after.root@ == climb(key, value, before.proof_of(key), 0)
    &&& after.nodes() == written(before.nodes(), key, value, before.proof_of(key), 0)
}

proof fn lemma_written(nodes: NodeMap, key: Seq<u8>, leaf: Seq<u8>, sibs: Seq<Seq<u8>>, k: int)
    requires
        0 <= k <= 256,
        fresh_path(nodes, key, leaf, sibs),
    ensures
        forall|p: Seq<u8>| #[trigger]
            nodes.contains_key(p) ==> written(nodes, key, leaf, sibs, k).contains_key(p)
                && written(nodes, key, leaf, sibs, k)[p] == nodes[p],
        forall|j: int|
            k <= j < 256 ==> written(nodes, key, leaf, sibs, k).contains_key(
                #[trigger] climb(key, leaf, sibs, j),
            ) && written(nodes, key, leaf, sibs, k)[climb(key, leaf, sibs, j)] == pair_at(
                key,
                leaf,
                sibs,
                j,
            ),
        forall|p: Seq<u8>| #[trigger]
            written(nodes, key, leaf, sibs, k).contains_key(p) ==> nodes.contains_key(p) || exists|
                j: int,
            |
                k <= j < 256 && #[trigger] climb(key, leaf, sibs, j) == p,
    decreases 256 - k,
{
    if k < 256 {
        lemma_written(nodes, key, leaf, sibs, k + 1);
        let m = written(nodes, key, leaf, sibs, k + 1);
        let p = climb(key, leaf, sibs, k);
        if m.contains_key(p) {
            if !nodes.contains_key(p) {
                let j = choose|j: int| k + 1 <= j < 256 && #[trigger] climb(key, leaf, sibs, j) == p;
                assert(climb(key, leaf, sibs, j) == climb(key, leaf, sibs, k));
            }
        } else {
            assert forall|p2: Seq<u8>| #[trigger]
                written(nodes, key, leaf, sibs, k).contains_key(p2) implies nodes.contains_key(p2)
                || exists|j: int| k <= j < 256 && #[trigger] climb(key, leaf, sibs, j) == p2 by {
                if p2 == p {
                    assert(climb(key, leaf, sibs, k) == p2);
                }
            }
        }
    }
}

proof fn lemma_new_path(m: NodeMap, key: Seq<u8>, leaf: Seq<u8>, sibs: Seq<Seq<u8>>, i: int)
    requires
        0 <= i <= 256,
        forall|j: int|
            i <= j < 256 ==> m.contains_key(#[trigger] climb(key, leaf, sibs, j)) && m[climb(
                key,
                leaf,
                sibs,
                j,
            )] == pair_at(key, leaf, sibs, j),
    ensures
        resolves(m, climb(key, leaf, sibs, i), key, i),
        leaf_at(m, climb(key, leaf, sibs, i), key, i) == leaf,
    decreases 256 - i,
{
    if i < 256 {
        assert(m.contains_key(climb(key, leaf, sibs, i)));
        lemma_new_path(m, key, leaf, sibs, i + 1);
    }
}

proof fn lemma_extension(nodes: NodeMap, m: NodeMap, node: Seq<u8>, key: Seq<u8>, i: int)
    requires
        forall|p: Seq<u8>| #[trigger] nodes.contains_key(p) ==> m.contains_key(p) && m[p] == nodes[p],
        resolves(nodes, node, key, i),
    ensures
        resolves(m, node, key, i),
        leaf_at(m, node, key, i) == leaf_at(nodes, node, key, i),
    decreases 256 - i,
{
    if i < 256 {
        assert(nodes.contains_key(node));
        lemma_extension(nodes, m, child_of(nodes[node], key, i), key, i + 1);
    }
}

/// After `update(key, value)` the key holds `value`.
pub proof fn lemma_update_then_get(
    before: SparseMerkleTree,
    after: SparseMerkleTree,
    key: Seq<u8>,
    value: Seq<u8>,
)
    requires
        before.resolves_key(key),
        updated(before, after, key, value),
        fresh_path(before.nodes(), key, value, before.proof_of(key)),
    ensures
        after.resolves_key(key),
        after.value_at(key) == value,
{
    lemma_written(before.nodes(), key, value, before.proof_of(key), 0);
    lemma_new_path(after.nodes(), key, value, before.proof_of(key), 0);
}

/// Of two updates of one key, only the second value is seen.
pub proof fn lemma_second_update_wins(
    first: SparseMerkleTree,
    second: SparseMerkleTree,
    third: SparseMerkleTree,
    key: Seq<u8>,
    v1: Seq<u8>,
    v2: Seq<u8>,
)
    requires
        first.resolves_key(key),
        updated(first, second, key, v1),
        fresh_path(first.nodes(), key, v1, first.proof_of(key)),
        updated(second, third, key, v2),
        fresh_path(second.nodes(), key, v2, second.proof_of(key)),
    ensures
        third.value_at(key) == v2,
{
    lemma_update_then_get(first, second, key, v1);
    lemma_update_then_get(second, third, key, v2);
}

proof fn lemma_bit_differs(k: Seq<u8>, k2: Seq<u8>, b: int, j: int)
    requires
        0 <= b < 32,
        0 <= j < 8,
        k.len() == 32,
        k2.len() == 32,
        ((k[b] >> ((7 - j) as u8)) & 1u8 == 1u8) != ((k2[b] >> ((7 - j) as u8)) & 1u8 == 1u8),
    ensures
        goes_left(k, 8 * b + j) != goes_left(k2, 8 * b + j),
{
    assert((8 * b + j) / 8 == b);
    assert((8 * b + j) % 8 == j);
}

proof fn lemma_differing_level(k: Seq<u8>, k2: Seq<u8>)
    requires
        k.len() == 32,
        k2.len() == 32,
        k != k2,
    ensures
        exists|l: int| 0 <= l < 256 && goes_left(k, l) != goes_left(k2, l),
{
    if forall|b: int| 0 <= b < 32 ==> k[b] == k2[b] {
        assert(k =~= k2);
    }
    let b = choose|b: int| 0 <= b < 32 && k[b] != k2[b];
    let x = k[b];
    let y = k2[b];
    assert(x != y ==> (((x >> 7u8) & 1u8 == 1u8) != ((y >> 7u8) & 1u8 == 1u8)) || (((x >> 6u8)
        & 1u8 == 1u8) != ((y >> 6u8) & 1u8 == 1u8)) || (((x >> 5u8) & 1u8 == 1u8) != ((y >> 5u8)
        & 1u8 == 1u8)) || (((x >> 4u8) & 1u8 == 1u8) != ((y >> 4u8) & 1u8 == 1u8)) || (((x >> 3u8)
        & 1u8 == 1u8) != ((y >> 3u8) & 1u8 == 1u8)) || (((x >> 2u8) & 1u8 == 1u8) != ((y >> 2u8)
        & 1u8 == 1u8)) || (((x >> 1u8) & 1u8 == 1u8) != ((y >> 1u8) & 1u8 == 1u8)) || (((x >> 0u8)
        & 1u8 == 1u8) != ((y >> 0u8) & 1u8 == 1u8))) by (bit_vector);
    if ((x >> 7u8) & 1u8 == 1u8) != ((y >> 7u8) & 1u8 == 1u8) {
        lemma_bit_differs(k, k2, b, 0);
    } else if ((x >> 6u8) & 1u8 == 1u8) != ((y >> 6u8) & 1u8 == 1u8) {
        lemma_bit_differs(k, k2, b, 1);
    } else if ((x >> 5u8) & 1u8 == 1u8) != ((y >> 5u8) & 1u8 == 1u8) {
        lemma_bit_differs(k, k2, b, 2);
    } else if ((x >> 4u8) & 1u8 == 1u8) != ((y >> 4u8) & 1u8 == 1u8) {
        lemma_bit_differs(k, k2, b, 3);
    } else if ((x >> 3u8) & 1u8 == 1u8) != ((y >> 3u8) & 1u8 == 1u8) {
        lemma_bit_differs(k, k2, b, 4);
    } else if ((x >> 2u8) & 1u8 == 1u8) != ((y >> 2u8) & 1u8 == 1u8) {
        lemma_bit_differs(k, k2, b, 5);
    } else if ((x >> 1u8) & 1u8 == 1u8) != ((y >> 1u8) & 1u8 == 1u8) {
        lemma_bit_differs(k, k2, b, 6);
    } else {
        lemma_bit_differs(k, k2, b, 7);
    }
}

proof fn lemma_other_path(
    nodes: NodeMap,
    m: NodeMap,
    key: Seq<u8>,
    leaf: Seq<u8>,
    sibs: Seq<Seq<u8>>,
    other: Seq<u8>,
    i: int,
    old_node: Seq<u8>,
)
    requires
        0 <= i <= 256,
        sibs.len() == 256,
        forall|p: Seq<u8>| #[trigger] nodes.contains_key(p) ==> m.contains_key(p) && m[p] == nodes[p],
        forall|j: int|
            i <= j < 256 ==> m.contains_key(#[trigger] climb(key, leaf, sibs, j)) && m[climb(
                key,
                leaf,
                sibs,
                j,
            )] == pair_at(key, leaf, sibs, j),
        sibs.skip(i) == siblings_from(nodes, old_node, key, i),
        resolves(nodes, old_node, other, i),
        exists|l: int| i <= l < 256 && goes_left(key, l) != goes_left(other, l),
    ensures
        resolves(m, climb(key, leaf, sibs, i), other, i),
        leaf_at(m, climb(key, leaf, sibs, i), other, i) == leaf_at(nodes, old_node, other, i),
    decreases 256 - i,
{
    let l = choose|l: int| i <= l < 256 && goes_left(key, l) != goes_left(other, l);
    let pair = nodes[old_node];
    assert(sibs.skip(i)[0] == sibs[i]);
    assert(sibs[i] == sibling_of(pair, key, i));
    assert(m.contains_key(climb(key, leaf, sibs, i)));
    if goes_left(key, i) == goes_left(other, i) {
        assert(sibs.skip(i + 1) =~= sibs.skip(i).drop_first());
        assert(siblings_from(nodes, old_node, key, i).drop_first() =~= siblings_from(
            nodes,
            child_of(pair, key, i),
            key,
            i + 1,
        ));
        assert(l != i);
        lemma_other_path(nodes, m, key, leaf, sibs, other, i + 1, child_of(pair, key, i));
    } else {
        lemma_extension(nodes, m, child_of(pair, other, i), other, i + 1);
    }
}

/// `update(key, value)` leaves the value of every other key as it was.
pub proof fn lemma_update_keeps_other_keys(
    before: SparseMerkleTree,
    after: SparseMerkleTree,
    key: Seq<u8>,
    value: Seq<u8>,
    other: Seq<u8>,
)
    requires
        key.len() == 32,
        other.len() == 32,
        key != other,
        before.resolves_key(key),
        before.resolves_key(other),
        updated(before, after, key, value),
        fresh_path(before.nodes(), key, value, before.proof_of(key)),
    ensures
        after.resolves_key(other),
        after.value_at(other) == before.value_at(other),
{
    let sibs = before.proof_of(key);
    lemma_written(before.nodes(), key, value, sibs, 0);
    lemma_siblings_len(before.nodes(), before.root@, key, 0);
    lemma_differing_level(key, other);
    assert(sibs.skip(0) =~= sibs);
    lemma_other_path(before.nodes(), after.nodes(), key, value, sibs, other, 0, before.root@);
}

/// Two updates of distinct keys do not disturb each other: both values are seen.
pub proof fn lemma_distinct_updates_independent(
    t0: SparseMerkleTree,
    t1: SparseMerkleTree,
    t2: SparseMerkleTree,
    k1: Seq<u8>,
    v1: Seq<u8>,
    k2: Seq<u8>,
    v2: Seq<u8>,
)
    requires
        k1.len() == 32,
        k2.len() == 32,
        k1 != k2,
        t0.resolves_key(k1),
        t0.resolves_key(k2),
        updated(t0, t1, k1, v1),
        fresh_path(t0.nodes(), k1, v1, t0.proof_of(k1)),
        updated(t1, t2, k2, v2),
        fresh_path(t1.nodes(), k2, v2, t1.proof_of(k2)),
    ensures
        t2.value_at(k1) == v1,
        t2.value_at(k2) == v2,
{
    lemma_update_then_get(t0, t1, k1, v1);
    lemma_update_keeps_other_keys(t0, t1, k1, v1, k2);
    lemma_update_then_get(t1, t2, k2, v2);
    lemma_update_keeps_other_keys(t1, t2, k2, v2, k1);
}

/// The all-default subtree digests of heights 1 to 256 are pairwise distinct: no merge
/// collision among them.
pub open spec fn default_chain_distinct() -> bool {
    forall|i: nat, j: nat|
        1 <= i <= 256 && 1 <= j <= 256 && #[trigger] default_node(i) == #[trigger] default_node(j)
            ==> i == j
}

proof fn lemma_default_entries(n: nat)
    requires
        n <= 256,
        default_chain_distinct(),
    ensures
        forall|k: nat|
            1 <= k <= n ==> default_nodes(n).contains_key(#[trigger] default_node(k))
                && default_nodes(n)[default_node(k)] == (
                default_node((k - 1) as nat),
                default_node((k - 1) as nat),
            ),
        forall|p: Seq<u8>| #[trigger]
            default_nodes(n).contains_key(p) ==> exists|k: nat|
                1 <= k <= n && #[trigger] default_node(k) == p,
    decreases n,
{
    if n > 0 {
        lemma_default_entries((n - 1) as nat);
        let m = default_nodes((n - 1) as nat);
        if m.contains_key(default_node(n)) {
            let k = choose|k: nat| 1 <= k <= n - 1 && #[trigger] default_node(k) == default_node(n);
            assert(false);
        }
        assert forall|p: Seq<u8>| #[trigger] default_nodes(n).contains_key(p) implies exists|k: nat|
            1 <= k <= n && #[trigger] default_node(k) == p by {
            if p == default_node(n) {
                assert(default_node(n) == p);
            }
        }
    }
}

proof fn lemma_default_descent(m: NodeMap, key: Seq<u8>, i: int)
    requires
        0 <= i <= 256,
        forall|k: nat|
            1 <= k <= 256 ==> m.contains_key(#[trigger] default_node(k)) && m[default_node(k)] == (
                default_node((k - 1) as nat),
                default_node((k - 1) as nat),
            ),
    ensures
        resolves(m, default_node((256 - i) as nat), key, i),
        leaf_at(m, default_node((256 - i) as nat), key, i) == zero_digest(),
    decreases 256 - i,
{
    if i < 256 {
        assert(m.contains_key(default_node((256 - i) as nat)));
        assert((256 - i - 1) as nat == (256 - (i + 1)) as nat);
        lemma_default_descent(m, key, i + 1);
    }
}

/// In the empty tree every key resolves and holds the zero value, provided that the
/// default subtree digests do not collide.
pub proof fn lemma_empty_tree_holds_zero(tree: SparseMerkleTree, key: Seq<u8>)
    requires
        tree.root@ == default_node(256),
        tree.nodes() == default_nodes(256),
        default_chain_distinct(),
    ensures
        tree.resolves_key(key),
        tree.value_at(key) == zero_digest(),
{
    lemma_default_entries(256);
    lemma_default_descent(tree.nodes(), key, 0);
}

} // verus!
