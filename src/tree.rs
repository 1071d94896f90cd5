//! The tree engine: a root digest and an append-only cache from each parent
//! digest to its two children.

use crate::hash::{h256_eq, merge, merge_spec, H256};
use crate::path::{branch_at, goes_left, Branch, PathIter};
use vstd::prelude::*;

verus! {

/// The node cache: each entry is a parent digest and its (left, right) children.
pub type TreeCache = Vec<(H256, (H256, H256))>;

/// What the cache stands for: a map from a parent digest to its two children.
pub type NodeMap = Map<Seq<u8>, (Seq<u8>, Seq<u8>)>;

/// The value of every key that was never set: 32 zero bytes.
pub open spec fn zero_digest() -> Seq<u8> {
    Seq::new(32, |i: int| 0u8)
}

/// Whether some entry of `c` has the parent digest `k`.
pub open spec fn has_key(c: Seq<(H256, (H256, H256))>, k: Seq<u8>) -> bool {
    exists|i: int| 0 <= i < c.len() && (#[trigger] c[i]).0@ == k
}

/// No two entries of `c` have the same parent digest.
pub open spec fn keys_unique(c: Seq<(H256, (H256, H256))>) -> bool {
    forall|i: int, j: int|
        0 <= i < c.len() && 0 <= j < c.len() && (#[trigger] c[i]).0@ == (#[trigger] c[j]).0@
            ==> i == j
}

/// The map that the entries of `c` describe.
pub open spec fn nodes_of(c: Seq<(H256, (H256, H256))>) -> NodeMap {
    Map::new(
        |k: Seq<u8>| has_key(c, k),
        |k: Seq<u8>|
            {
                let i = choose|i: int| 0 <= i < c.len() && (#[trigger] c[i]).0@ == k;
                (c[i].1.0@, c[i].1.1@)
            },
    )
}

/// Every entry's parent is the merge of its two children.
pub open spec fn is_bound(nodes: NodeMap) -> bool {
    forall|p: Seq<u8>| #[trigger]
        nodes.contains_key(p) ==> p == merge_spec(nodes[p].0, nodes[p].1)
}

/// The child that the path of `key` takes below a node with children `pair`, at level `i`.
pub open spec fn child_of(pair: (Seq<u8>, Seq<u8>), key: Seq<u8>, i: int) -> Seq<u8> {
    if goes_left(key, i) {
        pair.0
    } else {
        pair.1
    }
}

/// The child that the path of `key` does not take below `pair`, at level `i`.
pub open spec fn sibling_of(pair: (Seq<u8>, Seq<u8>), key: Seq<u8>, i: int) -> Seq<u8> {
    if goes_left(key, i) {
        pair.1
    } else {
        pair.0
    }
}

/// Every node on the path of `key` from `node` at level `i` down to the leaves is in `nodes`.
pub open spec fn resolves(nodes: NodeMap, node: Seq<u8>, key: Seq<u8>, i: int) -> bool
    decreases 256 - i,
{
    if i >= 256 {
        true
    } else {
        nodes.contains_key(node) && resolves(nodes, child_of(nodes[node], key, i), key, i + 1)
    }
}

/// The value reached from `node` at level `i` by following the path of `key`.
pub open spec fn leaf_at(nodes: NodeMap, node: Seq<u8>, key: Seq<u8>, i: int) -> Seq<u8>
    decreases 256 - i,
{
    if i >= 256 {
        node
    } else {
        leaf_at(nodes, child_of(nodes[node], key, i), key, i + 1)
    }
}

/// The siblings met from `node` at level `i` down the path of `key`, top level first.
pub open spec fn siblings_from(nodes: NodeMap, node: Seq<u8>, key: Seq<u8>, i: int) -> Seq<
    Seq<u8>,
>
    decreases 256 - i,
{
    if i >= 256 {
        seq![]
    } else {
        seq![sibling_of(nodes[node], key, i)] + siblings_from(
            nodes,
            child_of(nodes[node], key, i),
            key,
            i + 1,
        )
    }
}

/// The digest at level `i` on the path of `key`, rebuilt from the value `leaf` at the
/// bottom and the siblings `sibs` (`sibs[j]` is the sibling at level `j`).
pub open spec fn climb(key: Seq<u8>, leaf: Seq<u8>, sibs: Seq<Seq<u8>>, i: int) -> Seq<u8>
    decreases 256 - i,
{
    if i >= 256 {
        leaf
    } else {
        let below = climb(key, leaf, sibs, i + 1);
        if goes_left(key, i) {
            merge_spec(below, sibs[i])
        } else {
            merge_spec(sibs[i], below)
        }
    }
}

/// The children of the digest at level `i` in `climb`.
pub open spec fn pair_at(key: Seq<u8>, leaf: Seq<u8>, sibs: Seq<Seq<u8>>, i: int) -> (
    Seq<u8>,
    Seq<u8>,
) {
    let below = climb(key, leaf, sibs, i + 1);
    if goes_left(key, i) {
        (below, sibs[i])
    } else {
        (sibs[i], below)
    }
}

/// `nodes` with the entries of levels 255 down to `i` of `climb` added, each only where
/// its parent digest is not already a key.
pub open spec fn written(nodes: NodeMap, key: Seq<u8>, leaf: Seq<u8>, sibs: Seq<Seq<u8>>, i: int) -> NodeMap
    decreases 256 - i,
{
    if i >= 256 {
        nodes
    } else {
        let m = written(nodes, key, leaf, sibs, i + 1);
        let p = climb(key, leaf, sibs, i);
        if m.contains_key(p) {
            m
        } else {
            m.insert(p, pair_at(key, leaf, sibs, i))
        }
    }
}

/// The digest of an all-default subtree of height `n`.
pub open spec fn default_node(n: nat) -> Seq<u8>
    decreases n,
{
    if n == 0 {
        zero_digest()
    } else {
        merge_spec(default_node((n - 1) as nat), default_node((n - 1) as nat))
    }
}

/// The entries of the all-default subtrees of heights 1 to `n`, each added only where its
/// parent digest is not already a key.
pub open spec fn default_nodes(n: nat) -> NodeMap
    decreases n,
{
    if n == 0 {
        Map::empty()
    } else {
        let m = default_nodes((n - 1) as nat);
        let p = default_node(n);
        if m.contains_key(p) {
            m
        } else {
            m.insert(p, (default_node((n - 1) as nat), default_node((n - 1) as nat)))
        }
    }
}

/// The digests of a sequence of digests.
pub open spec fn views(s: Seq<H256>) -> Seq<Seq<u8>> {
    s.map_values(|h: H256| h@)
}

proof fn lemma_nodes_at(c: Seq<(H256, (H256, H256))>, i: int)
    requires
        keys_unique(c),
        0 <= i < c.len(),
    ensures
        nodes_of(c).contains_key(c[i].0@),
        nodes_of(c)[c[i].0@] == (c[i].1.0@, c[i].1.1@),
{
    assert(has_key(c, c[i].0@));
}

proof fn lemma_nodes_push(c: Seq<(H256, (H256, H256))>, e: (H256, (H256, H256)))
    requires
        keys_unique(c),
        !has_key(c, e.0@),
    ensures
        keys_unique(c.push(e)),
        nodes_of(c.push(e)) == nodes_of(c).insert(e.0@, (e.1.0@, e.1.1@)),
{
    let d = c.push(e);
    assert forall|i: int, j: int|
        0 <= i < d.len() && 0 <= j < d.len() && (#[trigger] d[i]).0@ == (#[trigger] d[j]).0@
        implies i == j by {
        if i < c.len() && j < c.len() {
            assert(c[i] == d[i] && c[j] == d[j]);
        } else if i < c.len() {
            assert(c[i] == d[i]);
        } else if j < c.len() {
            assert(c[j] == d[j]);
        }
    }
    let m = nodes_of(c).insert(e.0@, (e.1.0@, e.1.1@));
    assert forall|k: Seq<u8>| #[trigger] nodes_of(d).contains_key(k) == m.contains_key(k) by {
        if has_key(c, k) {
            let i = choose|i: int| 0 <= i < c.len() && (#[trigger] c[i]).0@ == k;
            assert(d[i] == c[i]);
        }
        if k == e.0@ {
            assert(d[c.len() as int] == e);
        }
        if has_key(d, k) && k != e.0@ {
            let i = choose|i: int| 0 <= i < d.len() && (#[trigger] d[i]).0@ == k;
            assert(c[i] == d[i]);
        }
    }
    assert forall|k: Seq<u8>| #[trigger] nodes_of(d).contains_key(k) implies nodes_of(d)[k]
        == m[k] by {
        if k == e.0@ {
            lemma_nodes_at(d, c.len() as int);
        } else {
            let i = choose|i: int| 0 <= i < c.len() && (#[trigger] c[i]).0@ == k;
            assert(d[i] == c[i]);
            lemma_nodes_at(d, i);
            lemma_nodes_at(c, i);
        }
    }
    assert(nodes_of(d) =~= m);
}

proof fn lemma_written_bound(nodes: NodeMap, key: Seq<u8>, leaf: Seq<u8>, sibs: Seq<Seq<u8>>, i: int)
    requires
        is_bound(nodes),
    ensures
        is_bound(written(nodes, key, leaf, sibs, i)),
    decreases 256 - i,
{
    if i < 256 {
        lemma_written_bound(nodes, key, leaf, sibs, i + 1);
    }
}

proof fn lemma_default_bound(n: nat)
    ensures
        is_bound(default_nodes(n)),
    decreases n,
{
    if n > 0 {
        lemma_default_bound((n - 1) as nat);
    }
}

/// The index of the entry of `cache` whose parent digest is `node`, if there is one.
fn find_node(cache: &TreeCache, node: &H256) -> (r: Option<usize>)
    ensures
        match r {
            Some(i) => i < cache@.len() && cache@[i as int].0@ == node@,
            None => !has_key(cache@, node@),
        },
{
    let mut i: usize = 0;
    while i < cache.len()
        invariant
            i <= cache@.len(),
            forall|j: int| 0 <= j < i ==> (#[trigger] cache@[j]).0@ != node@,
        decreases cache@.len() - i,
    {
        if h256_eq(&cache[i].0, node) {
            return Some(i);
        }
        i = i + 1;
    }
    None
}

/// The index of the entry of `cache` whose parent digest is `node`.
fn index_of(cache: &TreeCache, node: &H256) -> (r: usize)
    requires
        has_key(cache@, node@),
    ensures
        r < cache@.len(),
        cache@[r as int].0@ == node@,
{
    match find_node(cache, node) {
        Some(i) => i,
        None => {
            assert(false);
            0
        },
    }
}

/// Adds the entry `parent` -> `pair` unless `parent` is already a key.
fn insert_absent(cache: &mut TreeCache, parent: H256, pair: (H256, H256))
    requires
        keys_unique(old(cache)@),
    ensures
        keys_unique(final(cache)@),
        nodes_of(final(cache)@) == if nodes_of(old(cache)@).contains_key(parent@) {
            nodes_of(old(cache)@)
        } else {
            nodes_of(old(cache)@).insert(parent@, (pair.0@, pair.1@))
        },
{
    if find_node(cache, &parent).is_none() {
        proof {
            lemma_nodes_push(cache@, (parent, pair));
        }
        cache.push((parent, pair));
    }
}

/// Builds the table of all-default subtrees: the empty tree's root, and the cache that
/// resolves every key of the empty tree.
pub fn compute_default_tree() -> (r: (H256, TreeCache))
    ensures
        r.0@ == default_node(256),
        keys_unique(r.1@),
        nodes_of(r.1@) == default_nodes(256),
{
    let mut hash: H256 = [0u8; 32];
    let mut cache: TreeCache = Vec::new();
    proof {
        assert(hash@ =~= zero_digest());
        assert(nodes_of(cache@) =~= default_nodes(0));
    }
    let mut n: usize = 0;
    while n < 256
        invariant
            n <= 256,
            hash@ == default_node(n as nat),
            keys_unique(cache@),
            nodes_of(cache@) == default_nodes(n as nat),
        decreases 256 - n,
    {
        let parent = merge(&hash, &hash);
        insert_absent(&mut cache, parent, (hash, hash));
        hash = parent;
        n = n + 1;
    }
    (hash, cache)
}

/// A sparse Merkle tree: a root digest and the cache that resolves it.
pub struct SparseMerkleTree {
    pub cache: TreeCache,
    pub root: H256,
}

impl Default for SparseMerkleTree {
    /// The empty tree: every key holds the zero value.
    fn default() -> (r: Self)
        ensures
            r.wf(),
            r.bound(),
            r.root@ == default_node(256),
            r.nodes() == default_nodes(256),
    {
        let (root, cache) = compute_default_tree();
        proof {
            lemma_default_bound(256);
        }
        SparseMerkleTree::new(root, cache)
    }
}

impl SparseMerkleTree {
    /// The cache holds at most one entry for each parent digest.
    pub open spec fn wf(&self) -> bool {
        keys_unique(self.cache@)
    }

    /// The map from parent digests to children that the cache holds.
    pub open spec fn nodes(&self) -> NodeMap {
        nodes_of(self.cache@)
    }

    /// Every node on the path of `key` from the root is in the cache.
    pub open spec fn resolves_key(&self, key: Seq<u8>) -> bool {
        resolves(self.nodes(), self.root@, key, 0)
    }

    /// The value that `key` holds under the current root.
    pub open spec fn value_at(&self, key: Seq<u8>) -> Seq<u8> {
        leaf_at(self.nodes(), self.root@, key, 0)
    }

    /// The siblings on the path of `key`, from the root's level down.
    pub open spec fn proof_of(&self, key: Seq<u8>) -> Seq<Seq<u8>> {
        siblings_from(self.nodes(), self.root@, key, 0)
    }

    /// Every entry of the cache binds its parent to the merge of its children.
    pub open spec fn bound(&self) -> bool {
        is_bound(self.nodes())
    }

    /// A tree over the given root and cache, taken as they are.
    pub fn new(root: H256, cache: TreeCache) -> (r: SparseMerkleTree)
        ensures
            r.root == root,
            r.cache == cache,
    {
        SparseMerkleTree { root, cache }
    }

    /// The value that `key` holds.
    pub fn get(&self, key: &H256) -> (r: &H256)
        requires
            self.wf(),
            self.resolves_key(key@),
        ensures
            r@ == self.value_at(key@),
    {
        let mut it = PathIter::from_path(key);
        let mut node: &H256 = &self.root;
        loop
            invariant_except_break
                it.path == *key,
                it.pos <= 256,
                self.wf(),
                resolves(self.nodes(), node@, key@, it.pos as int),
                leaf_at(self.nodes(), node@, key@, it.pos as int) == self.value_at(key@),
            ensures
                node@ == self.value_at(key@),
            decreases 256 - it.pos,
        {
            match it.next() {
                None => break,
                Some(branch) => {
                    let idx = index_of(&self.cache, node);
                    proof {
                        lemma_nodes_at(self.cache@, idx as int);
                    }
                    match branch {
                        Branch::Left => node = &self.cache[idx].1.0,
                        Branch::Right => node = &self.cache[idx].1.1,
                    }
                },
            }
        }
        node
    }

    /// The siblings on the path of `key`, from the root's level down to the leaves.
    pub fn gen_proof(&self, key: &H256) -> (r: Vec<H256>)
        requires
            self.wf(),
            self.resolves_key(key@),
        ensures
            r@.len() == 256,
            views(r@) == self.proof_of(key@),
    {
        let mut it = PathIter::from_path(key);
        let mut node: &H256 = &self.root;
        let mut proof: Vec<H256> = Vec::with_capacity(256);
        proof {
            assert(views(proof@) =~= seq![]);
        }
        loop
            invariant_except_break
                it.path == *key,
                it.pos <= 256,
                proof@.len() == it.pos,
                self.wf(),
                resolves(self.nodes(), node@, key@, it.pos as int),
                views(proof@) + siblings_from(self.nodes(), node@, key@, it.pos as int)
                    == self.proof_of(key@),
            ensures
                proof@.len() == 256,
                views(proof@) == self.proof_of(key@),
            decreases 256 - it.pos,
        {
            let ghost before = views(proof@);
            let ghost above = node@;
            match it.next() {
                None => {
                    assert(views(proof@) + seq![] =~= views(proof@));
                    break;
                },
                Some(branch) => {
                    let idx = index_of(&self.cache, node);
                    proof {
                        lemma_nodes_at(self.cache@, idx as int);
                    }
                    let parent = &self.cache[idx].1;
                    match branch {
                        Branch::Left => {
                            proof.push(parent.1);
                            node = &parent.0;
                        },
                        Branch::Right => {
                            proof.push(parent.0);
                            node = &parent.1;
                        },
                    }
                    proof {
                        assert(views(proof@) =~= before.push(proof@.last()@));
                        let i = it.pos - 1;
                        let rest = siblings_from(self.nodes(), node@, key@, i + 1);
                        assert(siblings_from(self.nodes(), above, key@, i as int) == seq![
                            proof@.last()@,
                        ] + rest);
                        assert(before + (seq![proof@.last()@] + rest) =~= before.push(
                            proof@.last()@,
                        ) + rest);
                    }
                },
            }
        }
        proof
    }

    /// Sets `key` to `value`: rebuilds the path of `key` from `value` and the current
    /// siblings, adds each rebuilt node to the cache where its digest is not yet a key,
    /// and makes the top of the path the root. No entry is removed or overwritten.
    pub fn update(&mut self, key: &H256, value: H256)
        requires
            old(self).wf(),
            old(self).resolves_key(key@),
        ensures
            final(self).wf(),
            old(self).bound() ==> final(self).bound(),
            final(self).root@ == climb(key@, value@, old(self).proof_of(key@), 0),
            final(self).nodes() == written(
                old(self).nodes(),
                key@,
                value@,
                old(self).proof_of(key@),
                0,
            ),
    {
        let ghost sibs = self.proof_of(key@);
        let ghost start = self.nodes();
        let mut siblings = self.gen_proof(key);
        let mut branches: Vec<Branch> = Vec::with_capacity(256);
        let mut it = PathIter::from_path(key);
        loop
            invariant_except_break
                it.path == *key,
                it.pos <= 256,
                branches@.len() == it.pos,
                forall|j: int| 0 <= j < it.pos ==> branches@[j] == branch_at(key@, j),
            ensures
                branches@.len() == 256,
                forall|j: int| 0 <= j < 256 ==> branches@[j] == branch_at(key@, j),
            decreases 256 - it.pos,
        {
            match it.next() {
                None => break,
                Some(branch) => branches.push(branch),
            }
        }
        let mut node: H256 = value;
        let mut level: usize = 256;
        proof {
            assert(views(siblings@).take(256) =~= views(siblings@));
        }
        while level > 0
            invariant
                level <= 256,
                siblings@.len() == level,
                views(siblings@) == sibs.take(level as int),
                sibs.len() == 256,
                branches@.len() == level,
                forall|j: int| 0 <= j < level ==> branches@[j] == branch_at(key@, j),
                node@ == climb(key@, value@, sibs, level as int),
                self.wf(),
                self.nodes() == written(start, key@, value@, sibs, level as int),
            decreases level,
        {
            let ghost prev = siblings@;
            let sibling = siblings.pop().unwrap();
            let branch = branches.pop().unwrap();
            level = level - 1;
            proof {
                assert(prev[level as int] == sibling);
                assert(sibs.take(level as int + 1)[level as int] == views(prev)[level as int]);
                assert(sibs[level as int] == sibling@);
                assert(views(siblings@) =~= sibs.take(level as int));
            }
            let parent;
            match branch {
                Branch::Left => {
                    parent = merge(&node, &sibling);
                    insert_absent(&mut self.cache, parent, (node, sibling));
                },
                Branch::Right => {
                    parent = merge(&sibling, &node);
                    insert_absent(&mut self.cache, parent, (sibling, node));
                },
            }
            node = parent;
        }
        self.root = node;
        proof {
            if is_bound(start) {
                lemma_written_bound(start, key@, value@, sibs, 0);
            }
        }
    }
}

} // verus!
