//! A Merkle hash tree over a sequence of `u64` items, with inclusion proofs.
//!
//! The tree is kept as its layers: layer 0 holds the leaf hashes, padded to a
//! power of two, and each further layer pairs up the one below it (positions
//! `2k` and `2k + 1` combine into position `k`). The last layer holds the root.
//!
//! Leaves and internal nodes are hashed with distinct leading tags, so that no
//! leaf hash can be confused with the combination of two children.
use vstd::prelude::*;

use crate::hashing::digest;
use crate::hashing::digest_of;
use crate::hashing::collision_free;

verus! {

/// Leading word of the digest input of a leaf.
pub const LEAF_TAG: u64 = 0;

/// Leading word of the digest input of an internal node.
pub const NODE_TAG: u64 = 1;

/// The value whose leaf hash fills the padding leaves.
pub const PADDING_SENTINEL: u64 = 0;

/// Errors of tree and proof construction.
#[derive(Debug, Clone, Copy, PartialEq, Eq, Structural)]
pub enum MerkleError {
    /// `construct_tree` was given no items.
    InvalidInput,
    /// `construct_merkle_proof` was given an index past the padded leaves.
    IndexOutOfRange,
}

// ---------------------------------------------------------------------------
// Mathematical model
// ---------------------------------------------------------------------------

/// `2^d`.
pub open spec fn two_pow(d: nat) -> nat
    decreases d,
{
    if d == 0 {
        1
    } else {
        2 * two_pow((d - 1) as nat)
    }
}

/// The depth of a tree over `n` items: the least `d` with `2^d >= n`.
pub open spec fn tree_depth(n: nat) -> nat
    decreases n,
{
    if n <= 1 {
        0
    } else {
        1 + tree_depth(((n + 1) / 2) as nat)
    }
}

/// The hash of a leaf that holds `value`.
pub open spec fn leaf_hash(value: u64) -> u64 {
    digest_of(seq![LEAF_TAG, value])
}

/// The hash of an internal node with children hashed `left` and `right`.
pub open spec fn node_hash(left: u64, right: u64) -> u64 {
    digest_of(seq![NODE_TAG, left, right])
}

/// The hash of every padding leaf.
pub open spec fn padding_hash() -> u64 {
    leaf_hash(PADDING_SENTINEL)
}

/// The value that stands at leaf `i` of the tree over `items`.
pub open spec fn leaf_value(items: Seq<u64>, i: int) -> u64 {
    if i < items.len() {
        items[i]
    } else {
        PADDING_SENTINEL
    }
}

/// The `2^d` leaf hashes of a tree of depth `d` over `items`.
pub open spec fn leaf_layer(items: Seq<u64>, d: nat) -> Seq<u64> {
    Seq::new(two_pow(d), |k: int| leaf_hash(leaf_value(items, k)))
}

/// The layer above `layer`: position `k` combines positions `2k` and `2k + 1`.
pub open spec fn parent_layer(layer: Seq<u64>) -> Seq<u64> {
    Seq::new(layer.len() / 2, |k: int| node_hash(layer[2 * k], layer[2 * k + 1]))
}

/// Layer `t` of the tree over `items`, counted from the leaves.
pub open spec fn layer_at(items: Seq<u64>, t: nat) -> Seq<u64>
    decreases t,
{
    if t == 0 {
        leaf_layer(items, tree_depth(items.len()))
    } else {
        parent_layer(layer_at(items, (t - 1) as nat))
    }
}

/// The root hash of the tree over `items`.
pub open spec fn merkle_root(items: Seq<u64>) -> u64 {
    layer_at(items, tree_depth(items.len()))[0]
}

/// The position of the ancestor of leaf `i` in layer `t`: `i / 2^t`.
pub open spec fn ancestor(i: nat, t: nat) -> nat
    decreases t,
{
    if t == 0 {
        i
    } else {
        ancestor(i, (t - 1) as nat) / 2
    }
}

/// The position of the other child of the parent of position `s`.
pub open spec fn sibling(s: nat) -> nat {
    if s % 2 == 0 {
        s + 1
    } else {
        (s - 1) as nat
    }
}

/// The inclusion proof of leaf `i` in a tree with the given layers and depth:
/// the sibling of its ancestor in each layer, from the leaves up.
pub open spec fn auth_path(layers: Seq<Seq<u64>>, i: nat, depth: nat) -> Seq<u64> {
    Seq::new(depth, |t: int| layers[t][sibling(ancestor(i, t as nat)) as int])
}

/// The hash reached from `h` at position `i` by combining it with each entry
/// of `proof` in turn: on the left when the position is even, on the right
/// when it is odd, halving the position after each step.
pub open spec fn climb(h: u64, i: nat, proof: Seq<u64>) -> u64
    decreases proof.len(),
{
    if proof.len() == 0 {
        h
    } else {
        let next = if i % 2 == 0 {
            node_hash(h, proof[0])
        } else {
            node_hash(proof[0], h)
        };
        climb(next, i / 2, proof.drop_first())
    }
}

/// Whether `proof` shows `value` at leaf `i` of a tree of the given depth and
/// root hash: the proof has one entry per layer, `i` names a leaf, and the
/// climb from the leaf's hash ends at the root hash.
pub open spec fn proof_accepted(root_hash: u64, depth: nat, value: u64, i: nat, proof: Seq<u64>) -> bool {
    &&& proof.len() == depth
    &&& i < two_pow(depth)
    &&& climb(leaf_hash(value), i, proof) == root_hash
}

// ---------------------------------------------------------------------------
// Root summary
// ---------------------------------------------------------------------------

/// A built tree: its root hash, its depth, and all of its layers.
#[derive(Clone, Debug)]
pub struct RootNode {
    hash_value: u64,
    depth: usize,
    layers: Vec<Vec<u64>>,
}

impl RootNode {
    /// The layers, leaves first.
    pub closed spec fn layers_view(&self) -> Seq<Seq<u64>> {
        Seq::new(self.layers@.len(), |t: int| self.layers@[t]@)
    }

    /// The recorded root hash.
    pub closed spec fn hash_spec(&self) -> u64 {
        self.hash_value
    }

    /// The recorded depth.
    pub closed spec fn depth_spec(&self) -> nat {
        self.depth as nat
    }

    /// The layers form a complete binary tree of the recorded depth whose
    /// top node carries the recorded hash.
    pub closed spec fn wf(&self) -> bool {
        let l = self.layers_view();
        &&& l.len() == self.depth + 1
        &&& forall|t: int| 0 <= t <= self.depth ==> #[trigger] l[t].len() == two_pow((self.depth - t) as nat)
        &&& forall|t: int| 0 <= t < self.depth ==> #[trigger] l[t + 1] == parent_layer(l[t])
        &&& self.hash_value == l[self.depth as int][0]
    }

    /// The tree is the one built over `items`.
    pub closed spec fn built_from(&self, items: Seq<u64>) -> bool {
        &&& self.wf()
        &&& self.depth == tree_depth(items.len())
        &&& self.layers_view()[0] == leaf_layer(items, self.depth as nat)
    }

    /// The root hash.
    pub fn hash_value(&self) -> (r: u64)
        ensures
            r == self.hash_spec(),
    {
        self.hash_value
    }

    /// The number of levels from the root down to the leaves.
    pub fn depth(&self) -> (r: usize)
        ensures
            r == self.depth_spec(),
    {
        self.depth
    }
}


// ---------------------------------------------------------------------------
// Arithmetic facts
// ---------------------------------------------------------------------------

proof fn lemma_two_pow_positive(d: nat)
    ensures
        two_pow(d) >= 1,
    decreases d,
{
    if d > 0 {
        lemma_two_pow_positive((d - 1) as nat);
    }
}

proof fn lemma_two_pow_monotone(a: nat, b: nat)
    requires
        a <= b,
    ensures
        two_pow(a) <= two_pow(b),
    decreases b,
{
    if a < b {
        lemma_two_pow_monotone(a, (b - 1) as nat);
        lemma_two_pow_positive((b - 1) as nat);
    }
}

/// `tree_depth(n)` is the least `d` with `2^d >= n`.
pub proof fn lemma_tree_depth_least(n: nat)
    requires
        n >= 1,
    ensures
        two_pow(tree_depth(n)) >= n,
        tree_depth(n) > 0 ==> two_pow((tree_depth(n) - 1) as nat) < n,
    decreases n,
{
    if n > 1 {
        let m = ((n + 1) / 2) as nat;
        lemma_tree_depth_least(m);
        lemma_two_pow_positive(tree_depth(m));
        if tree_depth(m) > 0 {
            assert(two_pow(tree_depth(m)) == 2 * two_pow((tree_depth(m) - 1) as nat));
        }
    }
}

/// A depth `d` with `2^(d-1) < n <= 2^d` is `tree_depth(n)`.
proof fn lemma_tree_depth_unique(n: nat, d: nat)
    requires
        n >= 1,
        two_pow(d) >= n,
        d > 0 ==> two_pow((d - 1) as nat) < n,
    ensures
        d == tree_depth(n),
{
    let e = tree_depth(n);
    lemma_tree_depth_least(n);
    if d < e {
        lemma_two_pow_monotone(d, (e - 1) as nat);
    } else if e < d {
        lemma_two_pow_monotone(e, (d - 1) as nat);
    }
}

// ---------------------------------------------------------------------------
// Hashing
// ---------------------------------------------------------------------------

/// Hashes a leaf value.
fn hash_leaf(value: u64) -> (r: u64)
    ensures
        r == leaf_hash(value),
{
    let words: Vec<u64> = vec![LEAF_TAG, value];
    digest(words.as_slice())
}

/// Hashes the pair of children hashes `a` (left) and `b` (right).
fn combine_hash(a: u64, b: u64) -> (r: u64)
    ensures
        r == node_hash(a, b),
{
    let words: Vec<u64> = vec![NODE_TAG, a, b];
    digest(words.as_slice())
}

// ---------------------------------------------------------------------------
// Construction
// ---------------------------------------------------------------------------

/// The layer above `layer`.
fn construct_parent_layer(layer: &Vec<u64>) -> (r: Vec<u64>)
    ensures
        r@ == parent_layer(layer@),
{
    let len = layer.len();
    let half = len / 2;
    let mut parents: Vec<u64> = Vec::new();
    let mut k: usize = 0;
    while k < half
        invariant
            len == layer@.len(),
            half == len / 2,
            k <= half,
            parents@ =~= parent_layer(layer@).take(k as int),
        decreases half - k,
    {
        assert(2 * k + 1 < layer@.len());
        let h = combine_hash(layer[2 * k], layer[2 * k + 1]);
        parents.push(h);
        k = k + 1;
        assert(parents@ =~= parent_layer(layer@).take(k as int));
    }
    assert(parents@ =~= parent_layer(layer@));
    parents
}

/// Builds the tree over `values`, padded with padding leaves up to the next
/// power of two.
pub fn construct_tree(values: Vec<u64>) -> (r: Result<RootNode, MerkleError>)
    requires
        values@.len() <= usize::MAX / 2,
    ensures
        values@.len() == 0 <==> r is Err,
        r is Err ==> r == Err::<RootNode, MerkleError>(MerkleError::InvalidInput),
        r matches Ok(root) ==> {
            &&& root.wf()
            &&& root.built_from(values@)
            &&& root.depth_spec() == tree_depth(values@.len())
            &&& two_pow(root.depth_spec()) >= values@.len()
            &&& root.depth_spec() > 0 ==> two_pow((root.depth_spec() - 1) as nat) < values@.len()
            &&& root.hash_spec() == merkle_root(values@)
        },
{
    let n = values.len();
    if n == 0 {
        return Err(MerkleError::InvalidInput);
    }
    let mut width: usize = 1;
    let mut depth: usize = 0;
    while width < n
        invariant
            1 <= n <= usize::MAX / 2,
            width == two_pow(depth as nat),
            depth > 0 ==> two_pow((depth - 1) as nat) < n,
            width < 2 * n,
            1 <= width,
            depth < width,
        decreases 2 * n - width,
    {
        width = width * 2;
        depth = depth + 1;
    }
    proof {
        lemma_tree_depth_unique(n as nat, depth as nat);
        lemma_tree_depth_least(n as nat);
    }
    let ghost items = values@;

    let padding = hash_leaf(PADDING_SENTINEL);
    let mut leaves: Vec<u64> = Vec::new();
    let mut k: usize = 0;
    while k < width
        invariant
            n == items.len(),
            width == two_pow(depth as nat),
            depth == tree_depth(n as nat),
            values@ == items,
            padding == padding_hash(),
            k <= width,
            leaves@ =~= leaf_layer(items, depth as nat).take(k as int),
        decreases width - k,
    {
        let h = if k < n {
            hash_leaf(values[k])
        } else {
            padding
        };
        leaves.push(h);
        k = k + 1;
        assert(leaves@ =~= leaf_layer(items, depth as nat).take(k as int));
    }
    assert(leaves@ =~= leaf_layer(items, depth as nat));
    assert(leaves@ == layer_at(items, 0));

    let mut layers: Vec<Vec<u64>> = Vec::new();
    let mut layer = leaves;
    let mut t: usize = 0;
    while t < depth
        invariant
            t <= depth,
            depth == tree_depth(items.len()),
            layers@.len() == t,
            forall|s: int| 0 <= s < t ==> #[trigger] layers@[s]@ == layer_at(items, s as nat),
            layer@ == layer_at(items, t as nat),
            layer@.len() == two_pow((depth - t) as nat),
        decreases depth - t,
    {
        let parents = construct_parent_layer(&layer);
        assert(two_pow((depth - t) as nat) == 2 * two_pow((depth - (t + 1)) as nat));
        layers.push(layer);
        layer = parents;
        t = t + 1;
    }
    assert(layer@.len() == 1);
    let hash_value = layer[0];
    layers.push(layer);
    let root = RootNode { hash_value, depth, layers };
    proof {
        let l = root.layers_view();
        assert forall|s: int| 0 <= s <= depth implies #[trigger] l[s] == layer_at(items, s as nat) by {}
        assert forall|s: int| 0 <= s <= depth implies #[trigger] l[s].len() == two_pow((depth - s) as nat) by {
            lemma_layer_len(items, s as nat);
        }
        assert forall|s: int| 0 <= s < depth implies #[trigger] l[s + 1] == parent_layer(l[s]) by {
            assert(l[s + 1] == layer_at(items, (s + 1) as nat));
        }
    }
    Ok(root)
}

/// Layer `t` of the tree over `items` has `2^(depth - t)` hashes.
proof fn lemma_layer_len(items: Seq<u64>, t: nat)
    requires
        t <= tree_depth(items.len()),
    ensures
        layer_at(items, t).len() == two_pow((tree_depth(items.len()) - t) as nat),
    decreases t,
{
    if t > 0 {
        lemma_layer_len(items, (t - 1) as nat);
        let d = tree_depth(items.len());
        assert(two_pow((d - (t - 1)) as nat) == 2 * two_pow((d - t) as nat));
    }
}


// ---------------------------------------------------------------------------
// Proofs of inclusion
// ---------------------------------------------------------------------------

/// The inclusion proof of leaf `i`: the sibling hash at each layer, ordered
/// from the leaves up to the root.
pub fn construct_merkle_proof(merkle_tree: &RootNode, i: usize) -> (r: Result<Vec<u64>, MerkleError>)
    requires
        merkle_tree.wf(),
    ensures
        i >= two_pow(merkle_tree.depth_spec()) <==> r is Err,
        r is Err ==> r == Err::<Vec<u64>, MerkleError>(MerkleError::IndexOutOfRange),
        r matches Ok(p) ==> {
            &&& p@ == auth_path(merkle_tree.layers_view(), i as nat, merkle_tree.depth_spec())
            &&& p@.len() == merkle_tree.depth_spec()
        },
{
    let ghost l = merkle_tree.layers_view();
    let depth = merkle_tree.depth;
    assert(l[0].len() == two_pow(depth as nat));
    if i >= merkle_tree.layers[0].len() {
        return Err(MerkleError::IndexOutOfRange);
    }
    let ghost path = auth_path(l, i as nat, depth as nat);
    let mut proof: Vec<u64> = Vec::new();
    let mut idx: usize = i;
    let mut t: usize = 0;
    while t < depth
        invariant
            merkle_tree.wf(),
            l == merkle_tree.layers_view(),
            depth == merkle_tree.depth_spec(),
            path == auth_path(l, i as nat, depth as nat),
            t <= depth,
            idx == ancestor(i as nat, t as nat),
            idx < two_pow((depth - t) as nat),
            proof@ =~= path.take(t as int),
        decreases depth - t,
    {
        let layer = &merkle_tree.layers[t];
        assert(layer@ == l[t as int]);
        assert(two_pow((depth - t) as nat) == 2 * two_pow((depth - (t + 1)) as nat));
        let sib = if idx % 2 == 0 {
            idx + 1
        } else {
            idx - 1
        };
        proof.push(layer[sib]);
        idx = idx / 2;
        t = t + 1;
        assert(proof@ =~= path.take(t as int));
    }
    assert(proof@ =~= path);
    Ok(proof)
}

/// Whether `inclusion_proof` shows `value` at leaf `i` of the tree `root`.
///
/// A proof of the wrong length or an index past the padded leaves is
/// rejected; otherwise the proof is climbed from the leaf's hash and the
/// result compared with the root hash.
pub fn verify_merkle_proof(root: RootNode, value: u64, i: usize, inclusion_proof: Vec<u64>) -> (r: bool)
    requires
        root.wf(),
    ensures
        r == proof_accepted(root.hash_spec(), root.depth_spec(), value, i as nat, inclusion_proof@),
{
    let ghost l = root.layers_view();
    assert(l[0].len() == two_pow(root.depth as nat));
    if inclusion_proof.len() != root.depth || i >= root.layers[0].len() {
        return false;
    }
    let ghost proof = inclusion_proof@;
    let ghost goal = climb(leaf_hash(value), i as nat, proof);
    let mut hash = hash_leaf(value);
    let mut idx: usize = i;
    let mut k: usize = 0;
    assert(proof.skip(0) =~= proof);
    while k < inclusion_proof.len()
        invariant
            proof == inclusion_proof@,
            k <= proof.len(),
            climb(hash, idx as nat, proof.skip(k as int)) == goal,
        decreases proof.len() - k,
    {
        let p = inclusion_proof[k];
        assert(proof.skip(k as int).drop_first() =~= proof.skip(k + 1));
        hash = if idx % 2 == 0 {
            combine_hash(hash, p)
        } else {
            combine_hash(p, hash)
        };
        idx = idx / 2;
        k = k + 1;
    }
    assert(proof.skip(k as int).len() == 0);
    hash == root.hash_value
}

// ---------------------------------------------------------------------------
// Laws
// ---------------------------------------------------------------------------

/// The ancestor of leaf `i < 2^d` in layer `t` lies within that layer.
proof fn lemma_ancestor_bound(i: nat, d: nat, t: nat)
    requires
        i < two_pow(d),
        t <= d,
    ensures
        ancestor(i, t) < two_pow((d - t) as nat),
    decreases t,
{
    if t > 0 {
        lemma_ancestor_bound(i, d, (t - 1) as nat);
        assert(two_pow((d - (t - 1)) as nat) == 2 * two_pow((d - t) as nat));
    }
}

/// The layers of a tree built over `items` are the layers of the model.
proof fn lemma_built_layers(root: &RootNode, items: Seq<u64>)
    requires
        root.built_from(items),
    ensures
        forall|t: int| 0 <= t <= root.depth ==> #[trigger] root.layers_view()[t] == layer_at(items, t as nat),
        root.hash_spec() == merkle_root(items),
{
    let l = root.layers_view();
    assert forall|t: int| 0 <= t <= root.depth implies #[trigger] l[t] == layer_at(items, t as nat) by {
        lemma_built_layer(root, items, t as nat);
    }
}

proof fn lemma_built_layer(root: &RootNode, items: Seq<u64>, t: nat)
    requires
        root.built_from(items),
        t <= root.depth,
    ensures
        root.layers_view()[t as int] == layer_at(items, t),
    decreases t,
{
    if t > 0 {
        lemma_built_layer(root, items, (t - 1) as nat);
        assert(root.layers_view()[(t - 1) + 1] == parent_layer(root.layers_view()[t - 1]));
    }
}

/// Two trees built over the same items have the same root hash: building is
/// deterministic.
pub proof fn lemma_construct_deterministic(a: &RootNode, b: &RootNode, items: Seq<u64>)
    requires
        a.built_from(items),
        b.built_from(items),
    ensures
        a.hash_spec() == b.hash_spec(),
{
    lemma_built_layers(a, items);
    lemma_built_layers(b, items);
}

/// Climbing the inclusion proof from the hash at the ancestor of leaf `i` in
/// layer `t` ends at the root.
proof fn lemma_climb_path(root: &RootNode, i: nat, t: nat)
    requires
        root.wf(),
        i < two_pow(root.depth as nat),
        t <= root.depth,
    ensures
        ({
            let l = root.layers_view();
            let s = ancestor(i, t);
            climb(l[t as int][s as int], s, auth_path(l, i, root.depth as nat).skip(t as int))
                == root.hash_spec()
        }),
    decreases root.depth - t,
{
    let l = root.layers_view();
    let d = root.depth as nat;
    let path = auth_path(l, i, d);
    let s = ancestor(i, t);
    lemma_ancestor_bound(i, d, t);
    if t == d {
        assert(path.skip(t as int).len() == 0);
    } else {
        let rest = path.skip(t as int);
        assert(rest[0] == l[t as int][sibling(s) as int]);
        assert(rest.drop_first() =~= path.skip(t + 1 as int));
        assert(l[t + 1 as int] == parent_layer(l[t as int]));
        assert(two_pow((d - t) as nat) == 2 * two_pow((d - (t + 1)) as nat));
        let k = (s / 2) as int;
        if s % 2 == 0 {
            assert(2 * k == s && 2 * k + 1 == s + 1);
        } else {
            assert(2 * k == s - 1 && 2 * k + 1 == s);
        }
        assert(l[t + 1 as int][k] == node_hash(l[t as int][2 * k], l[t as int][2 * k + 1]));
        lemma_climb_path(root, i, t + 1);
    }
}

/// Every leaf of a built tree, with the value that stands there and the proof
/// that `construct_merkle_proof` gives for it, is accepted.
pub proof fn lemma_proof_complete(root: &RootNode, items: Seq<u64>, i: nat)
    requires
        root.built_from(items),
        i < two_pow(root.depth_spec()),
    ensures
        proof_accepted(
            root.hash_spec(),
            root.depth_spec(),
            leaf_value(items, i as int),
            i,
            auth_path(root.layers_view(), i, root.depth_spec()),
        ),
{
    let l = root.layers_view();
    lemma_climb_path(root, i, 0);
    assert(auth_path(l, i, root.depth as nat).skip(0) =~= auth_path(l, i, root.depth as nat));
    assert(l[0][i as int] == leaf_hash(leaf_value(items, i as int)));
}

/// Under collision freedom, climbs from distinct hashes end at distinct hashes.
proof fn lemma_climb_injective(h1: u64, h2: u64, i: nat, proof: Seq<u64>)
    requires
        collision_free(),
        h1 != h2,
    ensures
        climb(h1, i, proof) != climb(h2, i, proof),
    decreases proof.len(),
{
    if proof.len() > 0 {
        let p = proof[0];
        if i % 2 == 0 {
            if node_hash(h1, p) == node_hash(h2, p) {
                assert(seq![NODE_TAG, h1, p][1] == seq![NODE_TAG, h2, p][1]);
            }
        } else {
            if node_hash(p, h1) == node_hash(p, h2) {
                assert(seq![NODE_TAG, p, h1][2] == seq![NODE_TAG, p, h2][2]);
            }
        }
        lemma_climb_injective(
            if i % 2 == 0 { node_hash(h1, p) } else { node_hash(p, h1) },
            if i % 2 == 0 { node_hash(h2, p) } else { node_hash(p, h2) },
            i / 2,
            proof.drop_first(),
        );
    }
}

/// Under collision freedom, climbs along two proofs that differ in entry `j`
/// alone end at distinct hashes.
proof fn lemma_climb_entry(h: u64, i: nat, p: Seq<u64>, q: Seq<u64>, j: int)
    requires
        collision_free(),
        p.len() == q.len(),
        0 <= j < p.len(),
        p[j] != q[j],
        forall|k: int| 0 <= k < p.len() && k != j ==> p[k] == q[k],
    ensures
        climb(h, i, p) != climb(h, i, q),
    decreases j,
{
    let a = p[0];
    let b = q[0];
    if j == 0 {
        if i % 2 == 0 {
            if node_hash(h, a) == node_hash(h, b) {
                assert(seq![NODE_TAG, h, a][2] == seq![NODE_TAG, h, b][2]);
            }
        } else {
            if node_hash(a, h) == node_hash(b, h) {
                assert(seq![NODE_TAG, a, h][1] == seq![NODE_TAG, b, h][1]);
            }
        }
        assert(p.drop_first() =~= q.drop_first());
        lemma_climb_injective(
            if i % 2 == 0 { node_hash(h, a) } else { node_hash(a, h) },
            if i % 2 == 0 { node_hash(h, b) } else { node_hash(b, h) },
            i / 2,
            p.drop_first(),
        );
    } else {
        assert(a == b);
        lemma_climb_entry(
            if i % 2 == 0 { node_hash(h, a) } else { node_hash(a, h) },
            i / 2,
            p.drop_first(),
            q.drop_first(),
            j - 1,
        );
    }
}

/// Under collision freedom, a proof accepted for `v` at position `i` is not
/// accepted for any other value at that position.
pub proof fn lemma_value_binding(root_hash: u64, depth: nat, v: u64, w: u64, i: nat, proof: Seq<u64>)
    requires
        collision_free(),
        v != w,
        proof_accepted(root_hash, depth, v, i, proof),
    ensures
        !proof_accepted(root_hash, depth, w, i, proof),
{
    if leaf_hash(v) == leaf_hash(w) {
        assert(seq![LEAF_TAG, v][1] == seq![LEAF_TAG, w][1]);
    }
    lemma_climb_injective(leaf_hash(v), leaf_hash(w), i, proof);
}

/// Under collision freedom, changing a single entry of an accepted proof makes
/// it rejected.
pub proof fn lemma_proof_entry_binding(
    root_hash: u64,
    depth: nat,
    v: u64,
    i: nat,
    proof: Seq<u64>,
    other: Seq<u64>,
    j: int,
)
    requires
        collision_free(),
        proof_accepted(root_hash, depth, v, i, proof),
        other.len() == proof.len(),
        0 <= j < proof.len(),
        other[j] != proof[j],
        forall|k: int| 0 <= k < proof.len() && k != j ==> other[k] == proof[k],
    ensures
        !proof_accepted(root_hash, depth, v, i, other),
{
    lemma_climb_entry(leaf_hash(v), i, proof, other, j);
}

} // verus!
