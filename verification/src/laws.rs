//! What holds of the tree, of its proofs and of their compressed form, for
//! all inputs.

use crate::content::{
    entries, lemma_commit_agree, lemma_commit_empty, lemma_commit_node, lemma_commit_root, lemma_sum_insert,
    lookup, root_commit,
};
use crate::key::{bit, lemma_with_bit, same_until, with_bit, zero_key};
use crate::merkle_proof::{is_default_at, lemma_packed, packed_bits, packed_nodes, rank, unpacked};
use crate::model::{empty_commit, empty_leaf, lemma_empty_sum, Commitment, LeafData, NodeView};
use crate::sums::{leaves_sum, lemma_tree_sum};
use crate::tree::Tree;
use crate::update::lemma_placed_above;
use vstd::prelude::*;

verus! {

/// A tree holds the empty leaf under every key that it has no entry for,
/// and the tree without entries commits as the empty tree, with sum 0.
pub proof fn law_absent_key(m: Map<Seq<u8>, LeafData>, key: Seq<u8>)
    requires
        !m.contains_key(key),
    ensures
        lookup(m, key) == empty_leaf(),
        root_commit(Map::<Seq<u8>, LeafData>::empty()) == empty_commit(0),
        root_commit(Map::<Seq<u8>, LeafData>::empty()).sum == 0,
{
    lemma_commit_empty(Map::<Seq<u8>, LeafData>::empty(), zero_key(), 0);
    lemma_empty_sum(0);
}

/// After a leaf was put under a key, the tree holds that leaf under the
/// key; after the key was deleted, it holds the empty leaf. Every other key
/// holds what it held.
pub proof fn law_round_trip(m: Map<Seq<u8>, LeafData>, key: Seq<u8>, leaf: LeafData, other: Seq<u8>)
    requires
        other != key,
    ensures
        lookup(m.insert(key, leaf), key) == leaf,
        lookup(m.remove(key), key) == empty_leaf(),
        lookup(m.insert(key, leaf), other) == lookup(m, other),
        lookup(m.remove(key), other) == lookup(m, other),
{
}

/// Two trees with the same entries have the same root: digest and sum.
pub proof fn law_root_by_entries(a: Tree, b: Tree)
    requires
        a.wf(),
        b.wf(),
        a@ == b@,
    ensures
        a.root_view().commitment() == b.root_view().commitment(),
{
    lemma_commit_root(a.root_view());
    lemma_commit_root(b.root_view());
}

/// The sum of the root follows the leaves: putting a leaf under a key adds
/// the sum of the leaf and takes away the sum of the leaf that stood there,
/// and deleting a key takes away the sum of its leaf.
pub proof fn law_sum_follows_leaves(m: Map<Seq<u8>, LeafData>, key: Seq<u8>, leaf: LeafData)
    requires
        key.len() == 32,
    ensures
        root_commit(m.insert(key, leaf)).sum == root_commit(m).sum - lookup(m, key).sum + leaf.sum,
        root_commit(m.remove(key)).sum == root_commit(m).sum - lookup(m, key).sum,
{
    lemma_sum_insert(m, key, leaf, zero_key(), 0);
    lemma_sum_insert(m, key, empty_leaf(), zero_key(), 0);
    assert forall|k: Seq<u8>| k.len() == 32 && same_until(k, zero_key(), 0) implies lookup(
        m.insert(key, empty_leaf()),
        k,
    ) == lookup(m.remove(key), k) by {}
    lemma_commit_agree(m.insert(key, empty_leaf()), m.remove(key), zero_key(), 0);
}

/// The sum of the root of a tree is the sum of the sums of its leaves, of
/// which there are finitely many.
pub proof fn law_sum_of_leaves(tree: Tree)
    requires
        tree.wf(),
    ensures
        tree@.dom().finite(),
        tree.root_view().commitment().sum == leaves_sum(tree@),
        tree.root_view().commitment() == root_commit(tree@),
{
    lemma_tree_sum(tree.root_view());
    lemma_commit_root(tree.root_view());
}

/// Deleting a key twice, or putting the same leaf under a key twice, gives
/// the root that doing it once gives.
pub proof fn law_idempotence(m: Map<Seq<u8>, LeafData>, key: Seq<u8>, leaf: LeafData)
    ensures
        root_commit(m.remove(key).remove(key)) == root_commit(m.remove(key)),
        root_commit(m.insert(key, leaf).insert(key, leaf)) == root_commit(m.insert(key, leaf)),
{
    assert(m.remove(key).remove(key) =~= m.remove(key));
    assert(m.insert(key, leaf).insert(key, leaf) =~= m.insert(key, leaf));
}

/// Putting a leaf under a first key and one under a second, then deleting
/// the first key, gives the root that putting the second leaf alone gives,
/// where the tree had no entry under the first key.
pub proof fn law_order_independence(
    m: Map<Seq<u8>, LeafData>,
    first: Seq<u8>,
    a: LeafData,
    second: Seq<u8>,
    b: LeafData,
)
    requires
        first != second,
        !m.contains_key(first),
    ensures
        root_commit(m.insert(first, a).insert(second, b).remove(first)) == root_commit(m.insert(second, b)),
        root_commit(m.insert(second, b).insert(first, a).remove(first)) == root_commit(m.insert(second, b)),
{
    assert(m.insert(first, a).insert(second, b).remove(first) =~= m.insert(second, b));
    assert(m.insert(second, b).insert(first, a).remove(first) =~= m.insert(second, b));
}

/// Compaction does not show in a commitment: two well-formed subtrees at
/// one height that hold the same leaf under every key commit to the same
/// digest and sum, whether their single entries are compacted or spelled
/// out branch by branch.
pub proof fn law_compaction_is_transparent(a: NodeView, b: NodeView, h: nat)
    requires
        a.wf(h),
        b.wf(h),
        forall|k: Seq<u8>| k.len() == 32 ==> a.leaf_at(h, k) == b.leaf_at(h, k),
    ensures
        a.commitment() == b.commitment(),
{
    let m = Map::new(|k: Seq<u8>| k.len() == 32 && a.leaf_at(h, k) != empty_leaf(), |k: Seq<u8>| a.leaf_at(h, k));
    assert forall|k: Seq<u8>| k.len() == 32 && same_until(k, zero_key(), h as int) implies #[trigger] a.leaf_at(
        h,
        k,
    ) == lookup(m, k) by {}
    assert forall|k: Seq<u8>| k.len() == 32 && same_until(k, zero_key(), h as int) implies #[trigger] b.leaf_at(
        h,
        k,
    ) == lookup(m, k) by {
        assert(a.leaf_at(h, k) == b.leaf_at(h, k));
    }
    lemma_commit_node(a, h, zero_key(), m);
    lemma_commit_node(b, h, zero_key(), m);
}

/// Decompressing a compressed proof gives the proof back: the bit vector
/// and the kept nodes of a proof of 256 siblings stand for those siblings,
/// and the kept nodes are as many as the clear bits.
pub proof fn law_compress_round_trip(siblings: Seq<Commitment>)
    requires
        siblings.len() == 256,
    ensures
        rank(packed_bits(siblings), 256) == packed_nodes(siblings, 256).len(),
        unpacked(packed_bits(siblings), packed_nodes(siblings, 256)) == siblings,
{
    lemma_packed(siblings, 256);
    assert(unpacked(packed_bits(siblings), packed_nodes(siblings, 256)) =~= siblings);
}

/// Compression keeps no default node: every node that it keeps is a
/// sibling of the proof that differs from the default node of its height.
pub proof fn law_compress_keeps_no_default(siblings: Seq<Commitment>, j: int)
    requires
        siblings.len() == 256,
        0 <= j < packed_nodes(siblings, 256).len(),
    ensures
        exists|i: int|
            0 <= i < 256 && !is_default_at(siblings, i) && rank(packed_bits(siblings), i as nat) == j
                && #[trigger] siblings[i] == packed_nodes(siblings, 256)[j],
{
    lemma_kept_origin(siblings, 256, j);
}

/// Every node among those kept of the first `n` siblings is one of these
/// siblings, and not a default one.
proof fn lemma_kept_origin(siblings: Seq<Commitment>, n: nat, j: int)
    requires
        siblings.len() == 256,
        n <= 256,
        0 <= j < packed_nodes(siblings, n).len(),
    ensures
        exists|i: int|
            0 <= i < n && !is_default_at(siblings, i) && rank(packed_bits(siblings), i as nat) == j
                && #[trigger] siblings[i] == packed_nodes(siblings, n)[j],
    decreases n,
{
    let last = n - 1;
    lemma_packed(siblings, n);
    lemma_packed(siblings, last as nat);
    if j < packed_nodes(siblings, last as nat).len() {
        lemma_kept_origin(siblings, last as nat, j);
        let i = choose|i: int|
            0 <= i < last && !is_default_at(siblings, i) && rank(packed_bits(siblings), i as nat) == j
                && #[trigger] siblings[i] == packed_nodes(siblings, last as nat)[j];
        assert(siblings[i] == packed_nodes(siblings, n)[j]);
    } else {
        assert(!is_default_at(siblings, last));
        assert(siblings[last] == packed_nodes(siblings, n)[j]);
    }
}

/// The subtree `n` at height `h` on the path of `path` holds an entry
/// under `k`.
pub open spec fn entry_below(n: NodeView, h: nat, path: Seq<u8>, k: Seq<u8>) -> bool {
    k.len() == 32 && same_until(k, path, h as int) && !n.leaf_at(h, k).is_empty()
}

/// A key on the path of a child is on the path of its parent, where it
/// holds what it holds in the child.
proof fn lemma_entry_of_child(n: NodeView, h: nat, path: Seq<u8>, side: bool, k: Seq<u8>)
    requires
        n.wf(h),
        path.len() == 32,
        n matches NodeView::Branch(b) && b.children is Some,
        k.len() == 32,
        same_until(k, with_bit(path, h as int, side), h as int + 1),
    ensures
        same_until(k, path, h as int),
        bit(k, h as int) == side,
        n.leaf_at(h, k) == (if side {
            n->Branch_0.children->Some_0.1.leaf_at(h + 1, k)
        } else {
            n->Branch_0.children->Some_0.0.leaf_at(h + 1, k)
        }),
{
    lemma_placed_above(k, path, h as int, side);
}

/// A compact subtree that holds no entry is a default node.
pub proof fn law_no_entry_is_default(n: NodeView, h: nat, path: Seq<u8>)
    requires
        n.wf(h),
        n.compact(h, path),
        path.len() == 32,
        forall|k: Seq<u8>| !entry_below(n, h, path, k),
    ensures
        n.is_default(),
    decreases n,
{
    match n {
        NodeView::Compacted(c) => {
            assert(entry_below(n, h, path, c.key));
        },
        NodeView::Branch(b) => match b.children {
            Some((l, r)) => {
                let below: nat = h + 1;
                let p0 = with_bit(path, h as int, false);
                let p1 = with_bit(path, h as int, true);
                lemma_with_bit(path, h as int, false, 0);
                lemma_with_bit(path, h as int, true, 0);
                assert forall|k: Seq<u8>| !entry_below(*l, below, p0, k) by {
                    if entry_below(*l, below, p0, k) {
                        lemma_entry_of_child(n, h, path, false, k);
                        assert(entry_below(n, h, path, k));
                    }
                }
                assert forall|k: Seq<u8>| !entry_below(*r, below, p1, k) by {
                    if entry_below(*r, below, p1, k) {
                        lemma_entry_of_child(n, h, path, true, k);
                        assert(entry_below(n, h, path, k));
                    }
                }
                law_no_entry_is_default(*l, h + 1, p0);
                law_no_entry_is_default(*r, h + 1, p1);
            },
            None => {},
        },
        _ => {},
    }
}

/// In a compact subtree, a branch with children below the root holds two
/// entries or more: a subtree with a single entry is one compacted leaf.
pub proof fn law_branch_holds_two(n: NodeView, h: nat, path: Seq<u8>)
    requires
        n.wf(h),
        n.compact(h, path),
        path.len() == 32,
        h > 0,
        n matches NodeView::Branch(b) && b.children is Some,
    ensures
        exists|a: Seq<u8>, b: Seq<u8>| a != b && #[trigger] entry_below(n, h, path, a) && #[trigger] entry_below(
            n,
            h,
            path,
            b,
        ),
    decreases n,
{
    let (l, r) = n->Branch_0.children->Some_0;
    let below: nat = h + 1;
    let p0 = with_bit(path, h as int, false);
    let p1 = with_bit(path, h as int, true);
    lemma_with_bit(path, h as int, false, 0);
    lemma_with_bit(path, h as int, true, 0);
    if !l.is_default() && !r.is_default() {
        if forall|k: Seq<u8>| !entry_below(*l, below, p0, k) {
            law_no_entry_is_default(*l, h + 1, p0);
        }
        if forall|k: Seq<u8>| !entry_below(*r, below, p1, k) {
            law_no_entry_is_default(*r, h + 1, p1);
        }
        let a = choose|k: Seq<u8>| entry_below(*l, below, p0, k);
        let b = choose|k: Seq<u8>| entry_below(*r, below, p1, k);
        lemma_entry_of_child(n, h, path, false, a);
        lemma_entry_of_child(n, h, path, true, b);
        assert(entry_below(n, h, path, a) && entry_below(n, h, path, b));
    } else {
        let (side, child, p) = if l.is_default() {
            (true, *r, p1)
        } else {
            (false, *l, p0)
        };
        assert(child.compact(below, p));
        assert(!child.is_default() && !child.is_compacted());
        assert(child matches NodeView::Branch(b) && b.children is Some);
        law_branch_holds_two(child, h + 1, p);
        let (a, b): (Seq<u8>, Seq<u8>) = choose|a: Seq<u8>, b: Seq<u8>|
            a != b && #[trigger] entry_below(child, below, p, a) && #[trigger] entry_below(child, below, p, b);
        lemma_entry_of_child(n, h, path, side, a);
        lemma_entry_of_child(n, h, path, side, b);
        assert(entry_below(n, h, path, a) && entry_below(n, h, path, b));
    }
}

} // verus!
