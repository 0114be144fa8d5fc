//! The tree as a map from keys to leaves, and the commitment that such a map
//! determines.

use crate::key::{bit, lemma_key_by_bits, lemma_with_bit, same_from, same_until, with_bit, zero_key};
use crate::model::{
    branch_commit, compact_commit, empty_commit, empty_leaf, Commitment, LeafData, NodeView,
};
use vstd::prelude::*;

verus! {

/// The leaf that a map holds under a key; the empty leaf where it holds
/// none.
pub open spec fn lookup(m: Map<Seq<u8>, LeafData>, key: Seq<u8>) -> LeafData {
    if m.contains_key(key) {
        m[key]
    } else {
        empty_leaf()
    }
}

/// The commitment of the subtree at height `h` on the path of `key`, in the
/// tree that holds exactly the entries of `m`.
pub open spec fn subtree_commit(m: Map<Seq<u8>, LeafData>, key: Seq<u8>, h: nat) -> Commitment
    decreases 256 - h,
{
    if h >= 256 {
        lookup(m, key).commitment()
    } else {
        branch_commit(
            subtree_commit(m, with_bit(key, h as int, false), h + 1),
            subtree_commit(m, with_bit(key, h as int, true), h + 1),
        )
    }
}

/// The commitment of the root of the tree that holds exactly the entries of
/// `m`.
pub open spec fn root_commit(m: Map<Seq<u8>, LeafData>) -> Commitment {
    subtree_commit(m, zero_key(), 0)
}

/// The entries of the subtree `n` at height 0: its non-empty leaves, each
/// under its key.
pub open spec fn entries(n: NodeView) -> Map<Seq<u8>, LeafData> {
    Map::new(|k: Seq<u8>| k.len() == 32 && !n.leaf_at(0, k).is_empty(), |k: Seq<u8>| n.leaf_at(0, k))
}

/// The subtree `n` at height `h` on the path of `key` holds what `m` holds.
pub open spec fn holds(n: NodeView, h: nat, key: Seq<u8>, m: Map<Seq<u8>, LeafData>) -> bool {
    forall|k: Seq<u8>|
        k.len() == 32 && same_until(k, key, h as int) ==> #[trigger] n.leaf_at(h, k) == lookup(m, k)
}

/// An empty leaf is the empty leaf.
pub proof fn lemma_empty_is_unique(l: LeafData)
    requires
        l.is_empty(),
    ensures
        l == empty_leaf(),
{
    assert(l.value =~= empty_leaf().value);
}

/// Agreement on the bits from `h` on is agreement on bit `h` and on the
/// bits after it.
pub proof fn lemma_same_from_step(a: Seq<u8>, b: Seq<u8>, h: int)
    requires
        0 <= h < 256,
    ensures
        same_from(a, b, h) == (bit(a, h) == bit(b, h) && same_from(a, b, h as int + 1)),
{
    if bit(a, h) == bit(b, h) && same_from(a, b, h as int + 1) {
        assert forall|i: int| h <= i < 256 implies bit(a, i) == bit(b, i) by {
            if i > h {
                assert(h + 1 <= i);
            }
        }
    }
    if same_from(a, b, h) {
        assert(bit(a, h) == bit(b, h));
        assert(same_from(a, b, h as int + 1));
    }
}

/// A key on the path of the child of `key` on side `b` at level `h` is on
/// the path of `key` at height `h` and has `b` as its bit `h`.
proof fn lemma_child_path(key: Seq<u8>, h: int, b: bool, k: Seq<u8>)
    requires
        key.len() == 32,
        0 <= h < 256,
        same_until(k, with_bit(key, h, b), h + 1),
    ensures
        same_until(k, key, h),
        bit(k, h) == b,
{
    assert forall|j: int| 0 <= j < h implies bit(k, j) == bit(key, j) by {
        lemma_with_bit(key, h, b, j);
        assert(bit(k, j) == bit(with_bit(key, h, b), j));
    }
    lemma_with_bit(key, h, b, h);
    assert(bit(k, h) == bit(with_bit(key, h, b), h));
}

/// Where `m` holds no entry below a place, the subtree there commits as an
/// empty subtree.
pub proof fn lemma_commit_empty(m: Map<Seq<u8>, LeafData>, key: Seq<u8>, h: nat)
    requires
        key.len() == 32,
        h <= 256,
        forall|k: Seq<u8>|
            k.len() == 32 && same_until(k, key, h as int) ==> #[trigger] lookup(m, k) == empty_leaf(),
    ensures
        subtree_commit(m, key, h) == empty_commit(h),
    decreases 256 - h,
{
    if h >= 256 {
        assert(same_until(key, key, 256));
        assert(lookup(m, key) == empty_leaf());
    } else {
        let k0 = with_bit(key, h as int, false);
        let k1 = with_bit(key, h as int, true);
        lemma_with_bit(key, h as int, false, 0);
        lemma_with_bit(key, h as int, true, 0);
        assert forall|k: Seq<u8>| k.len() == 32 && same_until(k, k0, h as int + 1) implies #[trigger] lookup(m, k)
            == empty_leaf() by {
            lemma_child_path(key, h as int, false, k);
        }
        assert forall|k: Seq<u8>| k.len() == 32 && same_until(k, k1, h as int + 1) implies #[trigger] lookup(m, k)
            == empty_leaf() by {
            lemma_child_path(key, h as int, true, k);
        }
        lemma_commit_empty(m, k0, h + 1);
        lemma_commit_empty(m, k1, h + 1);
    }
}

/// Where `m` holds one entry below a place, the subtree there commits as
/// the compacted leaf of that entry.
pub proof fn lemma_commit_single(
    m: Map<Seq<u8>, LeafData>,
    key: Seq<u8>,
    h: nat,
    at: Seq<u8>,
    leaf: LeafData,
)
    requires
        key.len() == 32,
        h <= 256,
        forall|k: Seq<u8>|
            k.len() == 32 && same_until(k, key, h as int) ==> #[trigger] lookup(m, k) == (if same_from(
                at,
                k,
                h as int,
            ) {
                leaf
            } else {
                empty_leaf()
            }),
    ensures
        subtree_commit(m, key, h) == compact_commit(h, at, leaf),
    decreases 256 - h,
{
    if h >= 256 {
        assert(same_until(key, key, 256));
        assert(same_from(at, key, 256));
        assert(lookup(m, key) == leaf);
    } else {
        let side = bit(at, h as int);
        let near = with_bit(key, h as int, side);
        let far = with_bit(key, h as int, !side);
        lemma_with_bit(key, h as int, side, 0);
        lemma_with_bit(key, h as int, !side, 0);
        assert forall|k: Seq<u8>| k.len() == 32 && same_until(k, near, h as int + 1) implies #[trigger] lookup(m, k)
            == (if same_from(at, k, h as int + 1) {
            leaf
        } else {
            empty_leaf()
        }) by {
            lemma_child_path(key, h as int, side, k);
            lemma_same_from_step(at, k, h as int);
        }
        assert forall|k: Seq<u8>| k.len() == 32 && same_until(k, far, h as int + 1) implies #[trigger] lookup(m, k)
            == empty_leaf() by {
            lemma_child_path(key, h as int, !side, k);
            lemma_same_from_step(at, k, h as int);
        }
        lemma_commit_single(m, near, h + 1, at, leaf);
        lemma_commit_empty(m, far, h + 1);
    }
}

/// A well-formed subtree commits to what it holds: its commitment is the
/// one that the map of its entries determines.
pub proof fn lemma_commit_node(n: NodeView, h: nat, key: Seq<u8>, m: Map<Seq<u8>, LeafData>)
    requires
        n.wf(h),
        key.len() == 32,
        holds(n, h, key, m),
    ensures
        n.commitment() == subtree_commit(m, key, h),
    decreases n,
{
    match n {
        NodeView::Leaf(l) => {
            assert(same_until(key, key, 256));
            assert(n.leaf_at(h, key) == lookup(m, key));
        },
        NodeView::Computed(_) => {
            assert forall|k: Seq<u8>| k.len() == 32 && same_until(k, key, h as int) implies #[trigger] lookup(
                m,
                k,
            ) == empty_leaf() by {
                assert(n.leaf_at(h, k) == lookup(m, k));
            }
            lemma_commit_empty(m, key, h);
        },
        NodeView::Compacted(c) => {
            assert forall|k: Seq<u8>| k.len() == 32 && same_until(k, key, h as int) implies #[trigger] lookup(
                m,
                k,
            ) == (if same_from(c.key, k, h as int) {
                c.leaf
            } else {
                empty_leaf()
            }) by {
                assert(n.leaf_at(h, k) == lookup(m, k));
            }
            lemma_commit_single(m, key, h, c.key, c.leaf);
        },
        NodeView::Branch(b) => match b.children {
            None => {
                assert forall|k: Seq<u8>| k.len() == 32 && same_until(k, key, h as int) implies #[trigger] lookup(
                    m,
                    k,
                ) == empty_leaf() by {
                    assert(n.leaf_at(h, k) == lookup(m, k));
                }
                lemma_commit_empty(m, key, h);
            },
            Some((l, r)) => {
                let k0 = with_bit(key, h as int, false);
                let k1 = with_bit(key, h as int, true);
                lemma_with_bit(key, h as int, false, 0);
                lemma_with_bit(key, h as int, true, 0);
                assert forall|k: Seq<u8>| k.len() == 32 && same_until(k, k0, h as int + 1) implies #[trigger] l.leaf_at(
                    h + 1,
                    k,
                ) == lookup(m, k) by {
                    lemma_child_path(key, h as int, false, k);
                    assert(n.leaf_at(h, k) == lookup(m, k));
                }
                assert forall|k: Seq<u8>| k.len() == 32 && same_until(k, k1, h as int + 1) implies #[trigger] r.leaf_at(
                    h + 1,
                    k,
                ) == lookup(m, k) by {
                    lemma_child_path(key, h as int, true, k);
                    assert(n.leaf_at(h, k) == lookup(m, k));
                }
                lemma_commit_node(*l, h + 1, k0, m);
                lemma_commit_node(*r, h + 1, k1, m);
            },
        },
    }
}

/// A well-formed root commits to the map of its entries.
pub proof fn lemma_commit_root(n: NodeView)
    requires
        n.wf(0),
    ensures
        n.commitment() == root_commit(entries(n)),
{
    let m = entries(n);
    assert forall|k: Seq<u8>| k.len() == 32 && same_until(k, zero_key(), 0) implies #[trigger] n.leaf_at(0, k)
        == lookup(m, k) by {
        if n.leaf_at(0, k).is_empty() {
            lemma_empty_is_unique(n.leaf_at(0, k));
        }
    }
    lemma_commit_node(n, 0, zero_key(), m);
}

/// Agreement on the bits before `h + 1` with the child of `key` on side `b`
/// is agreement with `key` before `h` and having `b` as bit `h`.
proof fn lemma_child_path_iff(key: Seq<u8>, h: int, b: bool, k: Seq<u8>)
    requires
        key.len() == 32,
        0 <= h < 256,
    ensures
        same_until(k, with_bit(key, h, b), h + 1) <==> same_until(k, key, h) && bit(k, h) == b,
{
    if same_until(k, with_bit(key, h, b), h + 1) {
        lemma_child_path(key, h, b, k);
    }
    if same_until(k, key, h) && bit(k, h) == b {
        assert forall|j: int| 0 <= j < h + 1 implies bit(k, j) == bit(with_bit(key, h, b), j) by {
            lemma_with_bit(key, h, b, j);
        }
    }
}

/// Putting a leaf under `k` changes the sum of a subtree by the difference
/// between the new leaf and the old one where `k` lies below the subtree,
/// and not at all where it does not.
pub proof fn lemma_sum_insert(m: Map<Seq<u8>, LeafData>, k: Seq<u8>, leaf: LeafData, key: Seq<u8>, h: nat)
    requires
        k.len() == 32,
        key.len() == 32,
        h <= 256,
    ensures
        subtree_commit(m.insert(k, leaf), key, h).sum == subtree_commit(m, key, h).sum + (if same_until(
            k,
            key,
            h as int,
        ) {
            leaf.sum - lookup(m, k).sum
        } else {
            0
        }),
    decreases 256 - h,
{
    if h >= 256 {
        if same_until(k, key, 256) {
            assert(same_from(k, key, 0));
            lemma_key_by_bits(k, key);
        } else if k == key {
            assert(same_until(k, key, 256));
        }
    } else {
        let k0 = with_bit(key, h as int, false);
        let k1 = with_bit(key, h as int, true);
        lemma_with_bit(key, h as int, false, 0);
        lemma_with_bit(key, h as int, true, 0);
        lemma_child_path_iff(key, h as int, false, k);
        lemma_child_path_iff(key, h as int, true, k);
        lemma_sum_insert(m, k, leaf, k0, h + 1);
        lemma_sum_insert(m, k, leaf, k1, h + 1);
    }
}

/// Subtrees of maps that agree below a place commit alike.
pub proof fn lemma_commit_agree(a: Map<Seq<u8>, LeafData>, b: Map<Seq<u8>, LeafData>, key: Seq<u8>, h: nat)
    requires
        key.len() == 32,
        h <= 256,
        forall|k: Seq<u8>| k.len() == 32 && same_until(k, key, h as int) ==> lookup(a, k) == lookup(b, k),
    ensures
        subtree_commit(a, key, h) == subtree_commit(b, key, h),
    decreases 256 - h,
{
    if h >= 256 {
        assert(same_until(key, key, 256));
    } else {
        let k0 = with_bit(key, h as int, false);
        let k1 = with_bit(key, h as int, true);
        lemma_with_bit(key, h as int, false, 0);
        lemma_with_bit(key, h as int, true, 0);
        assert forall|k: Seq<u8>| k.len() == 32 && same_until(k, k0, h as int + 1) implies lookup(a, k)
            == lookup(b, k) by {
            lemma_child_path(key, h as int, false, k);
        }
        assert forall|k: Seq<u8>| k.len() == 32 && same_until(k, k1, h as int + 1) implies lookup(a, k)
            == lookup(b, k) by {
            lemma_child_path(key, h as int, true, k);
        }
        lemma_commit_agree(a, b, k0, h + 1);
        lemma_commit_agree(a, b, k1, h + 1);
    }
}

} // verus!
