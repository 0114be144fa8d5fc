//! Replacing one leaf of a subtree: the walk down to the place of the key,
//! and the way back up, on which subtrees with a single entry are compacted.

use crate::content::{lemma_empty_is_unique, lemma_same_from_step};
use crate::context::TaroContext;
use crate::hashing::{hash_branch, NodeHash};
use crate::key::{
    bit, bit_index, first_difference, lemma_with_bit, same_from, same_until, suffix_eq, with_bit, Key,
};
use crate::model::{
    compact_commit, empty_leaf, join, lemma_compact_path, lemma_compact_sum, lemma_default_commit,
    lemma_empty_sum, lemma_leaf_sum_bound, lemma_own_child, LeafData, NodeView,
};
use crate::node::{copy_bytes, share, BranchNode, CompactedLeafNode, LeafNode, MSSMTNode, Node};
use std::sync::Arc;
use vstd::pervasive::unreached;
use vstd::prelude::*;

verus! {

/// What a subtree at height `h` holds for `k` once `leaf` has taken the
/// place of `key` in a subtree that held `before` for `k`.
pub open spec fn replaced(key: Seq<u8>, leaf: LeafData, h: nat, k: Seq<u8>, before: LeafData) -> LeafData {
    if same_from(key, k, h as int) {
        leaf
    } else {
        before
    }
}

/// Turns a compacted leaf into the one that stands for the subtree one
/// level higher.
pub fn raise(ctx: &TaroContext, node: CompactedLeafNode) -> (r: CompactedLeafNode)
    requires
        ctx.wf(),
        node@.wf(),
        node@.height >= 1,
    ensures
        r@.wf(),
        r@.height == node@.height - 1,
        r@.key == node@.key,
        r@.leaf == node@.leaf,
{
    let h: usize = node.height - 1;
    let empty = ctx.empty_hash(h + 1);
    proof {
        lemma_compact_sum((h + 1) as nat, node@.key, node@.leaf);
        lemma_compact_sum(h as nat, node@.key, node@.leaf);
        lemma_empty_sum((h + 1) as nat);
    }
    let hash: NodeHash = if bit_index(h, &node.key) {
        hash_branch(&empty, &node.compacted_node_hash, node.leaf_node.sum)
    } else {
        hash_branch(&node.compacted_node_hash, &empty, node.leaf_node.sum)
    };
    CompactedLeafNode { leaf_node: node.leaf_node, key: node.key, height: h, compacted_node_hash: hash }
}

/// Makes the node for the subtree at height `h` whose only entry is `leaf`
/// under `key`: a compacted leaf, or the default node where `leaf` is empty.
pub fn single(ctx: &TaroContext, h: usize, key: &Key, leaf: &LeafNode) -> (r: Node)
    requires
        ctx.wf(),
        h <= 256,
    ensures
        r@.wf(h as nat),
        r@.commitment() == compact_commit(h as nat, key@, leaf@),
        forall|k: Seq<u8>| #[trigger] r@.leaf_at(h as nat, k) == replaced(key@, leaf@, h as nat, k, empty_leaf()),
        r@.compact(h as nat, key@),
        r@.is_default() || r@.is_compacted(),
{
    if leaf.is_empty() {
        let r = ctx.empty_node(h);
        proof {
            lemma_empty_is_unique(leaf@);
            lemma_default_commit(r@, h as nat);
            crate::model::lemma_compact_empty(h as nat, key@);
            assert forall|k: Seq<u8>| #[trigger] r@.leaf_at(h as nat, k) == replaced(key@, leaf@, h as nat, k, empty_leaf()) by {
                lemma_empty_is_unique(r@.leaf_at(h as nat, k));
            }
        }
        r
    } else {
        let c = CompactedLeafNode::new(ctx, h, copy_bytes(&leaf.value), leaf.sum, *key);
        Node::CompactedLeafNode(c)
    }
}

/// A child and its sibling may stand under a branch of a compact subtree at
/// height `h`: below the root, neither is a compacted leaf beside a default
/// node.
pub open spec fn may_branch(child: NodeView, sibling: NodeView, h: nat) -> bool {
    h > 0 ==> !(child.is_default() && sibling.is_compacted()) && !(child.is_compacted()
        && sibling.is_default())
}

/// Joins a subtree with its sibling into the branch at height `h` above
/// them. Two default nodes give the default branch, which has no children.
pub fn join_nodes(ctx: &TaroContext, child: Node, sibling: Arc<Node>, h: usize, child_is_right: bool) -> (r:
    BranchNode)
    requires
        ctx.wf(),
        h < 256,
        child@.wf((h + 1) as nat),
        sibling@.wf((h + 1) as nat),
        child@.commitment().sum + sibling@.commitment().sum <= u64::MAX,
    ensures
        r@.wf(h as nat),
        r@.commitment() == join(child_is_right, child@.commitment(), sibling@.commitment()),
        r@.children is None <==> child@.is_default() && sibling@.is_default(),
        forall|k: Seq<u8>| #[trigger]
            NodeView::Branch(r@).leaf_at(h as nat, k) == (if bit(k, h as int) == child_is_right {
                child@.leaf_at((h + 1) as nat, k)
            } else {
                sibling@.leaf_at((h + 1) as nat, k)
            }),
        forall|path: Seq<u8>|
            may_branch(child@, sibling@, h as nat) && child@.compact(
                (h + 1) as nat,
                with_bit(path, h as int, child_is_right),
            ) && sibling@.compact((h + 1) as nat, with_bit(path, h as int, !child_is_right))
                ==> #[trigger] NodeView::Branch(r@).compact(h as nat, path),
{
    let ghost cv = child@;
    let ghost sv = sibling@;
    if sibling.is_default() && child.is_default() {
        let r = BranchNode::new_computed_branch(ctx.empty_hash(h), 0);
        proof {
            lemma_empty_sum(h as nat);
            lemma_default_commit(cv, (h + 1) as nat);
            lemma_default_commit(sv, (h + 1) as nat);
            assert forall|k: Seq<u8>| #[trigger]
                NodeView::Branch(r@).leaf_at(h as nat, k) == (if bit(k, h as int) == child_is_right {
                    cv.leaf_at((h + 1) as nat, k)
                } else {
                    sv.leaf_at((h + 1) as nat, k)
                }) by {
                lemma_empty_is_unique(cv.leaf_at((h + 1) as nat, k));
                lemma_empty_is_unique(sv.leaf_at((h + 1) as nat, k));
            }
        }
        return r;
    }
    if child_is_right {
        BranchNode::new_branch(sibling, Arc::new(child))
    } else {
        BranchNode::new_branch(Arc::new(child), sibling)
    }
}

/// Joins a subtree with its sibling into their parent at height `h`. A
/// compacted leaf beside a default node is raised by one level; anything
/// else gives a branch.
pub fn combine(ctx: &TaroContext, child: Node, sibling: Arc<Node>, h: usize, child_is_right: bool) -> (r: Node)
    requires
        ctx.wf(),
        h < 256,
        child@.wf((h + 1) as nat),
        sibling@.wf((h + 1) as nat),
        child@.commitment().sum + sibling@.commitment().sum <= u64::MAX,
    ensures
        r@.wf(h as nat),
        r@.commitment() == join(child_is_right, child@.commitment(), sibling@.commitment()),
        forall|k: Seq<u8>| #[trigger]
            r@.leaf_at(h as nat, k) == (if bit(k, h as int) == child_is_right {
                child@.leaf_at((h + 1) as nat, k)
            } else {
                sibling@.leaf_at((h + 1) as nat, k)
            }),
        forall|path: Seq<u8>|
            path.len() == 32 && child@.compact((h + 1) as nat, with_bit(path, h as int, child_is_right))
                && sibling@.compact((h + 1) as nat, with_bit(path, h as int, !child_is_right))
                ==> #[trigger] r@.compact(h as nat, path),
{
    let ghost cv = child@;
    let ghost sv = sibling@;
    let sibling_default = sibling.is_default();
    let child_default = child.is_default();
    let child = match child {
        Node::CompactedLeafNode(c) => {
            if sibling_default && bit_index(h, &c.key) == child_is_right {
                let ghost old_c = c@;
                let up = raise(ctx, c);
                let r = Node::CompactedLeafNode(up);
                proof {
                    lemma_default_commit(sv, (h + 1) as nat);
                    assert forall|k: Seq<u8>| #[trigger]
                        r@.leaf_at(h as nat, k) == (if bit(k, h as int) == child_is_right {
                            cv.leaf_at((h + 1) as nat, k)
                        } else {
                            sv.leaf_at((h + 1) as nat, k)
                        }) by {
                        lemma_same_from_step(old_c.key, k, h as int);
                        lemma_empty_is_unique(sv.leaf_at((h + 1) as nat, k));
                    }
                    assert forall|path: Seq<u8>|
                        path.len() == 32 && cv.compact((h + 1) as nat, with_bit(path, h as int, child_is_right))
                            && sv.compact(
                            (h + 1) as nat,
                            with_bit(path, h as int, !child_is_right),
                        ) implies #[trigger] r@.compact(h as nat, path) by {
                        lemma_placed_above(old_c.key, path, h as int, child_is_right);
                    }
                }
                return r;
            }
            Node::CompactedLeafNode(c)
        },
        other => other,
    };
    if child_default {
        match &*sibling {
            Node::CompactedLeafNode(s) => {
                if bit_index(h, &s.key) != child_is_right {
                    let up = raise(ctx, s.copy());
                    let r = Node::CompactedLeafNode(up);
                    proof {
                        lemma_default_commit(cv, (h + 1) as nat);
                        assert forall|k: Seq<u8>| #[trigger]
                            r@.leaf_at(h as nat, k) == (if bit(k, h as int) == child_is_right {
                                cv.leaf_at((h + 1) as nat, k)
                            } else {
                                sv.leaf_at((h + 1) as nat, k)
                            }) by {
                            lemma_same_from_step(s@.key, k, h as int);
                            lemma_empty_is_unique(cv.leaf_at((h + 1) as nat, k));
                        }
                        assert forall|path: Seq<u8>|
                            path.len() == 32 && cv.compact(
                                (h + 1) as nat,
                                with_bit(path, h as int, child_is_right),
                            ) && sv.compact((h + 1) as nat, with_bit(path, h as int, !child_is_right))
                                implies #[trigger] r@.compact(h as nat, path) by {
                            lemma_placed_above(s@.key, path, h as int, !child_is_right);
                        }
                    }
                    return r;
                }
            },
            _ => {},
        }
    }
    let branch = join_nodes(ctx, child, sibling, h, child_is_right);
    let r = Node::BranchNode(branch);
    proof {
        assert forall|path: Seq<u8>|
            path.len() == 32 && cv.compact((h + 1) as nat, with_bit(path, h as int, child_is_right))
                && sv.compact((h + 1) as nat, with_bit(path, h as int, !child_is_right))
                implies #[trigger] r@.compact(h as nat, path) by {
            match cv {
                NodeView::Compacted(c) => {
                    lemma_placed_above(c.key, path, h as int, child_is_right);
                },
                _ => {},
            }
            match sv {
                NodeView::Compacted(c) => {
                    lemma_placed_above(c.key, path, h as int, !child_is_right);
                },
                _ => {},
            }
            assert(may_branch(cv, sv, h as nat));
            assert(NodeView::Branch(branch@).compact(h as nat, path));
        }
    }
    r
}

/// A key that lies on the path of a child lies on the path of its parent,
/// and its bit at the level of the parent tells the side of the child.
pub proof fn lemma_placed_above(key: Seq<u8>, path: Seq<u8>, h: int, side: bool)
    requires
        path.len() == 32,
        0 <= h < 256,
        same_until(key, with_bit(path, h, side), h + 1),
    ensures
        same_until(key, path, h),
        bit(key, h) == side,
{
    assert forall|i: int| 0 <= i < h implies bit(key, i) == bit(path, i) by {
        lemma_with_bit(path, h, side, i);
        assert(bit(key, i) == bit(with_bit(path, h, side), i));
    }
    lemma_with_bit(path, h, side, h);
    assert(bit(key, h) == bit(with_bit(path, h, side), h));
}

/// Makes the subtree at height `h` that holds two entries: `leaf` under
/// `key`, and the leaf of `other` under its key, which differs from `key`
/// at or after bit `h`.
pub fn merge(ctx: &TaroContext, h: usize, key: &Key, leaf: &LeafNode, other: &CompactedLeafNode) -> (r: Node)
    requires
        ctx.wf(),
        h <= 256,
        !same_from(key@, other@.key, h as int),
        leaf.sum + other.leaf_node.sum <= u64::MAX,
    ensures
        r@.wf(h as nat),
        r@.commitment().sum == leaf.sum + other.leaf_node.sum,
        forall|k: Seq<u8>| #[trigger]
            r@.leaf_at(h as nat, k) == replaced(
                key@,
                leaf@,
                h as nat,
                k,
                replaced(other@.key, other@.leaf, h as nat, k, empty_leaf()),
            ),
        same_until(other@.key, key@, h as int) && !leaf@.is_empty() && !other@.leaf.is_empty() ==> r@.compact(
            h as nat,
            key@,
        ),
        !r@.is_default() && !r@.is_compacted(),
{
    let ghost placed = same_until(other@.key, key@, h as int) && !leaf@.is_empty() && !other@.leaf.is_empty();
    let d = first_difference(key, &other.key, h);
    let mine = CompactedLeafNode::new(ctx, d + 1, copy_bytes(&leaf.value), leaf.sum, *key);
    let theirs = CompactedLeafNode::new(
        ctx,
        d + 1,
        copy_bytes(&other.leaf_node.value),
        other.leaf_node.sum,
        other.key,
    );
    let ghost mv = NodeView::Compacted(mine@);
    let ghost tv = NodeView::Compacted(theirs@);
    proof {
        lemma_compact_sum((d + 1) as nat, key@, leaf@);
        lemma_compact_sum((d + 1) as nat, other@.key, other@.leaf);
        assert(mv.wf((d + 1) as nat));
        assert(tv.wf((d + 1) as nat));
    }
    let top = if bit_index(d, key) {
        BranchNode::new_branch(
            Arc::new(Node::CompactedLeafNode(theirs)),
            Arc::new(Node::CompactedLeafNode(mine)),
        )
    } else {
        BranchNode::new_branch(
            Arc::new(Node::CompactedLeafNode(mine)),
            Arc::new(Node::CompactedLeafNode(theirs)),
        )
    };
    let mut current = Node::BranchNode(top);
    proof {
        assert(current@.wf(d as nat));
        if placed {
            let side = bit(key@, d as int);
            lemma_own_child(key@, d as int);
            assert(mv.compact((d + 1) as nat, with_bit(key@, d as int, side)));
            assert forall|i: int| 0 <= i < d + 1 implies bit(other@.key, i) == bit(
                with_bit(key@, d as int, !side),
                i,
            ) by {
                lemma_with_bit(key@, d as int, !side, i);
                if i < h {
                    assert(bit(other@.key, i) == bit(key@, i));
                }
            }
            assert(tv.compact((d + 1) as nat, with_bit(key@, d as int, !side)));
            assert(current@.compact(d as nat, key@));
        }
        assert forall|k: Seq<u8>| #[trigger]
            current@.leaf_at(d as nat, k) == replaced(
                key@,
                leaf@,
                d as nat,
                k,
                replaced(other@.key, other@.leaf, d as nat, k, empty_leaf()),
            ) by {
            lemma_same_from_step(key@, k, d as int);
            lemma_same_from_step(other@.key, k, d as int);
            assert(mv.leaf_at((d + 1) as nat, k) == replaced(key@, leaf@, (d + 1) as nat, k, empty_leaf()));
            assert(tv.leaf_at((d + 1) as nat, k) == replaced(
                other@.key,
                other@.leaf,
                (d + 1) as nat,
                k,
                empty_leaf(),
            ));
        }
    }
    let mut i: usize = d;
    while i > h
        invariant
            ctx.wf(),
            h <= i <= d < 256,
            forall|j: int| h <= j < d ==> bit(key@, j) == bit(other@.key, j),
            current@.wf(i as nat),
            current@.commitment().sum == leaf.sum + other.leaf_node.sum,
            leaf.sum + other.leaf_node.sum <= u64::MAX,
            !current@.is_default() && !current@.is_compacted(),
            placed ==> current@.compact(i as nat, key@),
            forall|k: Seq<u8>| #[trigger]
                current@.leaf_at(i as nat, k) == replaced(
                    key@,
                    leaf@,
                    i as nat,
                    k,
                    replaced(other@.key, other@.leaf, i as nat, k, empty_leaf()),
                ),
        decreases i,
    {
        i = i - 1;
        let empty = ctx.empty_node(i + 1);
        let ghost below = current@;
        let ghost ev = empty@;
        proof {
            lemma_default_commit(ev, (i + 1) as nat);
            lemma_empty_sum((i + 1) as nat);
        }
        let branch = if bit_index(i, key) {
            BranchNode::new_branch(Arc::new(empty), Arc::new(current))
        } else {
            BranchNode::new_branch(Arc::new(current), Arc::new(empty))
        };
        current = Node::BranchNode(branch);
        proof {
            assert forall|k: Seq<u8>| #[trigger]
                current@.leaf_at(i as nat, k) == replaced(
                    key@,
                    leaf@,
                    i as nat,
                    k,
                    replaced(other@.key, other@.leaf, i as nat, k, empty_leaf()),
                ) by {
                lemma_same_from_step(key@, k, i as int);
                lemma_same_from_step(other@.key, k, i as int);
                lemma_empty_is_unique(ev.leaf_at((i + 1) as nat, k));
                assert(below.leaf_at((i + 1) as nat, k) == replaced(
                    key@,
                    leaf@,
                    (i + 1) as nat,
                    k,
                    replaced(other@.key, other@.leaf, (i + 1) as nat, k, empty_leaf()),
                ));
            }
            if placed {
                let side = bit(key@, i as int);
                lemma_own_child(key@, i as int);
                lemma_compact_path(below, (i + 1) as nat, key@, with_bit(key@, i as int, side));
                lemma_with_bit(key@, i as int, !side, 0);
                assert(ev.compact((i + 1) as nat, with_bit(key@, i as int, !side)));
                assert(current@.compact(i as nat, key@));
            }
        }
    }
    current
}

/// Puts `leaf` in the place of `key` in the subtree `node` at height `h`,
/// and returns the new subtree. The subtree given is left as it is; the new
/// one shares with it what did not change. An empty `leaf` removes the
/// entry.
pub fn insert_node(ctx: &TaroContext, node: &Node, h: usize, key: &Key, leaf: &LeafNode) -> (r: Node)
    requires
        ctx.wf(),
        h <= 256,
        node@.wf(h as nat),
        node@.commitment().sum - node@.leaf_at(h as nat, key@).sum + leaf.sum <= u64::MAX,
    ensures
        r@.wf(h as nat),
        r@.commitment().sum == node@.commitment().sum - node@.leaf_at(h as nat, key@).sum + leaf.sum,
        forall|k: Seq<u8>| #[trigger]
            r@.leaf_at(h as nat, k) == replaced(key@, leaf@, h as nat, k, node@.leaf_at(h as nat, k)),
        node@.compact(h as nat, key@) ==> r@.compact(h as nat, key@),
    decreases 256 - h,
{
    proof {
        lemma_compact_sum(h as nat, key@, leaf@);
        lemma_leaf_sum_bound(node@, h as nat, key@);
    }
    if h == 256 {
        let r = single(ctx, h, key, leaf);
        proof {
            assert(same_from(key@, key@, 256));
            match node@ {
                NodeView::Compacted(c) => {
                    assert(same_from(c.key, key@, 256));
                },
                _ => {},
            }
            assert forall|k: Seq<u8>| #[trigger]
                r@.leaf_at(h as nat, k) == replaced(key@, leaf@, h as nat, k, node@.leaf_at(h as nat, k)) by {
                assert(same_from(key@, k, 256));
            }
        }
        return r;
    }
    match node {
        Node::BranchNode(b) => match &b.children {
            Some((left, right)) => {
                let go_right = bit_index(h, key);
                let (child, sibling) = if go_right {
                    (right, left)
                } else {
                    (left, right)
                };
                proof {
                    lemma_leaf_sum_bound(child@, (h + 1) as nat, key@);
                }
                let new_child = insert_node(ctx, &**child, h + 1, key, leaf);
                let ghost nv = new_child@;
                let r = combine(ctx, new_child, share(sibling), h, go_right);
                proof {
                    if node@.compact(h as nat, key@) {
                        lemma_own_child(key@, h as int);
                        lemma_with_bit(key@, h as int, !go_right, 0);
                        lemma_compact_path(child@, (h + 1) as nat, with_bit(key@, h as int, go_right), key@);
                        lemma_compact_path(nv, (h + 1) as nat, key@, with_bit(key@, h as int, go_right));
                        assert(nv.compact((h + 1) as nat, with_bit(key@, h as int, go_right)));
                        assert(sibling@.compact((h + 1) as nat, with_bit(key@, h as int, !go_right)));
                        assert(r@.compact(h as nat, key@));
                    }
                    assert forall|k: Seq<u8>| #[trigger]
                        r@.leaf_at(h as nat, k) == replaced(
                            key@,
                            leaf@,
                            h as nat,
                            k,
                            node@.leaf_at(h as nat, k),
                        ) by {
                        lemma_same_from_step(key@, k, h as int);
                        assert(nv.leaf_at((h + 1) as nat, k) == replaced(
                            key@,
                            leaf@,
                            (h + 1) as nat,
                            k,
                            child@.leaf_at((h + 1) as nat, k),
                        ));
                    }
                }
                r
            },
            None => {
                let r = single(ctx, h, key, leaf);
                proof {
                    lemma_default_commit(node@, h as nat);
                    lemma_empty_sum(h as nat);
                }
                r
            },
        },
        Node::ComputedNode(_) => {
            let r = single(ctx, h, key, leaf);
            proof {
                lemma_default_commit(node@, h as nat);
                lemma_empty_sum(h as nat);
            }
            r
        },
        Node::CompactedLeafNode(c) => {
            if suffix_eq(key, &c.key, h) {
                let r = single(ctx, h, key, leaf);
                proof {
                    assert(same_from(c@.key, key@, h as int));
                    assert forall|k: Seq<u8>| #[trigger]
                        r@.leaf_at(h as nat, k) == replaced(
                            key@,
                            leaf@,
                            h as nat,
                            k,
                            node@.leaf_at(h as nat, k),
                        ) by {
                        if same_from(c@.key, k, h as int) {
                            assert(same_from(key@, k, h as int));
                        }
                    }
                }
                r
            } else if leaf.is_empty() {
                let r = node.copy();
                proof {
                    lemma_empty_is_unique(leaf@);
                    if same_from(c@.key, key@, h as int) {
                        assert(same_from(key@, c@.key, h as int));
                    }
                    assert forall|k: Seq<u8>| #[trigger]
                        r@.leaf_at(h as nat, k) == replaced(
                            key@,
                            leaf@,
                            h as nat,
                            k,
                            node@.leaf_at(h as nat, k),
                        ) by {
                        if same_from(key@, k, h as int) && same_from(c@.key, k, h as int) {
                            assert(same_from(key@, c@.key, h as int));
                        }
                    }
                }
                r
            } else {
                proof {
                    if same_from(c@.key, key@, h as int) {
                        assert(same_from(key@, c@.key, h as int));
                    }
                }
                let r = merge(ctx, h, key, leaf, c);
                proof {
                    lemma_compact_sum(h as nat, c@.key, c@.leaf);
                }
                r
            }
        },
        Node::LeafNode(_) => {
            // A leaf stands at height 256 only.
            single(ctx, h, key, leaf)
        },
    }
}

/// Puts `leaf` in the place of `key` in the tree under `root`, and returns
/// the new root. The tree given is left as it is; the new one shares with
/// it what did not change. An empty `leaf` removes the entry.
pub fn insert_root(ctx: &TaroContext, root: &Node, key: &Key, leaf: &LeafNode) -> (r: BranchNode)
    requires
        ctx.wf(),
        root@.wf(0),
        root@ is Branch,
        root@.commitment().sum - root@.leaf_at(0, key@).sum + leaf.sum <= u64::MAX,
    ensures
        r@.wf(0),
        r@.commitment().sum == root@.commitment().sum - root@.leaf_at(0, key@).sum + leaf.sum,
        forall|k: Seq<u8>| #[trigger]
            NodeView::Branch(r@).leaf_at(0, k) == replaced(key@, leaf@, 0, k, root@.leaf_at(0, k)),
        root@.compact(0, key@) ==> NodeView::Branch(r@).compact(0, key@),
{
    let ghost rv = root@;
    let go_right = bit_index(0, key);
    proof {
        lemma_leaf_sum_bound(rv, 0, key@);
    }
    let children = match root {
        Node::BranchNode(b) => &b.children,
        _ => unreached(),
    };
    match children {
        Some((left, right)) => {
            let (child, sibling) = if go_right {
                (right, left)
            } else {
                (left, right)
            };
            proof {
                lemma_leaf_sum_bound(child@, 1, key@);
            }
            let new_child = insert_node(ctx, &**child, 1, key, leaf);
            let ghost nv = new_child@;
            let r = join_nodes(ctx, new_child, share(sibling), 0, go_right);
            proof {
                if rv.compact(0, key@) {
                    lemma_own_child(key@, 0);
                    lemma_with_bit(key@, 0, !go_right, 0);
                    lemma_compact_path(child@, 1, with_bit(key@, 0, go_right), key@);
                    lemma_compact_path(nv, 1, key@, with_bit(key@, 0, go_right));
                    assert(nv.compact(1, with_bit(key@, 0, go_right)));
                    assert(sibling@.compact(1, with_bit(key@, 0, !go_right)));
                    assert(may_branch(nv, sibling@, 0));
                    assert(NodeView::Branch(r@).compact(0, key@));
                }
                assert forall|k: Seq<u8>| #[trigger]
                    NodeView::Branch(r@).leaf_at(0, k) == replaced(key@, leaf@, 0, k, rv.leaf_at(0, k)) by {
                    lemma_same_from_step(key@, k, 0);
                    assert(nv.leaf_at(1, k) == replaced(key@, leaf@, 1, k, child@.leaf_at(1, k)));
                }
            }
            r
        },
        None => {
            let new_child = single(ctx, 1, key, leaf);
            let sibling = ctx.empty_node(1);
            let ghost nv = new_child@;
            let ghost sv = sibling@;
            proof {
                lemma_default_commit(rv, 0);
                lemma_default_commit(sv, 1);
                lemma_empty_sum(0);
                lemma_empty_sum(1);
                lemma_compact_sum(1, key@, leaf@);
            }
            let r = join_nodes(ctx, new_child, Arc::new(sibling), 0, go_right);
            proof {
                lemma_own_child(key@, 0);
                lemma_with_bit(key@, 0, !go_right, 0);
                lemma_compact_path(nv, 1, key@, with_bit(key@, 0, go_right));
                assert(nv.compact(1, with_bit(key@, 0, go_right)));
                assert(sv.compact(1, with_bit(key@, 0, !go_right)));
                assert(may_branch(nv, sv, 0));
                assert(NodeView::Branch(r@).compact(0, key@));
                assert forall|k: Seq<u8>| #[trigger]
                    NodeView::Branch(r@).leaf_at(0, k) == replaced(key@, leaf@, 0, k, rv.leaf_at(0, k)) by {
                    lemma_same_from_step(key@, k, 0);
                    lemma_empty_is_unique(sv.leaf_at(1, k));
                    assert(nv.leaf_at(1, k) == replaced(key@, leaf@, 1, k, empty_leaf()));
                }
            }
            r
        },
    }
}

} // verus!
