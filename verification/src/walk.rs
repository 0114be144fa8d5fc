//! Walking down a subtree on the path of a key: to the leaf, and to the
//! siblings that the path passes by.

use crate::context::TaroContext;
use crate::key::{bit, bit_index, first_difference, same_from, suffix_eq, Key};
use crate::merkle_proof::{climb, commitments};
use crate::model::{
    compact_commit, empty_commit, empty_leaf, join, lemma_compact_empty, lemma_compact_same_key,
    lemma_default_commit, Commitment, LeafData,
};
use crate::node::{CompactedLeafNode, ComputedNode, LeafNode, MSSMTNode, Node};
use vstd::prelude::*;

verus! {

/// Joining with the sibling of level `hi` first and climbing from `hi`
/// is climbing from `hi + 1`.
pub proof fn lemma_climb_extend(key: Seq<u8>, x: Commitment, levels: Seq<Commitment>, lo: nat, hi: nat)
    requires
        lo <= hi,
    ensures
        climb(key, x, levels, lo, hi + 1) == climb(
            key,
            join(bit(key, hi as int), x, levels[hi as int]),
            levels,
            lo,
            hi,
        ),
    decreases hi - lo,
{
    if lo < hi {
        lemma_climb_extend(key, x, levels, lo + 1, hi);
    } else {
        assert(climb(key, x, levels, hi + 1, hi + 1) == x);
    }
}

/// A climb reads the siblings of its own levels only.
pub proof fn lemma_climb_levels(
    key: Seq<u8>,
    x: Commitment,
    a: Seq<Commitment>,
    b: Seq<Commitment>,
    lo: nat,
    hi: nat,
)
    requires
        forall|l: int| lo <= l < hi ==> a[l] == b[l],
    ensures
        climb(key, x, a, lo, hi) == climb(key, x, b, lo, hi),
    decreases hi - lo,
{
    if lo < hi {
        lemma_climb_levels(key, x, a, b, lo + 1, hi);
    }
}

/// A climb can be made in two parts.
pub proof fn lemma_climb_split(key: Seq<u8>, x: Commitment, levels: Seq<Commitment>, lo: nat, mid: nat, hi: nat)
    requires
        lo <= mid <= hi,
    ensures
        climb(key, x, levels, lo, hi) == climb(key, climb(key, x, levels, mid, hi), levels, lo, mid),
    decreases mid - lo,
{
    if lo < mid {
        lemma_climb_split(key, x, levels, lo + 1, mid, hi);
    }
}

/// Climbing from a leaf past default siblings alone gives the commitment of
/// the subtree whose only entry is that leaf.
pub proof fn lemma_climb_single(key: Seq<u8>, leaf: LeafData, levels: Seq<Commitment>, h: nat)
    requires
        h <= 256,
        forall|l: int| h <= l < 256 ==> levels[l] == empty_commit((l + 1) as nat),
    ensures
        climb(key, leaf.commitment(), levels, h, 256) == compact_commit(h, key, leaf),
    decreases 256 - h,
{
    if h < 256 {
        lemma_climb_single(key, leaf, levels, h + 1);
    }
}

/// Climbing from the empty leaf on a path that leaves the path of the one
/// entry `leaf` under `other` at level `d` gives the commitment of the
/// subtree whose only entry is that leaf.
pub proof fn lemma_climb_beside(
    key: Seq<u8>,
    other: Seq<u8>,
    leaf: LeafData,
    levels: Seq<Commitment>,
    h: nat,
    d: nat,
)
    requires
        h <= d < 256,
        forall|j: int| h <= j < d ==> bit(key, j) == bit(other, j),
        bit(key, d as int) != bit(other, d as int),
        forall|l: int| h <= l < 256 && l != d ==> levels[l] == empty_commit((l + 1) as nat),
        levels[d as int] == compact_commit(d + 1, other, leaf),
    ensures
        climb(key, empty_leaf().commitment(), levels, h, 256) == compact_commit(h, other, leaf),
    decreases d - h,
{
    if h < d {
        lemma_climb_beside(key, other, leaf, levels, h + 1, d);
    } else {
        lemma_climb_single(key, empty_leaf(), levels, d + 1);
        lemma_compact_empty(d + 1, key);
    }
}

/// Returns the leaf that the subtree `node` at height `h` holds for `key`;
/// the empty leaf where it holds none.
pub fn find_leaf(node: &Node, h: usize, key: &Key) -> (r: LeafNode)
    requires
        h <= 256,
        node@.wf(h as nat),
    ensures
        r@ == node@.leaf_at(h as nat, key@),
{
    let mut current: &Node = node;
    let mut level: usize = h;
    loop
        invariant
            level <= 256,
            current@.wf(level as nat),
            current@.leaf_at(level as nat, key@) == node@.leaf_at(h as nat, key@),
        decreases 256 - level,
    {
        match current {
            Node::LeafNode(l) => {
                return l.copy();
            },
            Node::ComputedNode(_) => {
                return LeafNode::empty();
            },
            Node::CompactedLeafNode(c) => {
                if suffix_eq(&c.key, key, level) {
                    return c.leaf_node.copy();
                } else {
                    return LeafNode::empty();
                }
            },
            Node::BranchNode(b) => match &b.children {
                None => {
                    return LeafNode::empty();
                },
                Some((left, right)) => {
                    current = if bit_index(level, key) {
                        &**right
                    } else {
                        &**left
                    };
                    level = level + 1;
                },
            },
        }
    }
}

/// Appends the default siblings of the levels from `siblings.len()` up to,
/// not including, `to`.
fn push_defaults(ctx: &TaroContext, siblings: &mut Vec<Node>, to: usize)
    requires
        ctx.wf(),
        old(siblings)@.len() <= to <= 256,
    ensures
        final(siblings)@.len() == to,
        forall|l: int| 0 <= l < old(siblings)@.len() ==> final(siblings)@[l] == old(siblings)@[l],
        forall|l: int|
            old(siblings)@.len() <= l < to ==> (#[trigger] final(siblings)@[l])@.commitment() == empty_commit(
                (l + 1) as nat,
            ),
{
    let ghost before = siblings@;
    let mut l: usize = siblings.len();
    while l < to
        invariant
            ctx.wf(),
            before.len() <= l <= to <= 256,
            siblings@.len() == l,
            forall|j: int| 0 <= j < before.len() ==> siblings@[j] == before[j],
            forall|j: int|
                before.len() <= j < l ==> (#[trigger] siblings@[j])@.commitment() == empty_commit((j + 1) as nat),
        decreases to - l,
    {
        siblings.push(ctx.empty_node(l + 1));
        l = l + 1;
    }
}

/// Walks from the root `root` down the path of `key`. Returns the sibling of
/// each level, by level, as a node that holds its commitment alone, and the
/// leaf that the tree holds for `key`. A compacted leaf on the way is
/// treated as the subtree that it stands for.
pub fn path_siblings(ctx: &TaroContext, root: &Node, key: &Key) -> (r: (Vec<Node>, LeafNode))
    requires
        ctx.wf(),
        root@.wf(0),
    ensures
        r.0@.len() == 256,
        r.1@ == root@.leaf_at(0, key@),
        climb(key@, r.1@.commitment(), commitments(r.0@), 0, 256) == root@.commitment(),
{
    let mut siblings: Vec<Node> = Vec::new();
    let mut current: &Node = root;
    let mut h: usize = 0;
    loop
        invariant
            ctx.wf(),
            h <= 256,
            siblings@.len() == h,
            current@.wf(h as nat),
            current@.leaf_at(h as nat, key@) == root@.leaf_at(0, key@),
            climb(key@, current@.commitment(), commitments(siblings@), 0, h as nat) == root@.commitment(),
        decreases 256 - h,
    {
        let ghost upper = commitments(siblings@);
        let ghost here = current@.commitment();
        match current {
            Node::LeafNode(l) => {
                return (siblings, l.copy());
            },
            Node::BranchNode(b) => match &b.children {
                Some((left, right)) => {
                    let (next, sibling) = if bit_index(h, key) {
                        (right, left)
                    } else {
                        (left, right)
                    };
                    siblings.push(
                        Node::ComputedNode(ComputedNode::new(sibling.node_hash(), sibling.node_sum())),
                    );
                    proof {
                        let levels = commitments(siblings@);
                        lemma_climb_extend(key@, next@.commitment(), levels, 0, h as nat);
                        lemma_climb_levels(key@, here, upper, levels, 0, h as nat);
                    }
                    current = &**next;
                    h = h + 1;
                },
                None => {
                    push_defaults(ctx, &mut siblings, 256);
                    let leaf = LeafNode::empty();
                    proof {
                        let levels = commitments(siblings@);
                        lemma_default_commit(current@, h as nat);
                        lemma_climb_single(key@, empty_leaf(), levels, h as nat);
                        lemma_compact_empty(h as nat, key@);
                        lemma_climb_split(key@, leaf@.commitment(), levels, 0, h as nat, 256);
                        lemma_climb_levels(key@, here, upper, levels, 0, h as nat);
                    }
                    return (siblings, leaf);
                },
            },
            Node::ComputedNode(_) => {
                push_defaults(ctx, &mut siblings, 256);
                let leaf = LeafNode::empty();
                proof {
                    let levels = commitments(siblings@);
                    lemma_default_commit(current@, h as nat);
                    lemma_climb_single(key@, empty_leaf(), levels, h as nat);
                    lemma_compact_empty(h as nat, key@);
                    lemma_climb_split(key@, leaf@.commitment(), levels, 0, h as nat, 256);
                    lemma_climb_levels(key@, here, upper, levels, 0, h as nat);
                }
                return (siblings, leaf);
            },
            Node::CompactedLeafNode(c) => {
                if suffix_eq(&c.key, key, h) {
                    push_defaults(ctx, &mut siblings, 256);
                    let leaf = c.leaf_node.copy();
                    proof {
                        let levels = commitments(siblings@);
                        lemma_climb_single(key@, leaf@, levels, h as nat);
                        lemma_compact_same_key(h as nat, c@.key, key@, leaf@);
                        lemma_climb_split(key@, leaf@.commitment(), levels, 0, h as nat, 256);
                        lemma_climb_levels(key@, here, upper, levels, 0, h as nat);
                    }
                    return (siblings, leaf);
                } else {
                    proof {
                        if same_from(key@, c@.key, h as int) {
                            assert(same_from(c@.key, key@, h as int));
                        }
                    }
                    let d = first_difference(key, &c.key, h);
                    push_defaults(ctx, &mut siblings, d);
                    let below = CompactedLeafNode::new(
                        ctx,
                        d + 1,
                        crate::node::copy_bytes(&c.leaf_node.value),
                        c.leaf_node.sum,
                        c.key,
                    );
                    siblings.push(Node::ComputedNode(ComputedNode::new(below.node_hash(), below.node_sum())));
                    push_defaults(ctx, &mut siblings, 256);
                    let leaf = LeafNode::empty();
                    proof {
                        let levels = commitments(siblings@);
                        lemma_climb_beside(key@, c@.key, c@.leaf, levels, h as nat, d as nat);
                        lemma_climb_split(key@, leaf@.commitment(), levels, 0, h as nat, 256);
                        lemma_climb_levels(key@, here, upper, levels, 0, h as nat);
                    }
                    return (siblings, leaf);
                }
            },
        }
    }
}

} // verus!
