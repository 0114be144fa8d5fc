//! The mathematical model of nodes: what a node commits to and which leaf it
//! holds for each key.

use crate::hashing::{branch_hash, leaf_hash};
use crate::key::{bit, lemma_with_bit, same_from, same_until, with_bit};
use vstd::prelude::*;

verus! {

/// What a leaf holds: a value and a sum.
pub struct LeafData {
    pub value: Seq<u8>,
    pub sum: u64,
}

/// What a node commits to: a digest and the sum of the leaves below it.
pub struct Commitment {
    pub hash: Seq<u8>,
    pub sum: nat,
}

/// The leaf that stands for "no entry": no value and sum 0.
pub open spec fn empty_leaf() -> LeafData {
    LeafData { value: Seq::empty(), sum: 0 }
}

impl LeafData {
    /// A leaf is empty when it has no value and sum 0.
    pub open spec fn is_empty(self) -> bool {
        self.value.len() == 0 && self.sum == 0
    }

    /// The commitment of a leaf.
    pub open spec fn commitment(self) -> Commitment {
        Commitment { hash: leaf_hash(self.value, self.sum), sum: self.sum as nat }
    }
}

/// The commitment of a branch over two children.
pub open spec fn branch_commit(left: Commitment, right: Commitment) -> Commitment {
    Commitment {
        hash: branch_hash(left.hash, right.hash, (left.sum + right.sum) as u64),
        sum: left.sum + right.sum,
    }
}

/// The commitment of a child and its sibling, put in the order that the
/// key bit of the child tells: a set bit puts the child on the right.
pub open spec fn join(child_is_right: bool, child: Commitment, sibling: Commitment) -> Commitment {
    if child_is_right {
        branch_commit(sibling, child)
    } else {
        branch_commit(child, sibling)
    }
}

/// The commitment of the subtree at height `h` that holds no entry.
pub open spec fn empty_commit(h: nat) -> Commitment
    decreases 256 - h,
{
    if h >= 256 {
        empty_leaf().commitment()
    } else {
        branch_commit(empty_commit(h + 1), empty_commit(h + 1))
    }
}

/// The commitment of the subtree at height `h` whose only entry is `leaf`,
/// at the place that the bits of `key` from `h` on lead to.
pub open spec fn compact_commit(h: nat, key: Seq<u8>, leaf: LeafData) -> Commitment
    decreases 256 - h,
{
    if h >= 256 {
        leaf.commitment()
    } else {
        join(bit(key, h as int), compact_commit(h + 1, key, leaf), empty_commit(h + 1))
    }
}

/// The model of a compacted leaf.
pub struct CompactedView {
    pub leaf: LeafData,
    pub key: Seq<u8>,
    pub height: nat,
    pub hash: Seq<u8>,
}

/// The model of a branch.
pub struct BranchView {
    pub children: Option<(Box<NodeView>, Box<NodeView>)>,
    pub hash: Seq<u8>,
    pub sum: u64,
}

/// The model of a node.
pub enum NodeView {
    Leaf(LeafData),
    Branch(BranchView),
    Computed(Commitment),
    Compacted(CompactedView),
}

impl CompactedView {
    pub open spec fn commitment(self) -> Commitment {
        Commitment { hash: self.hash, sum: self.leaf.sum as nat }
    }

    /// The stored digest is that of the subtree that the node stands for.
    pub open spec fn wf(self) -> bool {
        &&& self.height <= 256
        &&& self.key.len() == 32
        &&& self.commitment() == compact_commit(self.height, self.key, self.leaf)
    }
}

impl BranchView {
    pub open spec fn commitment(self) -> Commitment {
        Commitment { hash: self.hash, sum: self.sum as nat }
    }

    pub open spec fn wf(self, h: nat) -> bool {
        NodeView::Branch(self).wf(h)
    }
}

impl NodeView {
    /// What the node commits to.
    pub open spec fn commitment(self) -> Commitment {
        match self {
            NodeView::Leaf(l) => l.commitment(),
            NodeView::Branch(b) => b.commitment(),
            NodeView::Computed(c) => c,
            NodeView::Compacted(c) => c.commitment(),
        }
    }

    /// The node is known to hold no entry by its form alone: an empty leaf,
    /// or a node without children.
    pub open spec fn is_default(self) -> bool {
        match self {
            NodeView::Leaf(l) => l.is_empty(),
            NodeView::Branch(b) => b.children is None,
            NodeView::Computed(_) => true,
            NodeView::Compacted(_) => false,
        }
    }

    /// The node is a well-formed subtree at height `h`: every commitment in
    /// it is the one that its content gives, and no sum exceeds 64 bits.
    pub open spec fn wf(self, h: nat) -> bool
        decreases self,
    {
        match self {
            NodeView::Leaf(_) => h == 256,
            NodeView::Computed(c) => h <= 256 && c == empty_commit(h),
            NodeView::Compacted(c) => c.height == h && c.wf(),
            NodeView::Branch(b) => h < 256 && match b.children {
                None => b.commitment() == empty_commit(h),
                Some((l, r)) => {
                    &&& l.wf(h + 1)
                    &&& r.wf(h + 1)
                    &&& l.commitment().sum + r.commitment().sum <= u64::MAX
                    &&& b.commitment() == branch_commit(l.commitment(), r.commitment())
                },
            },
        }
    }

    /// No part of the subtree is a compacted leaf.
    pub open spec fn plain(self) -> bool
        decreases self,
    {
        match self {
            NodeView::Leaf(_) => true,
            NodeView::Computed(_) => true,
            NodeView::Compacted(_) => false,
            NodeView::Branch(b) => match b.children {
                None => true,
                Some((l, r)) => l.plain() && r.plain(),
            },
        }
    }

    /// The node is a compacted leaf.
    pub open spec fn is_compacted(self) -> bool {
        self is Compacted
    }

    /// The subtree at height `h` on the path of `path` is as small as its
    /// entries allow: where it holds no entry it is a default node, where it
    /// holds one it is a compacted leaf whose key lies on the path, and a
    /// branch with children stands only where there are two entries or
    /// more, or at the root.
    pub open spec fn compact(self, h: nat, path: Seq<u8>) -> bool
        decreases self,
    {
        match self {
            NodeView::Leaf(l) => l.is_empty(),
            NodeView::Computed(_) => true,
            NodeView::Compacted(c) => !c.leaf.is_empty() && same_until(c.key, path, h as int),
            NodeView::Branch(b) => match b.children {
                None => true,
                Some((l, r)) => {
                    &&& l.compact(h + 1, with_bit(path, h as int, false))
                    &&& r.compact(h + 1, with_bit(path, h as int, true))
                    &&& !(l.is_default() && r.is_default())
                    &&& h > 0 ==> !(l.is_default() && r.is_compacted()) && !(l.is_compacted()
                        && r.is_default())
                },
            },
        }
    }

    /// The leaf that the subtree at height `h` holds for `key`; the empty
    /// leaf where it holds none.
    pub open spec fn leaf_at(self, h: nat, key: Seq<u8>) -> LeafData
        decreases self,
    {
        match self {
            NodeView::Leaf(l) => l,
            NodeView::Computed(_) => empty_leaf(),
            NodeView::Compacted(c) => if same_from(c.key, key, h as int) {
                c.leaf
            } else {
                empty_leaf()
            },
            NodeView::Branch(b) => match b.children {
                None => empty_leaf(),
                Some((l, r)) => if bit(key, h as int) {
                    r.leaf_at(h + 1, key)
                } else {
                    l.leaf_at(h + 1, key)
                },
            },
        }
    }
}

/// An empty subtree has sum 0.
pub proof fn lemma_empty_sum(h: nat)
    ensures
        empty_commit(h).sum == 0,
    decreases 256 - h,
{
    if h < 256 {
        lemma_empty_sum(h + 1);
    }
}

/// A subtree with one entry has the sum of that entry.
pub proof fn lemma_compact_sum(h: nat, key: Seq<u8>, leaf: LeafData)
    ensures
        compact_commit(h, key, leaf).sum == leaf.sum,
    decreases 256 - h,
{
    if h < 256 {
        lemma_compact_sum(h + 1, key, leaf);
        lemma_empty_sum(h + 1);
    }
}

/// The commitment of a subtree with one entry depends on the key only by
/// its bits from `h` on.
pub proof fn lemma_compact_same_key(h: nat, a: Seq<u8>, b: Seq<u8>, leaf: LeafData)
    requires
        same_from(a, b, h as int),
    ensures
        compact_commit(h, a, leaf) == compact_commit(h, b, leaf),
    decreases 256 - h,
{
    if h < 256 {
        lemma_compact_same_key(h + 1, a, b, leaf);
        assert(bit(a, h as int) == bit(b, h as int));
    }
}

/// A subtree whose one entry is the empty leaf commits as an empty subtree.
pub proof fn lemma_compact_empty(h: nat, key: Seq<u8>)
    ensures
        compact_commit(h, key, empty_leaf()) == empty_commit(h),
    decreases 256 - h,
{
    if h < 256 {
        lemma_compact_empty(h + 1, key);
    }
}

/// A node that holds no entry by its form commits as an empty subtree.
pub proof fn lemma_default_commit(n: NodeView, h: nat)
    requires
        n.wf(h),
        n.is_default(),
    ensures
        n.commitment() == empty_commit(h),
        forall|key: Seq<u8>| (#[trigger] n.leaf_at(h, key)).is_empty(),
{
    match n {
        NodeView::Leaf(l) => {
            assert(l.value =~= empty_leaf().value);
        },
        _ => {},
    }
}

/// No leaf of a well-formed subtree has a sum above that of the subtree.
pub proof fn lemma_leaf_sum_bound(n: NodeView, h: nat, key: Seq<u8>)
    requires
        n.wf(h),
    ensures
        n.leaf_at(h, key).sum <= n.commitment().sum,
    decreases n,
{
    match n {
        NodeView::Branch(b) => match b.children {
            Some((l, r)) => {
                lemma_leaf_sum_bound(*l, h + 1, key);
                lemma_leaf_sum_bound(*r, h + 1, key);
            },
            None => {},
        },
        _ => {},
    }
}

/// Whether a subtree is compact depends on its path only by the bits
/// before its height.
pub proof fn lemma_compact_path(n: NodeView, h: nat, a: Seq<u8>, b: Seq<u8>)
    requires
        a.len() == 32,
        b.len() == 32,
        h <= 256,
        same_until(a, b, h as int),
        n.wf(h),
    ensures
        n.compact(h, a) == n.compact(h, b),
    decreases n,
{
    match n {
        NodeView::Compacted(c) => {
            if same_until(c.key, a, h as int) {
                assert forall|i: int| 0 <= i < h implies bit(c.key, i) == bit(b, i) by {
                    assert(bit(c.key, i) == bit(a, i));
                    assert(bit(a, i) == bit(b, i));
                }
            }
            if same_until(c.key, b, h as int) {
                assert forall|i: int| 0 <= i < h implies bit(c.key, i) == bit(a, i) by {
                    assert(bit(c.key, i) == bit(b, i));
                    assert(bit(a, i) == bit(b, i));
                }
            }
        },
        NodeView::Branch(br) => match br.children {
            Some((l, r)) => {
                lemma_same_until_child(a, b, h as int, false);
                lemma_same_until_child(a, b, h as int, true);
                lemma_compact_path(*l, h + 1, with_bit(a, h as int, false), with_bit(b, h as int, false));
                lemma_compact_path(*r, h + 1, with_bit(a, h as int, true), with_bit(b, h as int, true));
            },
            None => {},
        },
        _ => {},
    }
}

/// Paths that agree before `h` lead to children that agree before `h + 1`.
pub proof fn lemma_same_until_child(a: Seq<u8>, b: Seq<u8>, h: int, side: bool)
    requires
        a.len() == 32,
        b.len() == 32,
        0 <= h < 256,
        same_until(a, b, h),
    ensures
        with_bit(a, h, side).len() == 32,
        with_bit(b, h, side).len() == 32,
        same_until(with_bit(a, h, side), with_bit(b, h, side), h + 1),
{
    lemma_with_bit(a, h, side, 0);
    lemma_with_bit(b, h, side, 0);
    assert forall|i: int| 0 <= i < h + 1 implies bit(with_bit(a, h, side), i) == bit(
        with_bit(b, h, side),
        i,
    ) by {
        lemma_with_bit(a, h, side, i);
        lemma_with_bit(b, h, side, i);
        if i < h {
            assert(bit(a, i) == bit(b, i));
        }
    }
}

/// A key lies on the path of its own child at each level: setting a bit of
/// a key to the value that it has leaves the path as it is.
pub proof fn lemma_own_child(key: Seq<u8>, h: int)
    requires
        key.len() == 32,
        0 <= h < 256,
    ensures
        with_bit(key, h, bit(key, h)).len() == 32,
        same_until(key, with_bit(key, h, bit(key, h)), h + 1),
        same_until(with_bit(key, h, bit(key, h)), key, h + 1),
{
    lemma_with_bit(key, h, bit(key, h), 0);
    assert forall|i: int| 0 <= i < h + 1 implies bit(key, i) == bit(with_bit(key, h, bit(key, h)), i) by {
        lemma_with_bit(key, h, bit(key, h), i);
    }
}

} // verus!
