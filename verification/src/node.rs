//! The nodes of the tree: leaves, branches, computed nodes and compacted
//! leaves.

use crate::context::TaroContext;
use crate::hashing::{hash_branch, hash_eq, hash_leaf, NodeHash};
use crate::key::{bit, bit_index, same_from, Key};
use crate::model::{
    branch_commit, compact_commit, empty_leaf, lemma_compact_sum, lemma_default_commit,
    lemma_empty_sum, BranchView, Commitment, CompactedView, LeafData, NodeView,
};
use std::sync::Arc;
use vstd::prelude::*;

verus! {

/// What every node offers: the digest and the sum that it commits to, and a
/// copy of itself.
pub trait MSSMTNode: Sized + View {
    /// What the node commits to.
    spec fn commitment(&self) -> Commitment;

    /// Returns the digest that identifies the node.
    fn node_hash(&self) -> (r: NodeHash)
        ensures
            r@ == self.commitment().hash,
    ;

    /// Returns the sum that the node commits to.
    fn node_sum(&self) -> (r: u64)
        ensures
            r == self.commitment().sum,
    ;

    /// Returns a copy of the node: a node with the same model.
    fn copy(&self) -> (r: Self)
        ensures
            r@ == self@,
    ;
}

/// A leaf: a value and a sum.
#[derive(Debug)]
pub struct LeafNode {
    pub value: Vec<u8>,
    pub sum: u64,
}

/// A node of which only the commitment is known.
#[derive(Debug)]
pub struct ComputedNode {
    pub hash: NodeHash,
    pub sum: u64,
}

/// An inner node. It commits to both children and to the sum of their sums.
/// A branch without children stands for a subtree known by its commitment
/// alone.
#[derive(Debug)]
pub struct BranchNode {
    pub children: Option<(Arc<Node>, Arc<Node>)>,
    pub hash: NodeHash,
    pub sum: u64,
}

/// A leaf that stands for the whole subtree at `height` of which it is the
/// only entry.
#[derive(Debug)]
pub struct CompactedLeafNode {
    pub leaf_node: LeafNode,
    pub key: Key,
    pub height: usize,
    pub compacted_node_hash: NodeHash,
}

/// A node of any form.
#[derive(Debug)]
pub enum Node {
    BranchNode(BranchNode),
    LeafNode(LeafNode),
    ComputedNode(ComputedNode),
    CompactedLeafNode(CompactedLeafNode),
}

/// The model of a node.
pub open spec fn node_view(n: Node) -> NodeView
    decreases n,
{
    match n {
        Node::LeafNode(l) => NodeView::Leaf(l@),
        Node::ComputedNode(c) => NodeView::Computed(c@),
        Node::CompactedLeafNode(c) => NodeView::Compacted(c@),
        Node::BranchNode(b) => NodeView::Branch(
            BranchView {
                children: match b.children {
                    Some((l, r)) => Some((Box::new(node_view(*l)), Box::new(node_view(*r)))),
                    None => None,
                },
                hash: b.hash@,
                sum: b.sum,
            },
        ),
    }
}

impl View for LeafNode {
    type V = LeafData;

    open spec fn view(&self) -> LeafData {
        LeafData { value: self.value@, sum: self.sum }
    }
}

impl View for ComputedNode {
    type V = Commitment;

    open spec fn view(&self) -> Commitment {
        Commitment { hash: self.hash@, sum: self.sum as nat }
    }
}

impl View for CompactedLeafNode {
    type V = CompactedView;

    open spec fn view(&self) -> CompactedView {
        CompactedView {
            leaf: self.leaf_node@,
            key: self.key@,
            height: self.height as nat,
            hash: self.compacted_node_hash@,
        }
    }
}

impl View for Node {
    type V = NodeView;

    open spec fn view(&self) -> NodeView {
        node_view(*self)
    }
}

impl View for BranchNode {
    type V = BranchView;

    open spec fn view(&self) -> BranchView {
        node_view(Node::BranchNode(*self))->Branch_0
    }
}

/// Calls `Arc::clone`, which hands out another pointer to the same
/// allocation. The contract states that the node behind the new pointer is
/// the node behind the old one.
#[verifier::external_body]
pub(crate) fn share(a: &Arc<Node>) -> (r: Arc<Node>)
    ensures
        *r == **a,
{
    Arc::clone(a)
}

/// Copies the bytes of a value.
pub(crate) fn copy_bytes(v: &Vec<u8>) -> (r: Vec<u8>)
    ensures
        r@ == v@,
{
    let mut out: Vec<u8> = Vec::new();
    let mut i: usize = 0;
    while i < v.len()
        invariant
            i <= v.len(),
            out@ == v@.take(i as int),
        decreases v.len() - i,
    {
        out.push(v[i]);
        i = i + 1;
        assert(out@ =~= v@.take(i as int));
    }
    assert(v@.take(v@.len() as int) =~= v@);
    out
}

impl LeafNode {
    /// Makes a leaf of a value and a sum.
    pub fn new(value: Vec<u8>, sum: u64) -> (r: Self)
        ensures
            r@ == (LeafData { value: value@, sum }),
    {
        LeafNode { value, sum }
    }

    /// Makes the leaf that stands for "no entry".
    pub fn empty() -> (r: Self)
        ensures
            r@ == empty_leaf(),
    {
        LeafNode { value: Vec::new(), sum: 0 }
    }

    /// Tells whether this is the leaf that stands for "no entry".
    pub fn is_empty(&self) -> (r: bool)
        ensures
            r == self@.is_empty(),
    {
        self.value.len() == 0 && self.sum == 0
    }

    /// Tells whether this leaf and `other` commit to the same digest and
    /// sum.
    pub fn is_equal(&self, other: &Node) -> (r: bool)
        ensures
            r == (self@.commitment() == other@.commitment()),
    {
        let a = self.node_hash();
        let b = other.node_hash();
        hash_eq(&a, &b) && self.sum == other.node_sum()
    }
}

impl MSSMTNode for LeafNode {
    open spec fn commitment(&self) -> Commitment {
        self@.commitment()
    }

    fn node_hash(&self) -> (r: NodeHash) {
        hash_leaf(&self.value, self.sum)
    }

    fn node_sum(&self) -> (r: u64) {
        self.sum
    }

    fn copy(&self) -> (r: Self) {
        LeafNode { value: copy_bytes(&self.value), sum: self.sum }
    }
}

impl ComputedNode {
    /// Makes a node of a digest and a sum.
    pub fn new(hash: NodeHash, sum: u64) -> (r: Self)
        ensures
            r@ == (Commitment { hash: hash@, sum: sum as nat }),
    {
        ComputedNode { hash, sum }
    }
}

impl MSSMTNode for ComputedNode {
    open spec fn commitment(&self) -> Commitment {
        self@
    }

    fn node_hash(&self) -> (r: NodeHash) {
        self.hash
    }

    fn node_sum(&self) -> (r: u64) {
        self.sum
    }

    fn copy(&self) -> (r: Self) {
        ComputedNode { hash: self.hash, sum: self.sum }
    }
}

impl BranchNode {
    /// Makes a branch without children from a digest and a sum.
    pub fn new_computed_branch(node_hash: NodeHash, sum: u64) -> (r: Self)
        ensures
            r@ == (BranchView { children: None, hash: node_hash@, sum }),
    {
        BranchNode { children: None, hash: node_hash, sum }
    }

    /// Makes the branch over two children. Its sum is the sum of theirs, its
    /// digest commits to both digests and that sum.
    pub fn new_branch(left: Arc<Node>, right: Arc<Node>) -> (r: Self)
        requires
            left@.commitment().sum + right@.commitment().sum <= u64::MAX,
        ensures
            r@.children == Some((Box::new(left@), Box::new(right@))),
            r@.commitment() == branch_commit(left@.commitment(), right@.commitment()),
    {
        let sum: u64 = left.node_sum() + right.node_sum();
        let lh = left.node_hash();
        let rh = right.node_hash();
        let hash = hash_branch(&lh, &rh, sum);
        BranchNode { children: Some((left, right)), hash, sum }
    }

    /// Tells whether this branch and `other` commit to the same digest and
    /// sum.
    pub fn is_equal(&self, other: &Node) -> (r: bool)
        ensures
            r == (self@.commitment() == other@.commitment()),
    {
        let b = other.node_hash();
        hash_eq(&self.hash, &b) && self.sum == other.node_sum()
    }

    /// Folds `f` over the sums of the leaves below the branch, from left to
    /// right, starting from `initial`. A node without children adds
    /// nothing; a compacted leaf adds the sum of its leaf.
    pub fn fold<F, X>(&self, f: &F, initial: X) -> (r: X) where F: Fn(X, &u64) -> X
        requires
            forall|x: X, s: &u64| call_requires(*f, (x, s)),
        ensures
            folds(NodeView::Branch(self@), *f, initial, r),
        decreases *self,
    {
        match &self.children {
            Some((left, right)) => {
                let mid = fold_node(&**left, f, initial);
                let r = fold_node(&**right, f, mid);
                proof {
                    assert(self@.children == Some((Box::new(left@), Box::new(right@))));
                    assert(folds(left@, *f, initial, mid) && folds(right@, *f, mid, r));
                    assert(between(mid));
                }
                r
            },
            None => {
                proof {
                    assert(self@.children is None);
                }
                initial
            },
        }
    }
}

/// Marks the value that a fold has reached between two subtrees.
pub open spec fn between<X>(mid: X) -> bool {
    true
}

/// `to` is a value that folding `f` over the sums of the leaves of `n`, from
/// left to right, can give from `from`.
pub open spec fn folds<F: Fn(X, &u64) -> X, X>(n: NodeView, f: F, from: X, to: X) -> bool
    decreases n,
{
    match n {
        NodeView::Leaf(l) => call_ensures(f, (from, &l.sum), to),
        NodeView::Compacted(c) => call_ensures(f, (from, &c.leaf.sum), to),
        NodeView::Computed(_) => to == from,
        NodeView::Branch(b) => match b.children {
            None => to == from,
            Some((l, r)) => exists|mid: X| #[trigger]
                between(mid) && folds(*l, f, from, mid) && folds(*r, f, mid, to),
        },
    }
}

/// Folds `f` over the sums of the leaves of a node, from left to right.
pub fn fold_node<F, X>(node: &Node, f: &F, initial: X) -> (r: X) where F: Fn(X, &u64) -> X
    requires
        forall|x: X, s: &u64| call_requires(*f, (x, s)),
    ensures
        folds(node@, *f, initial, r),
    decreases *node,
{
    match node {
        Node::LeafNode(l) => f(initial, &l.sum),
        Node::CompactedLeafNode(c) => f(initial, &c.leaf_node.sum),
        Node::ComputedNode(_) => initial,
        Node::BranchNode(b) => b.fold(f, initial),
    }
}

impl MSSMTNode for BranchNode {
    open spec fn commitment(&self) -> Commitment {
        self@.commitment()
    }

    fn node_hash(&self) -> (r: NodeHash) {
        self.hash
    }

    fn node_sum(&self) -> (r: u64) {
        self.sum
    }

    fn copy(&self) -> (r: Self) {
        match &self.children {
            Some((l, r)) => BranchNode {
                children: Some((share(l), share(r))),
                hash: self.hash,
                sum: self.sum,
            },
            None => BranchNode { children: None, hash: self.hash, sum: self.sum },
        }
    }
}

impl CompactedLeafNode {
    /// Makes the compacted leaf for the subtree at `height` whose only
    /// entry is the leaf `(value, sum)` under `key`.
    pub fn new(ctx: &TaroContext, height: usize, value: Vec<u8>, sum: u64, key: Key) -> (r: Self)
        requires
            ctx.wf(),
            height <= 256,
        ensures
            r@.leaf == (LeafData { value: value@, sum }),
            r@.key == key@,
            r@.height == height,
            r@.wf(),
    {
        let leaf_node = LeafNode { value, sum };
        let mut current: NodeHash = leaf_node.node_hash();
        let mut i: usize = 256;
        while i > height
            invariant
                ctx.wf(),
                height <= i <= 256,
                current@ == compact_commit(i as nat, key@, leaf_node@).hash,
                leaf_node.sum == sum,
            decreases i,
        {
            i = i - 1;
            let empty = ctx.empty_hash(i + 1);
            proof {
                lemma_compact_sum((i + 1) as nat, key@, leaf_node@);
                lemma_empty_sum((i + 1) as nat);
            }
            if bit_index(i, &key) {
                current = hash_branch(&empty, &current, sum);
            } else {
                current = hash_branch(&current, &empty, sum);
            }
        }
        proof {
            lemma_compact_sum(height as nat, key@, leaf_node@);
        }
        CompactedLeafNode { leaf_node, key, height, compacted_node_hash: current }
    }

    /// Builds the subtree that the node stands for: the leaf at height 256
    /// and, above it, one branch for each level up to the height of the
    /// node, each with the default node of its height as the other child.
    pub fn extract(&self, ctx: &TaroContext) -> (r: Node)
        requires
            ctx.wf(),
            self@.wf(),
        ensures
            r@.wf(self@.height),
            r@.plain(),
            r@.commitment() == self@.commitment(),
            forall|k: Seq<u8>| #[trigger]
                r@.leaf_at(self@.height, k) == NodeView::Compacted(self@).leaf_at(self@.height, k),
    {
        let mut current = Node::LeafNode(self.leaf_node.copy());
        let mut i: usize = 256;
        proof {
            assert forall|k: Seq<u8>| same_from(self@.key, k, 256) by {}
        }
        while i > self.height
            invariant
                ctx.wf(),
                self.height <= i <= 256,
                current@.wf(i as nat),
                current@.plain(),
                current@.commitment() == compact_commit(i as nat, self@.key, self@.leaf),
                forall|k: Seq<u8>| #[trigger]
                    current@.leaf_at(i as nat, k) == NodeView::Compacted(self@).leaf_at(i as nat, k),
            decreases i,
        {
            i = i - 1;
            let empty = ctx.empty_node(i + 1);
            let ghost below = current@;
            let ghost ev = empty@;
            proof {
                lemma_compact_sum((i + 1) as nat, self@.key, self@.leaf);
                lemma_empty_sum((i + 1) as nat);
                lemma_default_commit(ev, (i + 1) as nat);
            }
            let branch = if bit_index(i, &self.key) {
                BranchNode::new_branch(Arc::new(empty), Arc::new(current))
            } else {
                BranchNode::new_branch(Arc::new(current), Arc::new(empty))
            };
            current = Node::BranchNode(branch);
            proof {
                assert(ev.plain());
                assert forall|k: Seq<u8>| #[trigger]
                    current@.leaf_at(i as nat, k) == NodeView::Compacted(self@).leaf_at(i as nat, k) by {
                    assert(below.leaf_at((i + 1) as nat, k) == NodeView::Compacted(self@).leaf_at(
                        (i + 1) as nat,
                        k,
                    ));
                    assert(ev.leaf_at((i + 1) as nat, k).is_empty());
                    assert(ev.leaf_at((i + 1) as nat, k).value =~= empty_leaf().value);
                    if same_from(self@.key, k, i as int) {
                        assert(bit(self@.key, i as int) == bit(k, i as int));
                        assert(same_from(self@.key, k, i + 1));
                    }
                    if bit(self@.key, i as int) == bit(k, i as int) && same_from(self@.key, k, i + 1) {
                        assert forall|j: int| i <= j < 256 implies bit(self@.key, j) == bit(k, j) by {
                            if j > i {
                                assert(i + 1 <= j);
                            }
                        }
                    }
                }
            }
        }
        current
    }

    /// Returns the key of the leaf.
    pub fn key(&self) -> (r: Key)
        ensures
            r@ == self@.key,
    {
        self.key
    }

}

impl MSSMTNode for CompactedLeafNode {
    open spec fn commitment(&self) -> Commitment {
        self@.commitment()
    }

    /// Returns the digest of the subtree that the node stands for.
    fn node_hash(&self) -> (r: NodeHash) {
        self.compacted_node_hash
    }

    /// Returns the sum of the leaf.
    fn node_sum(&self) -> (r: u64) {
        self.leaf_node.sum
    }

    fn copy(&self) -> (r: Self) {
        CompactedLeafNode {
            leaf_node: self.leaf_node.copy(),
            key: self.key,
            height: self.height,
            compacted_node_hash: self.compacted_node_hash,
        }
    }
}

impl Node {
    /// Returns the digest that identifies the node.
    pub fn node_hash(&self) -> (r: NodeHash)
        ensures
            r@ == self@.commitment().hash,
    {
        match self {
            Node::LeafNode(l) => l.node_hash(),
            Node::BranchNode(b) => b.node_hash(),
            Node::ComputedNode(c) => c.node_hash(),
            Node::CompactedLeafNode(c) => c.node_hash(),
        }
    }

    /// Returns the sum that the node commits to.
    pub fn node_sum(&self) -> (r: u64)
        ensures
            r == self@.commitment().sum,
    {
        match self {
            Node::LeafNode(l) => l.node_sum(),
            Node::BranchNode(b) => b.node_sum(),
            Node::ComputedNode(c) => c.node_sum(),
            Node::CompactedLeafNode(c) => c.node_sum(),
        }
    }

    /// Returns a copy of the node. The children of a branch are shared, not
    /// copied.
    pub fn copy(&self) -> (r: Self)
        ensures
            r@ == self@,
    {
        match self {
            Node::LeafNode(l) => Node::LeafNode(l.copy()),
            Node::BranchNode(b) => Node::BranchNode(b.copy()),
            Node::ComputedNode(c) => Node::ComputedNode(c.copy()),
            Node::CompactedLeafNode(c) => Node::CompactedLeafNode(c.copy()),
        }
    }

    /// Tells whether the node holds no entry by its form alone.
    pub fn is_default(&self) -> (r: bool)
        ensures
            r == self@.is_default(),
    {
        match self {
            Node::LeafNode(l) => l.is_empty(),
            Node::BranchNode(b) => b.children.is_none(),
            Node::ComputedNode(_) => true,
            Node::CompactedLeafNode(_) => false,
        }
    }

    /// Tells whether two nodes commit to the same digest and sum.
    pub fn is_equal(&self, other: &Node) -> (r: bool)
        ensures
            r == (self@.commitment() == other@.commitment()),
    {
        let a = self.node_hash();
        let b = other.node_hash();
        hash_eq(&a, &b) && self.node_sum() == other.node_sum()
    }
}

} // verus!
