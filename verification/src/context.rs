//! The constants of the tree and the ladder of empty subtrees.

use crate::errors::TaroContextError;
use crate::hashing::{hash_branch, NodeHash};
use crate::model::{empty_commit, empty_leaf, lemma_empty_sum};
use crate::node::{BranchNode, LeafNode, MSSMTNode, Node};
use vstd::prelude::*;

verus! {

/// The largest value that a leaf may hold, in bytes.
pub const MAX_LEAF_SIZE: usize = 16777215;

/// The constants of the tree, with one default node for each height: the
/// node at index `h` commits to the subtree at height `h` that holds no
/// entry.
pub struct TaroContext {
    pub hash_size: usize,
    pub max_leaf_size: usize,
    pub empty_leaf_node: LeafNode,
    pub max_tree_levels: usize,
    pub last_bit_index: usize,
    pub empty_tree: Vec<Node>,
}

impl TaroContext {
    /// The ladder holds 257 nodes, and the node at each height is the
    /// default node of that height.
    pub open spec fn wf(&self) -> bool {
        &&& self.hash_size == 32
        &&& self.max_leaf_size == MAX_LEAF_SIZE
        &&& self.empty_leaf_node@ == empty_leaf()
        &&& self.max_tree_levels == 256
        &&& self.last_bit_index == 255
        &&& self.empty_tree@.len() == 257
        &&& forall|h: int|
            0 <= h <= 256 ==> {
                &&& (#[trigger] self.empty_tree@[h])@.wf(h as nat)
                &&& self.empty_tree@[h]@.is_default()
                &&& self.empty_tree@[h]@.commitment() == empty_commit(h as nat)
            }
    }

    /// Builds the context: the constants, and the ladder from the empty
    /// leaf at height 256 up to the empty root.
    pub fn init() -> (r: Result<Self, TaroContextError>)
        ensures
            r is Ok,
            r->Ok_0.wf(),
    {
        let mut below: NodeHash = LeafNode::empty().node_hash();
        let mut rev: Vec<Node> = Vec::new();
        rev.push(Node::LeafNode(LeafNode::empty()));
        let mut i: usize = 256;
        while i > 0
            invariant
                i <= 256,
                rev@.len() == 257 - i,
                below@ == empty_commit(i as nat).hash,
                forall|j: int|
                    0 <= j < rev@.len() ==> {
                        &&& (#[trigger] rev@[j])@.wf((256 - j) as nat)
                        &&& rev@[j]@.is_default()
                        &&& rev@[j]@.commitment() == empty_commit((256 - j) as nat)
                    },
            decreases i,
        {
            proof {
                lemma_empty_sum(i as nat);
                lemma_empty_sum((i - 1) as nat);
            }
            let hash = hash_branch(&below, &below, 0);
            i = i - 1;
            rev.push(Node::BranchNode(BranchNode::new_computed_branch(hash, 0)));
            below = hash;
        }
        let mut empty_tree: Vec<Node> = Vec::new();
        let mut h: usize = 0;
        while h <= 256
            invariant
                h <= 257,
                rev@.len() == 257,
                empty_tree@.len() == h,
                forall|j: int|
                    0 <= j < 257 ==> {
                        &&& (#[trigger] rev@[j])@.wf((256 - j) as nat)
                        &&& rev@[j]@.is_default()
                        &&& rev@[j]@.commitment() == empty_commit((256 - j) as nat)
                    },
                forall|k: int|
                    0 <= k < h ==> {
                        &&& (#[trigger] empty_tree@[k])@.wf(k as nat)
                        &&& empty_tree@[k]@.is_default()
                        &&& empty_tree@[k]@.commitment() == empty_commit(k as nat)
                    },
            decreases 257 - h,
        {
            let node = rev[256 - h].copy();
            empty_tree.push(node);
            h = h + 1;
        }
        Ok(
            TaroContext {
                hash_size: 32,
                max_leaf_size: MAX_LEAF_SIZE,
                empty_leaf_node: LeafNode::empty(),
                max_tree_levels: 256,
                last_bit_index: 255,
                empty_tree,
            },
        )
    }

    /// Returns the digest of the empty subtree at height `h`.
    pub fn empty_hash(&self, h: usize) -> (r: NodeHash)
        requires
            self.wf(),
            h <= 256,
        ensures
            r@ == empty_commit(h as nat).hash,
    {
        self.empty_tree[h].node_hash()
    }

    /// Returns the default node of height `h`.
    pub fn empty_node(&self, h: usize) -> (r: Node)
        requires
            self.wf(),
            h <= 256,
        ensures
            r@ == self.empty_tree@[h as int]@,
            r@.wf(h as nat),
            r@.is_default(),
            r@.commitment() == empty_commit(h as nat),
    {
        self.empty_tree[h].copy()
    }
}

} // verus!
