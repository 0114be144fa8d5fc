//! The tree: a map from 256-bit keys to leaves that commits to its entries
//! and to the sum of their sums.

use crate::content::{entries, lemma_commit_root, lemma_empty_is_unique, lookup, root_commit};
use crate::context::{TaroContext, MAX_LEAF_SIZE};
use crate::errors::MSSMTError;
use crate::key::{bit_index, lemma_key_by_bits, same_from, zero_key, Key};
use crate::merkle_proof::{by_level, commitments, proof_root, Proof};
use crate::model::{
    empty_commit, empty_leaf, lemma_compact_path, lemma_empty_sum, lemma_leaf_sum_bound, BranchView,
    LeafData, NodeView,
};
use crate::node::{BranchNode, LeafNode, MSSMTNode, Node};
use crate::store::{lemma_holds_path_extends, step, DefaultStore};
use crate::sums::{leaves_sum, lemma_tree_sum};
use crate::update::{insert_root, replaced};
use crate::walk::{find_leaf, path_siblings};
use vstd::pervasive::unreached;
use vstd::prelude::*;

verus! {

/// A Merkle-sum sparse Merkle tree in which a subtree with a single entry
/// is kept as one compacted leaf. The store holds the root and the nodes on
/// the paths that updates have written.
pub struct Tree {
    pub ctx: TaroContext,
    pub store: DefaultStore,
}

impl View for Tree {
    type V = Map<Seq<u8>, LeafData>;

    /// The entries of the tree: its non-empty leaves, each under its key.
    open spec fn view(&self) -> Map<Seq<u8>, LeafData> {
        entries(self.root_view())
    }
}

/// Records in the store the nodes of the subtree `node` that stand on the
/// path of `key`, and the compacted leaves next to that path.
fn index_path(store: &mut DefaultStore, node: &Node, h: usize, key: &Key)
    requires
        old(store).wf(),
        h <= 256,
        node@.wf(h as nat),
    ensures
        final(store).wf(),
        final(store).state().root == old(store).state().root,
        final(store).state().reads == old(store).state().reads,
        final(store).state().deletes == old(store).state().deletes,
        final(store).state().extends(old(store).state()),
        final(store).state().holds_path(node@, h as nat, key@),
    decreases 256 - h,
{
    match node {
        Node::BranchNode(b) => match &b.children {
            Some((left, right)) => {
                store.insert_branch(b.copy());
                let (next, sibling) = if bit_index(h, key) {
                    (right, left)
                } else {
                    (left, right)
                };
                match &**sibling {
                    Node::CompactedLeafNode(c) => {
                        store.insert_compacted_leaf(c.copy());
                    },
                    _ => {},
                }
                let ghost mid = store.state();
                index_path(store, &**next, h + 1, key);
                proof {
                    assert(mid.branches.contains_key(b@.hash));
                    assert(store.state().branches.dom().contains(b@.hash));
                    match sibling@ {
                        NodeView::Compacted(c) => {
                            assert(mid.compacted_leaves.contains_key(c.hash));
                            assert(store.state().compacted_leaves.dom().contains(c.hash));
                        },
                        _ => {},
                    }
                }
            },
            None => {},
        },
        Node::CompactedLeafNode(c) => {
            store.insert_compacted_leaf(c.copy());
        },
        Node::LeafNode(l) => {
            if !l.is_empty() {
                store.insert_leaf(l.copy());
            }
        },
        Node::ComputedNode(_) => {},
    }
}

/// Deletes from the store the records of the nodes of the subtree `node`
/// that stand on the path of `key`, and of the compacted leaves next to
/// that path.
fn unindex_path(store: &mut DefaultStore, node: &Node, h: usize, key: &Key)
    requires
        old(store).wf(),
        h <= 256,
        node@.wf(h as nat),
    ensures
        final(store).wf(),
        final(store).state() == old(store).state().without_path(node@, h as nat, key@),
    decreases 256 - h,
{
    let ghost before = store.state();
    let ghost gone = before.without_path(node@, h as nat, key@);
    match node {
        Node::BranchNode(b) => match &b.children {
            Some((left, right)) => {
                store.delete_branch(b.node_hash());
                let (next, sibling) = if bit_index(h, key) {
                    (right, left)
                } else {
                    (left, right)
                };
                match &**sibling {
                    Node::CompactedLeafNode(c) => {
                        store.delete_compacted_leaf(c.node_hash());
                    },
                    _ => {},
                }
                let ghost mid = store.state();
                unindex_path(store, &**next, h + 1, key);
                proof {
                    assert(step(left@, right@, h as nat, key@) == (next@, sibling@));
                    let after = mid.without_path(next@, (h + 1) as nat, key@);
                    assert(after.branches =~= gone.branches);
                    assert(after.leaves =~= gone.leaves);
                    assert(after.compacted_leaves =~= gone.compacted_leaves);
                    assert(after.deletes == gone.deletes);
                }
            },
            None => {
                proof {
                    assert(before.branches =~= gone.branches);
                    assert(before.leaves =~= gone.leaves);
                    assert(before.compacted_leaves =~= gone.compacted_leaves);
                }
            },
        },
        Node::CompactedLeafNode(c) => {
            store.delete_compacted_leaf(c.node_hash());
            proof {
                assert(store.state().branches =~= gone.branches);
                assert(store.state().leaves =~= gone.leaves);
                assert(store.state().compacted_leaves =~= gone.compacted_leaves);
            }
        },
        Node::LeafNode(l) => {
            if !l.is_empty() {
                store.delete_leaf(l.node_hash());
            }
            proof {
                assert(store.state().branches =~= gone.branches);
                assert(store.state().leaves =~= gone.leaves);
                assert(store.state().compacted_leaves =~= gone.compacted_leaves);
            }
        },
        Node::ComputedNode(_) => {
            proof {
                assert(before.branches =~= gone.branches);
                assert(before.leaves =~= gone.leaves);
                assert(before.compacted_leaves =~= gone.compacted_leaves);
            }
        },
    }
}

impl Tree {
    /// The model of the root: the root that the store holds, or the default
    /// branch of height 0 where it holds none.
    pub open spec fn root_view(&self) -> NodeView {
        match self.store.root {
            Some(b) => NodeView::Branch(b@),
            None => NodeView::Branch(BranchView { children: None, hash: empty_commit(0).hash, sum: 0 }),
        }
    }

    /// The context and the store are well formed, and the root is a
    /// well-formed tree in which every subtree with a single entry is one
    /// compacted leaf and every subtree without entries is a default node.
    pub open spec fn wf(&self) -> bool {
        &&& self.ctx.wf()
        &&& self.store.wf()
        &&& self.root_view().wf(0)
        &&& self.root_view().compact(0, zero_key())
    }

    /// Makes an empty tree over an empty store.
    pub fn new() -> (r: Self)
        ensures
            r.wf(),
            r@ == Map::<Seq<u8>, LeafData>::empty(),
            r.store.state() == DefaultStore::empty_state(),
    {
        let ctx = match TaroContext::init() {
            Ok(c) => c,
            Err(_) => unreached(),
        };
        let r = Tree { ctx, store: DefaultStore::new_default_store() };
        proof {
            lemma_empty_sum(0);
            assert(r@ =~= Map::<Seq<u8>, LeafData>::empty());
        }
        r
    }

    /// Returns the root as the store holds it.
    fn current_root(&self) -> (r: BranchNode)
        requires
            self.wf(),
        ensures
            NodeView::Branch(r@) == self.root_view(),
    {
        match &self.store.root {
            Some(b) => b.copy(),
            None => BranchNode::new_computed_branch(self.ctx.empty_hash(0), 0),
        }
    }

    /// Returns the root of the tree. It commits to the entries of the tree:
    /// its digest and its sum are those that the map of the entries
    /// determines.
    pub fn root(&self) -> (r: Result<BranchNode, MSSMTError>)
        requires
            self.wf(),
        ensures
            r matches Ok(b) && NodeView::Branch(b@) == self.root_view() && b@.commitment() == root_commit(
                self@,
            ) && b@.commitment().sum == leaves_sum(self@),
            self@.dom().finite(),
    {
        proof {
            lemma_commit_root(self.root_view());
            lemma_tree_sum(self.root_view());
        }
        Ok(self.current_root())
    }

    /// Returns the leaf under `key`; the empty leaf where the tree has no
    /// entry under it.
    pub fn get(&self, key: &Key) -> (r: Result<LeafNode, MSSMTError>)
        requires
            self.wf(),
        ensures
            r matches Ok(leaf) && leaf@ == lookup(self@, key@),
            !self@.contains_key(key@) ==> (r matches Ok(leaf) && leaf@ == empty_leaf()),
    {
        let root = Node::BranchNode(self.current_root());
        let leaf = find_leaf(&root, 0, key);
        proof {
            if leaf@.is_empty() {
                lemma_empty_is_unique(leaf@);
            }
        }
        Ok(leaf)
    }

    /// Puts `leaf` under `key`, in place of the leaf that stood there. An
    /// empty `leaf` removes the entry. Fails, and changes nothing, where
    /// the value of the leaf is too long or the sum of the tree would
    /// exceed 64 bits.
    pub fn insert(&mut self, key: Key, leaf: LeafNode) -> (r: Result<(), MSSMTError>)
        requires
            old(self).wf(),
        ensures
            final(self).wf(),
            final(self).ctx == old(self).ctx,
            match r {
                Ok(_) => {
                    &&& final(self)@ == (if leaf@.is_empty() {
                        old(self)@.remove(key@)
                    } else {
                        old(self)@.insert(key@, leaf@)
                    })
                    &&& final(self).store.state().root is Some
                    &&& final(self).store.state().holds_path(final(self).root_view(), 0, key@)
                    &&& final(self).store.state().reads == old(self).store.state().reads
                },
                Err(_) => *final(self) == *old(self),
            },
            r matches Err(MSSMTError::MaxLeafSizeError) <==> leaf@.value.len() > MAX_LEAF_SIZE,
            r matches Err(MSSMTError::SumOverflowError) <==> leaf@.value.len() <= MAX_LEAF_SIZE
                && root_commit(old(self)@).sum - lookup(old(self)@, key@).sum + leaf@.sum > u64::MAX,
    {
        if leaf.value.len() > MAX_LEAF_SIZE {
            return Err(MSSMTError::MaxLeafSizeError);
        }
        let root = Node::BranchNode(self.current_root());
        let ghost rv = root@;
        let ghost before = self@;
        let old_leaf = find_leaf(&root, 0, &key);
        proof {
            lemma_commit_root(rv);
            lemma_leaf_sum_bound(rv, 0, key@);
            if old_leaf@.is_empty() {
                lemma_empty_is_unique(old_leaf@);
            }
            assert(old_leaf@ == lookup(before, key@));
        }
        let base: u64 = root.node_sum() - old_leaf.sum;
        if leaf.sum > u64::MAX - base {
            return Err(MSSMTError::SumOverflowError);
        }
        proof {
            lemma_compact_path(rv, 0, zero_key(), key@);
        }
        let new_root = insert_root(&self.ctx, &root, &key, &leaf);
        let ghost nv = NodeView::Branch(new_root@);
        proof {
            lemma_compact_path(nv, 0, zero_key(), key@);
        }
        unindex_path(&mut self.store, &root, 0, &key);
        index_path(&mut self.store, &Node::BranchNode(new_root.copy()), 0, &key);
        let ghost indexed = self.store.state();
        self.store.update_root(new_root);
        proof {
            lemma_holds_path_extends(indexed, self.store.state(), nv, 0, key@);
            let after = self@;
            let target = if leaf@.is_empty() {
                before.remove(key@)
            } else {
                before.insert(key@, leaf@)
            };
            assert forall|k: Seq<u8>| k.len() == 32 implies (same_from(key@, k, 0) <==> k == key@) by {
                if same_from(key@, k, 0) {
                    lemma_key_by_bits(key@, k);
                }
            }
            assert forall|k: Seq<u8>| after.contains_key(k) == target.contains_key(k) by {
                assert(nv.leaf_at(0, k) == replaced(key@, leaf@, 0, k, rv.leaf_at(0, k)));
            }
            assert forall|k: Seq<u8>| after.contains_key(k) implies after[k] == target[k] by {
                assert(nv.leaf_at(0, k) == replaced(key@, leaf@, 0, k, rv.leaf_at(0, k)));
            }
            assert(after =~= target);
        }
        Ok(())
    }

    /// Removes the entry under `key`. Where the tree has none, nothing
    /// changes.
    pub fn delete(&mut self, key: &Key) -> (r: Result<(), MSSMTError>)
        requires
            old(self).wf(),
        ensures
            final(self).wf(),
            final(self).ctx == old(self).ctx,
            r is Ok,
            final(self)@ == old(self)@.remove(key@),
            !old(self)@.contains_key(key@) ==> *final(self) == *old(self),
    {
        let ghost before = self@;
        let ghost rv = self.root_view();
        proof {
            lemma_commit_root(rv);
            lemma_leaf_sum_bound(rv, 0, key@);
        }
        let found = match self.get(key) {
            Ok(leaf) => leaf,
            Err(_) => unreached(),
        };
        if found.is_empty() {
            proof {
                assert(self@ =~= before.remove(key@));
            }
            return Ok(());
        }
        self.insert(*key, LeafNode::empty())
    }

    /// Returns the proof for `key`: the 256 siblings on its path, the one
    /// next to the leaf first. With the leaf that the tree holds under
    /// `key`, the empty leaf where it holds none, the proof leads to the
    /// root of the tree.
    pub fn merkle_proof(&self, key: &Key) -> (r: Result<Proof, MSSMTError>)
        requires
            self.wf(),
        ensures
            r matches Ok(p) && p.nodes@.len() == 256 && proof_root(
                key@,
                lookup(self@, key@).commitment(),
                p@,
            ) == root_commit(self@),
            root_commit(self@).sum <= u64::MAX,
    {
        let root = Node::BranchNode(self.current_root());
        let (mut levels, leaf) = path_siblings(&self.ctx, &root, key);
        let ghost by_levels = commitments(levels@);
        let ghost all = levels@;
        let mut nodes: Vec<Node> = Vec::new();
        let mut i: usize = 0;
        while i < 256
            invariant
                i <= 256,
                all.len() == 256,
                levels@ == all.take(256 - i),
                nodes@.len() == i,
                forall|j: int| 0 <= j < i ==> nodes@[j] == all[255 - j],
            decreases 256 - i,
        {
            match levels.pop() {
                Some(n) => {
                    nodes.push(n);
                },
                None => {
                    assert(false);
                },
            }
            i = i + 1;
            assert(levels@ =~= all.take(256 - i));
        }
        let p = Proof::new(nodes);
        proof {
            lemma_commit_root(self.root_view());
            if leaf@.is_empty() {
                lemma_empty_is_unique(leaf@);
            }
            assert(by_level(p@) =~= by_levels);
        }
        Ok(p)
    }
}

} // verus!
