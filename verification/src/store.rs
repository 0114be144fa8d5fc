//! The in-memory store: the nodes of a tree by their hash, and the root.

use crate::context::TaroContext;
use crate::errors::{DefaultStoreError, DefaultStoreUnexpectedNodeTypeError};
use crate::hashing::{hash_eq, NodeHash};
use crate::model::{empty_commit, BranchView, CompactedView, LeafData, NodeView};
use crate::node::{BranchNode, CompactedLeafNode, LeafNode, MSSMTNode, Node};
use crate::table::{lemma_models_dom, lemma_models_insert, lemma_models_remove, models, Table};
use vstd::prelude::*;

verus! {

/// A store that keeps branches, leaves and compacted leaves in memory, each
/// under its own hash, and counts the reads, writes and deletions made.
pub struct DefaultStore {
    pub branches: Table<BranchNode>,
    pub leaves: Table<LeafNode>,
    pub compacted_leaves: Table<CompactedLeafNode>,
    pub root: Option<BranchNode>,
    pub cnt_reads: u64,
    pub cnt_writes: u64,
    pub cnt_deletes: u64,
}

/// The model of a store.
pub struct StoreView {
    pub branches: Map<Seq<u8>, BranchView>,
    pub leaves: Map<Seq<u8>, LeafData>,
    pub compacted_leaves: Map<Seq<u8>, CompactedView>,
    pub root: Option<BranchView>,
    pub reads: u64,
    pub writes: u64,
    pub deletes: u64,
}

/// A counter after one more event: it stops at the largest value.
pub open spec fn bump(count: u64) -> u64 {
    if count < u64::MAX {
        (count + 1) as u64
    } else {
        count
    }
}

/// Counts one more event.
fn bumped(count: u64) -> (r: u64)
    ensures
        r == bump(count),
{
    if count < u64::MAX {
        count + 1
    } else {
        count
    }
}

/// The line of text that reports six counts: the stored branches, leaves
/// and compacted leaves, and the reads, writes and deletions made.
pub uninterp spec fn stats_text(
    branches: usize,
    leaves: usize,
    cleaves: usize,
    reads: u64,
    writes: u64,
    deletes: u64,
) -> Seq<char>;

/// Formats the six numbers of the statistics with the `format` macro of
/// the standard library. The contract names the text: it depends on the six
/// numbers alone.
#[verifier::external_body]
fn format_stats(branches: usize, leaves: usize, cleaves: usize, reads: u64, writes: u64, deletes: u64) -> (r:
    String)
    ensures
        r@ == stats_text(branches, leaves, cleaves, reads, writes, deletes),
{
    format!(
        "branches={}, leaves={}, cleaves={}, reads={}, writes={}, deletes={}\n",
        branches,
        leaves,
        cleaves,
        reads,
        writes,
        deletes
    )
}

impl StoreView {
    /// Every node stands under its own hash.
    pub open spec fn keyed(self) -> bool {
        &&& forall|k: Seq<u8>| self.branches.contains_key(k) ==> (#[trigger] self.branches[k]).hash == k
        &&& forall|k: Seq<u8>|
            self.leaves.contains_key(k) ==> (#[trigger] self.leaves[k]).commitment().hash == k
        &&& forall|k: Seq<u8>|
            self.compacted_leaves.contains_key(k) ==> (#[trigger] self.compacted_leaves[k]).hash == k
    }

    /// The store holds the nodes of the subtree `n` at height `h` that
    /// stand on the path of `key`, and the compacted leaves next to that
    /// path, each under its hash.
    pub open spec fn holds_path(self, n: NodeView, h: nat, key: Seq<u8>) -> bool
        decreases n,
    {
        match n {
            NodeView::Leaf(l) => l.is_empty() || self.leaves.contains_key(l.commitment().hash),
            NodeView::Computed(_) => true,
            NodeView::Compacted(c) => self.compacted_leaves.contains_key(c.hash),
            NodeView::Branch(b) => match b.children {
                None => true,
                Some((l, r)) => {
                    let (next, sibling) = if crate::key::bit(key, h as int) {
                        (r, l)
                    } else {
                        (l, r)
                    };
                    &&& self.branches.contains_key(b.hash)
                    &&& (*sibling matches NodeView::Compacted(c) ==> self.compacted_leaves.contains_key(c.hash))
                    &&& self.holds_path(*next, h + 1, key)
                },
            },
        }
    }

    /// The store after the records of the subtree `n` at height `h` that
    /// stand on the path of `key`, and those of the compacted leaves next
    /// to that path, were deleted: the tables without their hashes, and one
    /// deletion counted for each record.
    pub open spec fn without_path(self, n: NodeView, h: nat, key: Seq<u8>) -> StoreView {
        StoreView {
            branches: self.branches.remove_keys(path_branches(n, h, key)),
            leaves: self.leaves.remove_keys(path_leaves(n, h, key)),
            compacted_leaves: self.compacted_leaves.remove_keys(path_compacted(n, h, key)),
            deletes: bump_by(self.deletes, path_records(n, h, key)),
            ..self
        }
    }

    /// Every hash of another store stands in this store too.
    pub open spec fn extends(self, other: StoreView) -> bool {
        &&& other.branches.dom().subset_of(self.branches.dom())
        &&& other.leaves.dom().subset_of(self.leaves.dom())
        &&& other.compacted_leaves.dom().subset_of(self.compacted_leaves.dom())
    }
    /// The node that the store holds under `hash` for height `h`: the
    /// default node of that height where `hash` is its hash, else the branch,
    /// the compacted leaf or the leaf stored under `hash`, in that order.
    pub open spec fn node_at(self, ctx: &TaroContext, h: nat, hash: Seq<u8>) -> Option<NodeView> {
        if hash == empty_commit(h).hash {
            Some(ctx.empty_tree@[h as int]@)
        } else if self.branches.contains_key(hash) {
            Some(NodeView::Branch(self.branches[hash]))
        } else if self.compacted_leaves.contains_key(hash) {
            Some(NodeView::Compacted(self.compacted_leaves[hash]))
        } else if self.leaves.contains_key(hash) {
            Some(NodeView::Leaf(self.leaves[hash]))
        } else {
            None
        }
    }
}

/// A counter after `n` more events: it stops at the largest value.
pub open spec fn bump_by(count: u64, n: nat) -> u64 {
    if count + n <= u64::MAX {
        (count + n) as u64
    } else {
        u64::MAX
    }
}

/// The child that the path of `key` leads to at level `h`, and its sibling.
pub open spec fn step(left: NodeView, right: NodeView, h: nat, key: Seq<u8>) -> (NodeView, NodeView) {
    if crate::key::bit(key, h as int) {
        (right, left)
    } else {
        (left, right)
    }
}

/// The hashes of the branches with children of the subtree `n` at height
/// `h` that stand on the path of `key`.
pub open spec fn path_branches(n: NodeView, h: nat, key: Seq<u8>) -> Set<Seq<u8>>
    decreases n,
{
    match n {
        NodeView::Branch(b) => match b.children {
            Some((l, r)) => path_branches(step(*l, *r, h, key).0, h + 1, key).insert(b.hash),
            None => Set::empty(),
        },
        _ => Set::empty(),
    }
}

/// The hashes of the compacted leaves of the subtree `n` at height `h`
/// that stand on the path of `key` or next to it.
pub open spec fn path_compacted(n: NodeView, h: nat, key: Seq<u8>) -> Set<Seq<u8>>
    decreases n,
{
    match n {
        NodeView::Compacted(c) => Set::empty().insert(c.hash),
        NodeView::Branch(b) => match b.children {
            Some((l, r)) => {
                let (next, sibling) = step(*l, *r, h, key);
                let below = path_compacted(next, h + 1, key);
                match sibling {
                    NodeView::Compacted(c) => below.insert(c.hash),
                    _ => below,
                }
            },
            None => Set::empty(),
        },
        _ => Set::empty(),
    }
}

/// The hash of the leaf with an entry in which the path of `key` through
/// the subtree `n` at height `h` ends, if it ends in one.
pub open spec fn path_leaves(n: NodeView, h: nat, key: Seq<u8>) -> Set<Seq<u8>>
    decreases n,
{
    match n {
        NodeView::Leaf(l) => if l.is_empty() {
            Set::empty()
        } else {
            Set::empty().insert(l.commitment().hash)
        },
        NodeView::Branch(b) => match b.children {
            Some((l, r)) => path_leaves(step(*l, *r, h, key).0, h + 1, key),
            None => Set::empty(),
        },
        _ => Set::empty(),
    }
}

/// The number of records of the subtree `n` at height `h` on the path of
/// `key` and next to it: one for each branch with children and each leaf
/// with an entry on the path, one for each compacted leaf on it or next to
/// it.
pub open spec fn path_records(n: NodeView, h: nat, key: Seq<u8>) -> nat
    decreases n,
{
    match n {
        NodeView::Leaf(l) => if l.is_empty() {
            0
        } else {
            1
        },
        NodeView::Compacted(_) => 1,
        NodeView::Computed(_) => 0,
        NodeView::Branch(b) => match b.children {
            Some((l, r)) => {
                let (next, sibling) = step(*l, *r, h, key);
                1 + (if sibling is Compacted {
                    1nat
                } else {
                    0nat
                }) + path_records(next, h + 1, key)
            },
            None => 0,
        },
    }
}

/// A store that holds a path holds it still after it has grown.
pub proof fn lemma_holds_path_extends(a: StoreView, b: StoreView, n: NodeView, h: nat, key: Seq<u8>)
    requires
        b.extends(a),
        a.holds_path(n, h, key),
    ensures
        b.holds_path(n, h, key),
    decreases n,
{
    match n {
        NodeView::Branch(br) => match br.children {
            Some((l, r)) => {
                if crate::key::bit(key, h as int) {
                    lemma_holds_path_extends(a, b, *r, h + 1, key);
                } else {
                    lemma_holds_path_extends(a, b, *l, h + 1, key);
                }
            },
            None => {},
        },
        _ => {},
    }
}

impl DefaultStore {
    /// The model of the store.
    pub open spec fn state(&self) -> StoreView {
        StoreView {
            branches: models(self.branches@),
            leaves: models(self.leaves@),
            compacted_leaves: models(self.compacted_leaves@),
            root: match self.root {
                Some(b) => Some(b@),
                None => None,
            },
            reads: self.cnt_reads,
            writes: self.cnt_writes,
            deletes: self.cnt_deletes,
        }
    }

    /// The tables are well formed, and every node stands under its own
    /// hash.
    pub open spec fn wf(&self) -> bool {
        &&& self.branches.wf()
        &&& self.leaves.wf()
        &&& self.compacted_leaves.wf()
        &&& self.state().keyed()
    }

    /// The model of a store that holds nothing and has counted nothing.
    pub open spec fn empty_state() -> StoreView {
        StoreView {
            branches: Map::empty(),
            leaves: Map::empty(),
            compacted_leaves: Map::empty(),
            root: None,
            reads: 0,
            writes: 0,
            deletes: 0,
        }
    }

    /// Makes an empty store.
    pub fn new_default_store() -> (r: Self)
        ensures
            r.wf(),
            r.state() == Self::empty_state(),
    {
        let r = DefaultStore {
            branches: Table::new(),
            leaves: Table::new(),
            compacted_leaves: Table::new(),
            root: None,
            cnt_reads: 0,
            cnt_writes: 0,
            cnt_deletes: 0,
        };
        proof {
            lemma_models_dom(r.branches@);
            lemma_models_dom(r.leaves@);
            lemma_models_dom(r.compacted_leaves@);
        }
        r
    }

    /// Returns the number of stored branches.
    pub fn num_branches(&self) -> (r: usize)
        requires
            self.wf(),
        ensures
            self.state().branches.dom().finite(),
            r == self.state().branches.dom().len(),
    {
        proof {
            lemma_models_dom(self.branches@);
        }
        self.branches.len()
    }

    /// Returns the number of stored leaves.
    pub fn num_leaves(&self) -> (r: usize)
        requires
            self.wf(),
        ensures
            self.state().leaves.dom().finite(),
            r == self.state().leaves.dom().len(),
    {
        proof {
            lemma_models_dom(self.leaves@);
        }
        self.leaves.len()
    }

    /// Returns the number of stored compacted leaves.
    pub fn num_compacted_leaves(&self) -> (r: usize)
        requires
            self.wf(),
        ensures
            self.state().compacted_leaves.dom().finite(),
            r == self.state().compacted_leaves.dom().len(),
    {
        proof {
            lemma_models_dom(self.compacted_leaves@);
        }
        self.compacted_leaves.len()
    }

    /// Returns the statistics of the store as one line of text.
    pub fn stats(&self) -> (r: String)
        requires
            self.wf(),
        ensures
            r@ == stats_text(
                self.state().branches.dom().len() as usize,
                self.state().leaves.dom().len() as usize,
                self.state().compacted_leaves.dom().len() as usize,
                self.state().reads,
                self.state().writes,
                self.state().deletes,
            ),
    {
        format_stats(
            self.num_branches(),
            self.num_leaves(),
            self.num_compacted_leaves(),
            self.cnt_reads,
            self.cnt_writes,
            self.cnt_deletes,
        )
    }

    /// Sets the root of the tree.
    pub fn update_root(&mut self, node: BranchNode)
        ensures
            final(self).state() == (StoreView { root: Some(node@), ..old(self).state() }),
            old(self).wf() ==> final(self).wf(),
    {
        let ghost before = self.state();
        self.root = Some(node);
        proof {
            assert(self.state().branches == before.branches);
            assert(self.state().leaves == before.leaves);
            assert(self.state().compacted_leaves == before.compacted_leaves);
            if before.keyed() {
                assert(self.state().keyed());
            }
        }
    }

    /// Returns the root of the tree, if one was set.
    pub fn root_node(&self) -> (r: Option<Node>)
        ensures
            match r {
                Some(n) => self.state().root is Some && n@ == NodeView::Branch(self.state().root->Some_0),
                None => self.state().root is None,
            },
    {
        match &self.root {
            Some(b) => Some(Node::BranchNode(b.copy())),
            None => None,
        }
    }

    /// Stores a branch under its hash.
    pub fn insert_branch(&mut self, branch: BranchNode)
        requires
            old(self).wf(),
        ensures
            final(self).wf(),
            final(self).state() == (StoreView {
                branches: old(self).state().branches.insert(branch@.hash, branch@),
                writes: bump(old(self).state().writes),
                ..old(self).state()
            }),
    {
        let key = branch.node_hash();
        proof {
            lemma_models_insert(self.branches@, key@, branch);
        }
        self.branches.insert(key, branch);
        self.cnt_writes = bumped(self.cnt_writes);
    }

    /// Stores a leaf under its hash.
    pub fn insert_leaf(&mut self, leaf: LeafNode)
        requires
            old(self).wf(),
        ensures
            final(self).wf(),
            final(self).state() == (StoreView {
                leaves: old(self).state().leaves.insert(leaf@.commitment().hash, leaf@),
                writes: bump(old(self).state().writes),
                ..old(self).state()
            }),
    {
        let key = leaf.node_hash();
        proof {
            lemma_models_insert(self.leaves@, key@, leaf);
        }
        self.leaves.insert(key, leaf);
        self.cnt_writes = bumped(self.cnt_writes);
    }

    /// Stores a compacted leaf under its hash.
    pub fn insert_compacted_leaf(&mut self, leaf: CompactedLeafNode)
        requires
            old(self).wf(),
        ensures
            final(self).wf(),
            final(self).state() == (StoreView {
                compacted_leaves: old(self).state().compacted_leaves.insert(leaf@.hash, leaf@),
                writes: bump(old(self).state().writes),
                ..old(self).state()
            }),
    {
        let key = leaf.node_hash();
        proof {
            lemma_models_insert(self.compacted_leaves@, key@, leaf);
        }
        self.compacted_leaves.insert(key, leaf);
        self.cnt_writes = bumped(self.cnt_writes);
    }

    /// Deletes the branch stored under `key`.
    pub fn delete_branch(&mut self, key: NodeHash)
        requires
            old(self).wf(),
        ensures
            final(self).wf(),
            final(self).state() == (StoreView {
                branches: old(self).state().branches.remove(key@),
                deletes: bump(old(self).state().deletes),
                ..old(self).state()
            }),
    {
        proof {
            lemma_models_remove(self.branches@, key@);
        }
        self.branches.remove(&key);
        self.cnt_deletes = bumped(self.cnt_deletes);
    }

    /// Deletes the leaf stored under `key`.
    pub fn delete_leaf(&mut self, key: NodeHash)
        requires
            old(self).wf(),
        ensures
            final(self).wf(),
            final(self).state() == (StoreView {
                leaves: old(self).state().leaves.remove(key@),
                deletes: bump(old(self).state().deletes),
                ..old(self).state()
            }),
    {
        proof {
            lemma_models_remove(self.leaves@, key@);
        }
        self.leaves.remove(&key);
        self.cnt_deletes = bumped(self.cnt_deletes);
    }

    /// Deletes the compacted leaf stored under `key`.
    pub fn delete_compacted_leaf(&mut self, key: NodeHash)
        requires
            old(self).wf(),
        ensures
            final(self).wf(),
            final(self).state() == (StoreView {
                compacted_leaves: old(self).state().compacted_leaves.remove(key@),
                deletes: bump(old(self).state().deletes),
                ..old(self).state()
            }),
    {
        proof {
            lemma_models_remove(self.compacted_leaves@, key@);
        }
        self.compacted_leaves.remove(&key);
        self.cnt_deletes = bumped(self.cnt_deletes);
    }

    /// Returns a copy of the store.
    pub fn copy(&self) -> (r: Self)
        requires
            self.wf(),
        ensures
            r.wf(),
            r.state() == self.state(),
    {
        DefaultStore {
            branches: self.branches.copy(),
            leaves: self.leaves.copy(),
            compacted_leaves: self.compacted_leaves.copy(),
            root: match &self.root {
                Some(b) => Some(b.copy()),
                None => None,
            },
            cnt_reads: self.cnt_reads,
            cnt_writes: self.cnt_writes,
            cnt_deletes: self.cnt_deletes,
        }
    }

    /// Runs `f` on the store as one update: the store becomes what `f`
    /// returns, and where `f` fails the store is left as it was.
    pub fn update<F>(&mut self, f: F) -> (r: Result<(), DefaultStoreError>) where
        F: FnOnce(DefaultStore) -> Result<DefaultStore, DefaultStoreError>,

        requires
            old(self).wf(),
            call_requires(f, (*old(self),)),
        ensures
            match r {
                Ok(_) => call_ensures(f, (*old(self),), Ok(*final(self))),
                Err(e) => call_ensures(f, (*old(self),), Err(e)) && final(self).wf() && final(self).state() == old(self).state(),
            },
    {
        let snapshot = self.copy();
        let mut current = DefaultStore::new_default_store();
        core::mem::swap(self, &mut current);
        match f(current) {
            Ok(next) => {
                *self = next;
                Ok(())
            },
            Err(e) => {
                *self = snapshot;
                Err(e)
            },
        }
    }

    /// Runs `f` on the store as one read, and returns what `f` returns.
    pub fn view<R, F>(&self, f: F) -> (r: R) where F: FnOnce(&DefaultStore) -> R
        requires
            call_requires(f, (self,)),
        ensures
            call_ensures(f, (self,), r),
    {
        f(self)
    }

    /// Looks up the node under `key` for height `height`, and counts one
    /// read where the tables are consulted.
    fn get_node(&mut self, height: usize, key: &NodeHash, ctx: &TaroContext) -> (r: Option<Node>)
        requires
            old(self).wf(),
            ctx.wf(),
            height <= 256,
        ensures
            final(self).wf(),
            final(self).state() == (StoreView {
                reads: if key@ == empty_commit(height as nat).hash {
                    old(self).state().reads
                } else {
                    bump(old(self).state().reads)
                },
                ..old(self).state()
            }),
            match (r, old(self).state().node_at(ctx, height as nat, key@)) {
                (Some(a), Some(b)) => a@ == b,
                (None, None) => true,
                _ => false,
            },
    {
        let empty = ctx.empty_hash(height);
        if hash_eq(key, &empty) {
            return Some(ctx.empty_node(height));
        }
        self.cnt_reads = bumped(self.cnt_reads);
        match self.branches.get(key) {
            Some(b) => {
                return Some(Node::BranchNode(b.copy()));
            },
            None => {},
        }
        match self.compacted_leaves.get(key) {
            Some(c) => {
                return Some(Node::CompactedLeafNode(c.copy()));
            },
            None => {},
        }
        match self.leaves.get(key) {
            Some(l) => Some(Node::LeafNode(l.copy())),
            None => None,
        }
    }

    /// Returns the left and the right child of the node stored under `key`
    /// for height `height`. The children of the default node of a height
    /// are the default nodes of the next height. Fails where no node is
    /// found, where the node found is a branch stored without its children,
    /// and where it is not a branch.
    pub fn get_children(&mut self, height: usize, key: NodeHash, ctx: &TaroContext) -> (r: Result<
        (Node, Node),
        DefaultStoreError,
    >)
        requires
            old(self).wf(),
            ctx.wf(),
        ensures
            final(self).wf(),
            final(self).state() == (StoreView {
                reads: if height > 256 || key@ == empty_commit(height as nat).hash {
                    old(self).state().reads
                } else {
                    bump(old(self).state().reads)
                },
                ..old(self).state()
            }),
            height > 256 ==> r matches Err(DefaultStoreError::DefaultStoreViewError),
            height <= 256 ==> match old(self).state().node_at(ctx, height as nat, key@) {
                None => r matches Err(DefaultStoreError::DefaultStoreViewError),
                Some(NodeView::Branch(b)) => match b.children {
                    Some((left, right)) => r matches Ok((x, y)) && x@ == *left && y@ == *right,
                    None => if key@ == empty_commit(height as nat).hash {
                        r matches Ok((x, y)) && x@ == ctx.empty_tree@[height + 1]@ && y@
                            == ctx.empty_tree@[height + 1]@
                    } else {
                        r matches Err(DefaultStoreError::DefaultStoreViewError)
                    },
                },
                Some(n) => r matches Err(DefaultStoreError::DefaultStoreUnexpectedNodeTypeError(e)) && e.node@
                    == n && e.key == key,
            },
    {
        if height > 256 {
            return Err(DefaultStoreError::DefaultStoreViewError);
        }
        let node = match self.get_node(height, &key, ctx) {
            Some(n) => n,
            None => {
                return Err(DefaultStoreError::DefaultStoreViewError);
            },
        };
        match node {
            Node::BranchNode(b) => match &b.children {
                Some((left, right)) => Ok((left.copy(), right.copy())),
                None => {
                    let empty = ctx.empty_hash(height);
                    if hash_eq(&key, &empty) {
                        Ok((ctx.empty_node(height + 1), ctx.empty_node(height + 1)))
                    } else {
                        Err(DefaultStoreError::DefaultStoreViewError)
                    }
                },
            },
            other => Err(
                DefaultStoreError::DefaultStoreUnexpectedNodeTypeError(
                    DefaultStoreUnexpectedNodeTypeError { node: other, key },
                ),
            ),
        }
    }
}

} // verus!
