use mssmt::context::TaroContext;
use mssmt::errors::{DefaultStoreError, DefaultStoreUnexpectedNodeTypeError};
use mssmt::node::{BranchNode, CompactedLeafNode, LeafNode, MSSMTNode, Node};
use mssmt::registry::{register_tree_store, registered_tree_stores, TreeStoreDriver, TreeStores};
use mssmt::errors::TreeStoreError;
use mssmt::store::DefaultStore;
use mssmt::table::Table;
use std::sync::Arc;

fn sample_branch(a: u8, b: u8) -> BranchNode {
    BranchNode::new_branch(
        Arc::new(Node::LeafNode(LeafNode::new(vec![a], a as u64))),
        Arc::new(Node::LeafNode(LeafNode::new(vec![b], b as u64))),
    )
}

#[test]
fn a_new_store_is_empty() {
    let store = DefaultStore::new_default_store();
    assert_eq!(store.num_branches(), 0);
    assert_eq!(store.num_leaves(), 0);
    assert_eq!(store.num_compacted_leaves(), 0);
    assert!(store.root_node().is_none());
    assert_eq!(
        store.stats(),
        "branches=0, leaves=0, cleaves=0, reads=0, writes=0, deletes=0\n"
    );
}

#[test]
fn inserts_and_deletes_are_counted() {
    let ctx = TaroContext::init().unwrap();
    let mut store = DefaultStore::new_default_store();
    let branch = sample_branch(1, 2);
    let hash = branch.node_hash();
    store.insert_branch(branch.copy());
    store.insert_branch(branch);
    store.insert_branch(sample_branch(3, 4));
    store.insert_leaf(LeafNode::new(vec![5], 5));
    store.insert_compacted_leaf(CompactedLeafNode::new(&ctx, 7, vec![6], 6, [9u8; 32]));
    assert_eq!(store.num_branches(), 2);
    assert_eq!(store.num_leaves(), 1);
    assert_eq!(store.num_compacted_leaves(), 1);
    store.delete_branch(hash);
    store.delete_branch(hash);
    store.delete_leaf(LeafNode::new(vec![5], 5).node_hash());
    store.delete_compacted_leaf([0u8; 32]);
    assert_eq!(store.num_branches(), 1);
    assert_eq!(store.num_leaves(), 0);
    assert_eq!(store.num_compacted_leaves(), 1);
    assert_eq!(
        store.stats(),
        "branches=1, leaves=0, cleaves=1, reads=0, writes=5, deletes=4\n"
    );
}

#[test]
fn the_root_is_what_was_set_last() {
    let mut store = DefaultStore::new_default_store();
    store.update_root(sample_branch(1, 2));
    store.update_root(sample_branch(3, 4));
    match store.root_node() {
        Some(Node::BranchNode(b)) => assert_eq!(b.node_sum(), 7),
        _ => panic!("the root is a branch"),
    }
}

#[test]
fn get_children_returns_the_children_of_a_stored_branch() {
    let ctx = TaroContext::init().unwrap();
    let mut store = DefaultStore::new_default_store();
    let branch = sample_branch(1, 2);
    let hash = branch.node_hash();
    store.insert_branch(branch);
    let (left, right) = store.get_children(255, hash, &ctx).unwrap();
    assert_eq!(left.node_sum(), 1);
    assert_eq!(right.node_sum(), 2);
    assert_eq!(left.node_hash(), LeafNode::new(vec![1], 1).node_hash());
    assert_eq!(store.cnt_reads, 1);
}

#[test]
fn get_children_of_a_default_node_are_the_default_nodes_below() {
    let ctx = TaroContext::init().unwrap();
    let mut store = DefaultStore::new_default_store();
    let (left, right) = store.get_children(10, ctx.empty_hash(10), &ctx).unwrap();
    assert_eq!(left.node_hash(), ctx.empty_hash(11));
    assert_eq!(right.node_hash(), ctx.empty_hash(11));
    assert_eq!(store.cnt_reads, 0);
}

#[test]
fn get_children_fails_where_nothing_is_stored() {
    let ctx = TaroContext::init().unwrap();
    let mut store = DefaultStore::new_default_store();
    assert!(matches!(
        store.get_children(3, [1u8; 32], &ctx),
        Err(DefaultStoreError::DefaultStoreViewError)
    ));
    assert!(matches!(
        store.get_children(257, [1u8; 32], &ctx),
        Err(DefaultStoreError::DefaultStoreViewError)
    ));
    store.insert_branch(BranchNode::new_computed_branch([1u8; 32], 4));
    assert!(matches!(
        store.get_children(3, [1u8; 32], &ctx),
        Err(DefaultStoreError::DefaultStoreViewError)
    ));
}

#[test]
fn get_children_of_a_leaf_is_an_unexpected_node() {
    let ctx = TaroContext::init().unwrap();
    let mut store = DefaultStore::new_default_store();
    let leaf = LeafNode::new(vec![5], 5);
    let hash = leaf.node_hash();
    store.insert_leaf(leaf);
    match store.get_children(256, hash, &ctx) {
        Err(DefaultStoreError::DefaultStoreUnexpectedNodeTypeError(e)) => {
            assert_eq!(e.key, hash);
            assert!(matches!(e.node, Node::LeafNode(_)));
            assert!(e.to_string().starts_with("unexpected node type with (node, key) (leaf:"));
        }
        _ => panic!("a leaf has no children"),
    }
    let compacted = CompactedLeafNode::new(&ctx, 7, vec![6], 6, [9u8; 32]);
    let hash = compacted.node_hash();
    store.insert_compacted_leaf(compacted);
    assert!(matches!(
        store.get_children(7, hash, &ctx),
        Err(DefaultStoreError::DefaultStoreUnexpectedNodeTypeError(_))
    ));
    assert!(matches!(
        store.get_children(256, ctx.empty_hash(256), &ctx),
        Err(DefaultStoreError::DefaultStoreUnexpectedNodeTypeError(_))
    ));
}

#[test]
fn the_message_of_an_unexpected_node_names_its_kind_and_hash() {
    let e = DefaultStoreUnexpectedNodeTypeError {
        node: Node::LeafNode(LeafNode::empty()),
        key: [0xab; 32],
    };
    let text = e.to_string();
    assert!(text.starts_with("unexpected node type with (node, key) (leaf:[ab, ab"));
    let b = DefaultStoreUnexpectedNodeTypeError {
        node: Node::BranchNode(BranchNode::new_computed_branch([0u8; 32], 0)),
        key: [0x01; 32],
    };
    assert!(b.to_string().starts_with("unexpected node type with (node, key) (branch:[01"));
}

#[test]
fn an_update_that_fails_leaves_the_store_as_it_was() {
    let mut store = DefaultStore::new_default_store();
    store.insert_branch(sample_branch(1, 2));
    let r = store.update(|mut s: DefaultStore| {
        s.insert_branch(sample_branch(3, 4));
        s.insert_leaf(LeafNode::new(vec![1], 1));
        Err(DefaultStoreError::DefaultStoreUpdateError)
    });
    assert!(matches!(r, Err(DefaultStoreError::DefaultStoreUpdateError)));
    assert_eq!(store.num_branches(), 1);
    assert_eq!(store.num_leaves(), 0);
    assert_eq!(store.cnt_writes, 1);
    let r = store.update(|mut s: DefaultStore| {
        s.insert_branch(sample_branch(3, 4));
        Ok(s)
    });
    assert!(r.is_ok());
    assert_eq!(store.num_branches(), 2);
    assert_eq!(store.cnt_writes, 2);
}

#[test]
fn a_view_reads_the_store() {
    let mut store = DefaultStore::new_default_store();
    store.insert_branch(sample_branch(1, 2));
    let n = store.view(|s: &DefaultStore| s.num_branches());
    assert_eq!(n, 1);
}

#[test]
fn a_copy_of_a_store_holds_the_same_nodes() {
    let mut store = DefaultStore::new_default_store();
    store.insert_branch(sample_branch(1, 2));
    store.update_root(sample_branch(1, 2));
    let copy = store.copy();
    assert_eq!(copy.num_branches(), 1);
    assert_eq!(copy.cnt_writes, 1);
    assert!(copy.root_node().is_some());
}

#[test]
fn a_table_keeps_one_value_for_each_hash() {
    let mut table: Table<LeafNode> = Table::new();
    assert_eq!(table.len(), 0);
    table.insert([1u8; 32], LeafNode::new(vec![1], 1));
    table.insert([2u8; 32], LeafNode::new(vec![2], 2));
    table.insert([1u8; 32], LeafNode::new(vec![3], 3));
    assert_eq!(table.len(), 2);
    assert!(table.contains(&[1u8; 32]));
    assert!(!table.contains(&[3u8; 32]));
    assert_eq!(table.get(&[1u8; 32]).unwrap().sum, 3);
    assert_eq!(table.get(&[2u8; 32]).unwrap().sum, 2);
    assert!(table.get(&[3u8; 32]).is_none());
    table.remove(&[1u8; 32]);
    table.remove(&[3u8; 32]);
    assert_eq!(table.len(), 1);
    assert!(table.get(&[1u8; 32]).is_none());
    assert_eq!(table.get(&[2u8; 32]).unwrap().sum, 2);
    let copy = table.copy();
    assert_eq!(copy.len(), 1);
    assert_eq!(copy.get(&[2u8; 32]).unwrap().value, vec![2]);
}

#[test]
fn a_driver_is_registered_once() {
    let mut stores = TreeStores::new();
    assert!(registered_tree_stores(&stores).is_empty());
    let r = register_tree_store(TreeStoreDriver { name: "memory".to_string() }, &mut stores);
    assert_eq!(r, Ok(()));
    let r = register_tree_store(TreeStoreDriver { name: "disk".to_string() }, &mut stores);
    assert_eq!(r, Ok(()));
    let r = register_tree_store(TreeStoreDriver { name: "memory".to_string() }, &mut stores);
    assert_eq!(r, Err(TreeStoreError::TreeStoreAlreadyRegisteredError));
    let names: Vec<String> = registered_tree_stores(&stores).into_iter().map(|d| d.name).collect();
    assert_eq!(names, vec!["memory".to_string(), "disk".to_string()]);
    assert!(stores.is_registered(&"disk".to_string()));
    assert!(!stores.is_registered(&"tape".to_string()));
}
