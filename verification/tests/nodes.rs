use mssmt::context::TaroContext;
use mssmt::hashing::{hash_branch, hash_eq, hash_leaf};
use mssmt::key::{bit_index, first_difference, suffix_eq};
use mssmt::node::{fold_node, BranchNode, CompactedLeafNode, ComputedNode, LeafNode, MSSMTNode, Node};
use std::sync::Arc;

fn hex(bytes: &[u8]) -> String {
    let mut out = String::new();
    for b in bytes {
        out.push_str(&format!("{:02x}", b));
    }
    out
}

fn key_one() -> [u8; 32] {
    let mut k = [0u8; 32];
    k[31] = 1;
    k
}

#[test]
fn the_empty_leaf_has_the_digest_of_eight_zero_bytes() {
    let leaf = LeafNode::empty();
    assert!(leaf.is_empty());
    assert_eq!(
        hex(&leaf.node_hash()),
        "af5570f5a1810b7af78caf4bc70a660f0df51e42baf91d4de5b2328de0e83dfc"
    );
    assert_eq!(leaf.node_sum(), 0);
}

#[test]
fn a_leaf_commits_to_its_value_and_its_sum_in_big_endian() {
    let leaf = LeafNode::new(vec![7], 0x0102030405060708);
    assert_eq!(
        hex(&leaf.node_hash()),
        "68af8122378bdae024c1b0992c51e54e26e9a7d177ecfeea152db16e3e781c3a"
    );
    assert_eq!(leaf.node_hash(), hash_leaf(&vec![7], 0x0102030405060708));
    assert_ne!(leaf.node_hash(), hash_leaf(&vec![7], 0x0807060504030201));
    assert_eq!(
        hex(&LeafNode::new(vec![1, 2, 3], 5).node_hash()),
        "ffedd46684b42a52a19c4184495294062ddf0b5b08493ac64bb7c34e84bb95ea"
    );
}

#[test]
fn a_leaf_is_empty_only_without_value_and_sum() {
    assert!(LeafNode::new(Vec::new(), 0).is_empty());
    assert!(!LeafNode::new(vec![0], 0).is_empty());
    assert!(!LeafNode::new(Vec::new(), 1).is_empty());
}

#[test]
fn a_branch_commits_to_both_children_and_their_sum() {
    let left = Node::LeafNode(LeafNode::empty());
    let right = Node::LeafNode(LeafNode::new(vec![7], 3));
    let branch = BranchNode::new_branch(Arc::new(left), Arc::new(right));
    assert_eq!(branch.node_sum(), 3);
    assert_eq!(
        hex(&branch.node_hash()),
        "73ed503d01ab86125703f021ced6c6bbf7744c15026130f3af81152a2083b9ae"
    );
    let l = LeafNode::empty().node_hash();
    let r = LeafNode::new(vec![7], 3).node_hash();
    assert_eq!(branch.node_hash(), hash_branch(&l, &r, 3));
    assert_ne!(branch.node_hash(), hash_branch(&r, &l, 3));
}

#[test]
fn a_copy_of_a_branch_shares_its_children() {
    let left = Arc::new(Node::LeafNode(LeafNode::new(vec![1], 1)));
    let right = Arc::new(Node::LeafNode(LeafNode::new(vec![2], 2)));
    let branch = BranchNode::new_branch(left.clone(), right.clone());
    let copy = branch.copy();
    assert_eq!(copy.node_hash(), branch.node_hash());
    assert_eq!(copy.node_sum(), 3);
    match (&copy.children, &branch.children) {
        (Some((cl, cr)), Some((bl, br))) => {
            assert!(Arc::ptr_eq(cl, bl));
            assert!(Arc::ptr_eq(cr, br));
            assert!(Arc::ptr_eq(cl, &left));
        }
        _ => panic!("both branches have children"),
    }
}

#[test]
fn a_computed_branch_has_no_children() {
    let branch = BranchNode::new_computed_branch([3u8; 32], 9);
    assert!(branch.children.is_none());
    assert_eq!(branch.node_hash(), [3u8; 32]);
    assert_eq!(branch.node_sum(), 9);
    let node = ComputedNode::new([3u8; 32], 9);
    assert_eq!(node.node_hash(), [3u8; 32]);
    assert_eq!(node.node_sum(), 9);
    assert_eq!(node.copy().node_hash(), [3u8; 32]);
    assert!(branch.is_equal(&Node::ComputedNode(node)));
    assert!(!branch.is_equal(&Node::ComputedNode(ComputedNode::new([3u8; 32], 8))));
    assert!(!branch.is_equal(&Node::ComputedNode(ComputedNode::new([4u8; 32], 9))));
}

#[test]
fn nodes_are_equal_by_digest_and_sum() {
    let leaf = LeafNode::new(vec![1, 2, 3], 5);
    let same = Node::ComputedNode(ComputedNode::new(leaf.node_hash(), 5));
    assert!(leaf.is_equal(&same));
    assert!(leaf.is_equal(&Node::LeafNode(leaf.copy())));
    assert!(!leaf.is_equal(&Node::LeafNode(LeafNode::new(vec![1, 2, 3], 6))));
    assert!(Node::LeafNode(leaf.copy()).is_equal(&same));
    assert!(hash_eq(&[1u8; 32], &[1u8; 32]));
    let mut other = [1u8; 32];
    other[31] = 2;
    assert!(!hash_eq(&[1u8; 32], &other));
}

#[test]
fn a_compacted_leaf_has_the_digest_of_the_subtree_it_stands_for() {
    let ctx = TaroContext::init().unwrap();
    let at_one = CompactedLeafNode::new(&ctx, 1, vec![1, 2, 3], 5, key_one());
    assert_eq!(
        hex(&at_one.node_hash()),
        "ccd7dc636d7791b29cf68c5fd43da307760db80fb3021267fca25e59c99d024a"
    );
    assert_eq!(at_one.node_sum(), 5);
    assert_eq!(at_one.key(), key_one());
    let deep = CompactedLeafNode::new(&ctx, 200, vec![1, 2, 3], 5, key_one());
    assert_eq!(
        hex(&deep.node_hash()),
        "0c686958860d186b409a4e024e17e46a9b51dd5bd9f79ef506a56318ac6aca30"
    );
    let at_leaf = CompactedLeafNode::new(&ctx, 256, vec![1, 2, 3], 5, key_one());
    assert_eq!(at_leaf.node_hash(), LeafNode::new(vec![1, 2, 3], 5).node_hash());
}

#[test]
fn extracting_a_compacted_leaf_keeps_its_digest() {
    let ctx = TaroContext::init().unwrap();
    let node = CompactedLeafNode::new(&ctx, 200, vec![1, 2, 3], 5, key_one());
    let tree = node.extract(&ctx);
    assert_eq!(tree.node_hash(), node.node_hash());
    assert_eq!(tree.node_sum(), 5);
    let mut depth = 0;
    let mut current = &tree;
    loop {
        match current {
            Node::BranchNode(b) => match &b.children {
                Some((l, r)) => {
                    let right = bit_index(200 + depth, &key_one());
                    current = if right { &**r } else { &**l };
                    depth += 1;
                }
                None => panic!("the path of the key is spelled out"),
            },
            Node::LeafNode(l) => {
                assert_eq!(l.value, vec![1, 2, 3]);
                break;
            }
            _ => panic!("no other node on the path"),
        }
    }
    assert_eq!(depth, 56);
    let at_leaf = CompactedLeafNode::new(&ctx, 256, vec![9], 1, key_one()).extract(&ctx);
    assert!(matches!(at_leaf, Node::LeafNode(_)));
}

#[test]
fn fold_visits_the_leaves_from_left_to_right() {
    let a = Arc::new(Node::LeafNode(LeafNode::new(vec![1], 1)));
    let b = Arc::new(Node::LeafNode(LeafNode::new(vec![2], 2)));
    let c = Arc::new(Node::LeafNode(LeafNode::new(vec![3], 3)));
    let ab = Arc::new(Node::BranchNode(BranchNode::new_branch(a, b)));
    let top = BranchNode::new_branch(ab, c);
    let sum = top.fold(&|acc: u64, s: &u64| acc + *s, 0u64);
    assert_eq!(sum, 6);
    let order = top.fold(&|acc: u64, s: &u64| acc * 10 + *s, 0u64);
    assert_eq!(order, 123);
    let count = fold_node(&Node::BranchNode(top), &|acc: usize, _s: &u64| acc + 1, 0usize);
    assert_eq!(count, 3);
    let none = BranchNode::new_computed_branch([0u8; 32], 4).fold(&|acc: u64, s: &u64| acc + *s, 7u64);
    assert_eq!(none, 7);
}

#[test]
fn the_bits_of_a_key_run_from_the_most_significant() {
    let mut key = [0u8; 32];
    key[0] = 0x80;
    key[1] = 0x01;
    key[31] = 0x02;
    assert!(bit_index(0, &key));
    assert!(!bit_index(1, &key));
    assert!(!bit_index(14, &key));
    assert!(bit_index(15, &key));
    assert!(bit_index(254, &key));
    assert!(!bit_index(255, &key));
}

#[test]
fn keys_are_compared_from_a_height_on() {
    let a = [0u8; 32];
    let mut b = [0u8; 32];
    b[2] = 0x10;
    assert!(!suffix_eq(&a, &b, 0));
    assert!(!suffix_eq(&a, &b, 19));
    assert!(suffix_eq(&a, &b, 20));
    assert!(suffix_eq(&a, &b, 256));
    assert_eq!(first_difference(&a, &b, 0), 19);
    assert_eq!(first_difference(&a, &b, 19), 19);
    let mut c = b;
    c[31] = 1;
    assert_eq!(first_difference(&b, &c, 20), 255);
}

#[test]
fn the_ladder_has_a_default_node_for_each_height() {
    let ctx = TaroContext::init().unwrap();
    assert_eq!(ctx.empty_tree.len(), 257);
    assert_eq!(ctx.hash_size, 32);
    assert_eq!(ctx.max_leaf_size, 16_777_215);
    assert_eq!(ctx.max_tree_levels, 256);
    assert_eq!(ctx.last_bit_index, 255);
    assert!(ctx.empty_leaf_node.is_empty());
    assert_eq!(
        hex(&ctx.empty_tree[256].node_hash()),
        "af5570f5a1810b7af78caf4bc70a660f0df51e42baf91d4de5b2328de0e83dfc"
    );
    assert_eq!(
        hex(&ctx.empty_tree[255].node_hash()),
        "5a61e238f07e3a8114e39670c1e5ff430913d5793028258cf8a49282efee4411"
    );
    assert_eq!(
        hex(&ctx.empty_hash(1)),
        "5a9d70bc8ac90cab6a114615f3d43a6d64c53e8a6279963a496fd3ee910a8c76"
    );
    assert_eq!(
        hex(&ctx.empty_node(0).node_hash()),
        "b1e8e8f2dc3b266452988cfe169aa73be25405eeead02ab5dd6b3c6fd0ca8d67"
    );
    for h in 0..257 {
        assert_eq!(ctx.empty_tree[h].node_sum(), 0);
        assert!(ctx.empty_tree[h].is_default());
    }
    for h in 0..256 {
        let below = ctx.empty_tree[h + 1].node_hash();
        assert_eq!(ctx.empty_tree[h].node_hash(), hash_branch(&below, &below, 0));
    }
}
