use mssmt::context::TaroContext;
use mssmt::errors::MSSMTError;
use mssmt::node::{LeafNode, MSSMTNode, Node};
use mssmt::tree::Tree;

fn hex(bytes: &[u8]) -> String {
    let mut out = String::new();
    for b in bytes {
        out.push_str(&format!("{:02x}", b));
    }
    out
}

fn key_one() -> [u8; 32] {
    let mut k = [0u8; 32];
    k[31] = 1;
    k
}

fn key_three() -> [u8; 32] {
    let mut k = [0u8; 32];
    k[31] = 3;
    k
}

#[test]
fn empty_tree_commits_to_nothing() {
    let tree = Tree::new();
    let root = tree.root().unwrap();
    assert_eq!(root.node_sum(), 0);
    let ctx = TaroContext::init().unwrap();
    assert_eq!(root.node_hash(), ctx.empty_tree[0].node_hash());
    assert_eq!(
        hex(&root.node_hash()),
        "b1e8e8f2dc3b266452988cfe169aa73be25405eeead02ab5dd6b3c6fd0ca8d67"
    );
}

#[test]
fn get_of_a_key_never_inserted_is_the_empty_leaf() {
    let tree = Tree::new();
    let before = tree.root().unwrap().node_hash();
    let leaf = tree.get(&key_one()).unwrap();
    assert!(leaf.is_empty());
    assert_eq!(leaf.value.len(), 0);
    assert_eq!(leaf.sum, 0);
    assert_eq!(tree.root().unwrap().node_hash(), before);
}

#[test]
fn two_inserts_give_the_sums_and_roots_expected() {
    let mut tree = Tree::new();
    tree.insert(key_one(), LeafNode::new(vec![1, 2, 3], 5)).unwrap();
    let root = tree.root().unwrap();
    assert_eq!(root.node_sum(), 5);
    assert_eq!(
        hex(&root.node_hash()),
        "548482d452d2d4d410f7a5cdc74c0bf6fe871a7c6b570bc68f931d477c833724"
    );
    tree.insert([0xff; 32], LeafNode::new(vec![9], 7)).unwrap();
    let root = tree.root().unwrap();
    assert_eq!(root.node_sum(), 12);
    assert_eq!(
        hex(&root.node_hash()),
        "660ac121c5adee05a061e7512051ff9b0383f026dcd9f85ed82bc8e725750024"
    );
    for key in [key_one(), [0xff; 32], key_three()] {
        let proof = tree.merkle_proof(&key).unwrap();
        let leaf = tree.get(&key).unwrap();
        let claimed = proof.root(&key, leaf);
        assert_eq!(claimed.node_hash(), root.node_hash());
        assert_eq!(claimed.node_sum(), root.node_sum());
    }
}

#[test]
fn insert_then_get_returns_the_leaf() {
    let mut tree = Tree::new();
    tree.insert(key_one(), LeafNode::new(vec![1, 2, 3], 5)).unwrap();
    let leaf = tree.get(&key_one()).unwrap();
    assert_eq!(leaf.value, vec![1, 2, 3]);
    assert_eq!(leaf.sum, 5);
    tree.delete(&key_one()).unwrap();
    assert!(tree.get(&key_one()).unwrap().is_empty());
    assert_eq!(
        hex(&tree.root().unwrap().node_hash()),
        "b1e8e8f2dc3b266452988cfe169aa73be25405eeead02ab5dd6b3c6fd0ca8d67"
    );
}

#[test]
fn keys_that_part_late_share_a_long_path() {
    let mut tree = Tree::new();
    tree.insert(key_one(), LeafNode::new(vec![1, 2, 3], 5)).unwrap();
    tree.insert(key_three(), LeafNode::new(vec![4], 1)).unwrap();
    let root = tree.root().unwrap();
    assert_eq!(root.node_sum(), 6);
    assert_eq!(
        hex(&root.node_hash()),
        "2ff7112eacd32b388a8dc91166830408a34182747be7faae0f26f926e6d11215"
    );
    let proof = tree.merkle_proof(&key_one()).unwrap();
    assert_eq!(proof.nodes.len(), 256);
    assert_eq!(
        hex(&proof.nodes[1].node_hash()),
        "9580c96e28948d49bda0acbcf95b5522d0064e5b8865595c15fc955f02b2167d"
    );
    assert_eq!(proof.nodes[1].node_sum(), 1);
    tree.delete(&key_three()).unwrap();
    assert_eq!(
        hex(&tree.root().unwrap().node_hash()),
        "548482d452d2d4d410f7a5cdc74c0bf6fe871a7c6b570bc68f931d477c833724"
    );
    match &tree.root().unwrap().children {
        Some((left, _)) => assert!(matches!(&**left, Node::CompactedLeafNode(_))),
        None => panic!("the root has children"),
    }
}

#[test]
fn a_leaf_that_is_too_long_is_refused() {
    let mut tree = Tree::new();
    let r = tree.insert(key_one(), LeafNode::new(vec![0u8; 16_777_216], 1));
    assert_eq!(r, Err(MSSMTError::MaxLeafSizeError));
    assert_eq!(tree.root().unwrap().node_sum(), 0);
}

#[test]
fn a_sum_that_overflows_is_refused() {
    let mut tree = Tree::new();
    tree.insert(key_one(), LeafNode::new(vec![1], u64::MAX)).unwrap();
    let r = tree.insert(key_three(), LeafNode::new(vec![2], 1));
    assert_eq!(r, Err(MSSMTError::SumOverflowError));
    assert_eq!(tree.root().unwrap().node_sum(), u64::MAX);
    tree.insert(key_one(), LeafNode::new(vec![3], 7)).unwrap();
    assert_eq!(tree.root().unwrap().node_sum(), 7);
}

fn scenario_keys() -> Vec<[u8; 32]> {
    let mut keys: Vec<[u8; 32]> = Vec::new();
    for i in 0..24u8 {
        keys.push(LeafNode::new(vec![i], 0).node_hash());
    }
    let base = keys[0];
    let mut near1 = base;
    near1[31] ^= 1;
    let mut near2 = base;
    near2[16] ^= 0x80;
    let mut near3 = base;
    near3[1] ^= 0x01;
    keys.push(near1);
    keys.push(near2);
    keys.push(near3);
    keys
}

fn scenario_tree(keys: &[[u8; 32]]) -> Tree {
    let mut tree = Tree::new();
    for (i, k) in keys.iter().enumerate() {
        let i = i as u8;
        tree.insert(*k, LeafNode::new(vec![i, i + 1], 10 + i as u64)).unwrap();
    }
    tree
}

#[test]
fn many_inserts_and_deletes_follow_the_map_of_entries() {
    let keys = scenario_keys();
    let mut tree = scenario_tree(&keys);
    let root = tree.root().unwrap();
    assert_eq!(root.node_sum(), 621);
    assert_eq!(
        hex(&root.node_hash()),
        "e8307559ec16bb6404cd8bb6e0eb7c2784d3da4e223547860b18fcacd3c1a1e5"
    );
    let mut i = 0;
    while i < keys.len() {
        tree.delete(&keys[i]).unwrap();
        i += 2;
    }
    let root = tree.root().unwrap();
    assert_eq!(root.node_sum(), 299);
    assert_eq!(
        hex(&root.node_hash()),
        "251f1352a4854c423455372cab541f6e9faf03819835c755a5365bb06402a7d0"
    );
    tree.insert(keys[1], LeafNode::new(b"changed".to_vec(), 1000)).unwrap();
    let root = tree.root().unwrap();
    assert_eq!(root.node_sum(), 1288);
    assert_eq!(
        hex(&root.node_hash()),
        "f1acc93854c9880cbb766fe18415810956702099d20f38e82c740ad515edc27d"
    );
    for (i, k) in keys.iter().enumerate() {
        let leaf = tree.get(k).unwrap();
        if i == 1 {
            assert_eq!(leaf.value, b"changed".to_vec());
            assert_eq!(leaf.sum, 1000);
        } else if i % 2 == 0 {
            assert!(leaf.is_empty());
        } else {
            assert_eq!(leaf.value, vec![i as u8, i as u8 + 1]);
            assert_eq!(leaf.sum, 10 + i as u64);
        }
        let proof = tree.merkle_proof(k).unwrap();
        let claimed = proof.root(k, leaf);
        assert_eq!(claimed.node_hash(), root.node_hash());
        assert_eq!(claimed.node_sum(), root.node_sum());
    }
}

#[test]
fn proofs_hold_the_siblings_that_are_not_default() {
    let keys = scenario_keys();
    let mut tree = scenario_tree(&keys);
    let mut i = 0;
    while i < keys.len() {
        tree.delete(&keys[i]).unwrap();
        i += 2;
    }
    tree.insert(keys[1], LeafNode::new(b"changed".to_vec(), 1000)).unwrap();
    let ctx = TaroContext::init().unwrap();
    let present = tree.merkle_proof(&keys[1]).unwrap().compress(&ctx);
    assert_eq!(present.nodes.len(), 6);
    let absent = tree.merkle_proof(&keys[0]).unwrap().compress(&ctx);
    assert_eq!(absent.nodes.len(), 5);
}

#[test]
fn a_proof_for_another_leaf_leads_to_another_root() {
    let keys = scenario_keys();
    let tree = scenario_tree(&keys);
    let root = tree.root().unwrap();
    let proof = tree.merkle_proof(&keys[3]).unwrap();
    let forged = proof.root(&keys[3], LeafNode::new(vec![3, 4], 14));
    assert_ne!(forged.node_hash(), root.node_hash());
    let wrong_key = proof.root(&keys[4], tree.get(&keys[3]).unwrap());
    assert_ne!(wrong_key.node_hash(), root.node_hash());
}

#[test]
fn deleting_twice_is_deleting_once() {
    let keys = scenario_keys();
    let mut tree = scenario_tree(&keys);
    tree.delete(&keys[5]).unwrap();
    let once = tree.root().unwrap();
    tree.delete(&keys[5]).unwrap();
    let twice = tree.root().unwrap();
    assert_eq!(once.node_hash(), twice.node_hash());
    assert_eq!(once.node_sum(), twice.node_sum());
    assert_eq!(once.node_sum(), 621 - 15);
}

#[test]
fn inserting_twice_is_inserting_once() {
    let mut tree = Tree::new();
    tree.insert(key_one(), LeafNode::new(vec![1, 2, 3], 5)).unwrap();
    let once = tree.root().unwrap();
    tree.insert(key_one(), LeafNode::new(vec![1, 2, 3], 5)).unwrap();
    let twice = tree.root().unwrap();
    assert_eq!(once.node_hash(), twice.node_hash());
    assert_eq!(twice.node_sum(), 5);
}

#[test]
fn a_deleted_key_leaves_no_trace_in_the_root() {
    let mut with_both = Tree::new();
    with_both.insert(key_one(), LeafNode::new(vec![1], 3)).unwrap();
    with_both.insert(key_three(), LeafNode::new(vec![2], 4)).unwrap();
    with_both.delete(&key_one()).unwrap();
    let mut with_one = Tree::new();
    with_one.insert(key_three(), LeafNode::new(vec![2], 4)).unwrap();
    assert_eq!(
        with_both.root().unwrap().node_hash(),
        with_one.root().unwrap().node_hash()
    );
    assert_eq!(with_both.root().unwrap().node_sum(), 4);
}

#[test]
fn the_order_of_inserts_does_not_show_in_the_root() {
    let keys = scenario_keys();
    let forward = scenario_tree(&keys);
    let mut backward = Tree::new();
    for (i, k) in keys.iter().enumerate().rev() {
        let i = i as u8;
        backward.insert(*k, LeafNode::new(vec![i, i + 1], 10 + i as u64)).unwrap();
    }
    assert_eq!(
        forward.root().unwrap().node_hash(),
        backward.root().unwrap().node_hash()
    );
}

#[test]
fn a_leaf_of_the_largest_size_is_taken() {
    let mut tree = Tree::new();
    tree.insert(key_one(), LeafNode::new(vec![7u8; 16_777_215], 1)).unwrap();
    assert_eq!(tree.get(&key_one()).unwrap().value.len(), 16_777_215);
}

#[test]
fn a_leaf_with_a_value_and_sum_zero_is_an_entry() {
    let mut tree = Tree::new();
    tree.insert(key_one(), LeafNode::new(vec![1], 0)).unwrap();
    let root = tree.root().unwrap();
    assert_eq!(root.node_sum(), 0);
    assert_ne!(
        hex(&root.node_hash()),
        "b1e8e8f2dc3b266452988cfe169aa73be25405eeead02ab5dd6b3c6fd0ca8d67"
    );
    assert_eq!(tree.get(&key_one()).unwrap().value, vec![1]);
}

#[test]
fn inserting_the_empty_leaf_deletes() {
    let mut tree = Tree::new();
    tree.insert(key_one(), LeafNode::new(vec![1], 9)).unwrap();
    tree.insert(key_one(), LeafNode::empty()).unwrap();
    assert_eq!(
        hex(&tree.root().unwrap().node_hash()),
        "b1e8e8f2dc3b266452988cfe169aa73be25405eeead02ab5dd6b3c6fd0ca8d67"
    );
}

#[test]
fn the_store_holds_the_root_and_the_written_nodes() {
    let mut tree = Tree::new();
    assert!(tree.store.root_node().is_none());
    tree.insert(key_one(), LeafNode::new(vec![1, 2, 3], 5)).unwrap();
    assert_eq!(tree.store.num_branches(), 1);
    assert_eq!(tree.store.num_compacted_leaves(), 1);
    assert_eq!(tree.store.num_leaves(), 0);
    tree.insert([0xff; 32], LeafNode::new(vec![9], 7)).unwrap();
    assert_eq!(tree.store.num_branches(), 1);
    assert_eq!(tree.store.num_compacted_leaves(), 2);
    let root = tree.root().unwrap();
    let (left, right) = tree
        .store
        .get_children(0, root.node_hash(), &tree.ctx)
        .unwrap();
    assert_eq!(left.node_sum(), 5);
    assert_eq!(right.node_sum(), 7);
    assert_eq!(
        hex(&left.node_hash()),
        "ccd7dc636d7791b29cf68c5fd43da307760db80fb3021267fca25e59c99d024a"
    );
    tree.delete(&key_one()).unwrap();
    tree.delete(&[0xff; 32]).unwrap();
    assert_eq!(tree.store.num_branches(), 0);
    assert_eq!(tree.store.num_compacted_leaves(), 0);
}

fn clustered_keys() -> Vec<[u8; 32]> {
    let mut pool = Vec::new();
    for i in 0..40u8 {
        let mut k = [0u8; 32];
        k[0] = (i % 4) * 64;
        k[1] = i % 3;
        k[31] = i;
        k[30] = ((i as u32 * 7) % 5) as u8;
        pool.push(k);
    }
    pool
}

fn entries_below(node: &Node, depth: usize) -> usize {
    match node {
        Node::BranchNode(b) => match &b.children {
            Some((l, r)) => {
                let left = entries_below(l, depth + 1);
                let right = entries_below(r, depth + 1);
                assert!(left + right >= 1, "a branch with children holds an entry");
                if depth > 0 {
                    assert!(left + right >= 2, "a single entry is one compacted leaf");
                }
                left + right
            }
            None => 0,
        },
        Node::CompactedLeafNode(c) => {
            assert_eq!(c.height, depth);
            assert!(!c.leaf_node.is_empty());
            1
        }
        Node::LeafNode(l) => {
            assert!(l.is_empty());
            0
        }
        Node::ComputedNode(_) => 0,
    }
}

#[test]
fn a_long_run_of_updates_follows_the_map_of_entries() {
    let pool = clustered_keys();
    let expected: [(usize, &str, u64, usize); 8] = [
        (49, "3241b18b05961a1e82ec47b5e9412bf45fe531b7809cea7fb64fe9bea2a0cc9e", 918, 19),
        (99, "3f7cb9e5fec94abcb6a380a39514e41b6a5587dd9e44fd30e99dba863981cbe8", 1353, 22),
        (149, "b573f94a445d6097cab9578df3eceb5a5067cc4b7b78d987148fbaebb7a37dd4", 1675, 27),
        (199, "38a6b0f986238ca9e66ad9c78acd523f462282d29640f2111f3293d45c54d14d", 1989, 29),
        (249, "a2220e7fb6097fa29b2e8eea5337090b34f0bf8e1683c14d2836d5ce6b7444bd", 1578, 25),
        (299, "9c9473f9b66b3749e16836a81703428e91dd68e14258b070034f2b7f21ff19b3", 1765, 28),
        (349, "5b1788e8ccecb1def53ec9d119788042150bf15067a5aa0b67227514ee4a64af", 1922, 30),
        (399, "12c82ae212d1e705e50ce6b543ff21070131068e91f98bfa24e097c2bd2a1fcb", 1544, 29),
    ];
    let mut tree = Tree::new();
    let mut state: u64 = 12345;
    let mut seen = 0;
    for step in 0..400usize {
        state = state.wrapping_mul(6364136223846793005).wrapping_add(1442695040888963407);
        let r = state >> 33;
        let key = pool[(r % 40) as usize];
        if (r >> 8) % 3 == 0 {
            tree.delete(&key).unwrap();
        } else {
            let value = vec![((r >> 16) & 0xff) as u8, (step & 0xff) as u8];
            tree.insert(key, LeafNode::new(value, (r >> 24) & 0xffff)).unwrap();
        }
        if step % 50 == 49 {
            let root = tree.root().unwrap();
            let (at, hash, sum, count) = expected[seen];
            assert_eq!(at, step);
            assert_eq!(hex(&root.node_hash()), hash);
            assert_eq!(root.node_sum(), sum);
            assert_eq!(entries_below(&Node::BranchNode(root.copy()), 0), count);
            assert_eq!(tree.store.num_compacted_leaves(), count);
            seen += 1;
        }
    }
    assert_eq!(seen, 8);
    let root = tree.root().unwrap();
    for key in &pool {
        let proof = tree.merkle_proof(key).unwrap();
        let claimed = proof.root(key, tree.get(key).unwrap());
        assert_eq!(claimed.node_hash(), root.node_hash());
        assert_eq!(claimed.node_sum(), root.node_sum());
    }
    for key in &pool {
        tree.delete(key).unwrap();
    }
    assert_eq!(
        hex(&tree.root().unwrap().node_hash()),
        "b1e8e8f2dc3b266452988cfe169aa73be25405eeead02ab5dd6b3c6fd0ca8d67"
    );
    assert_eq!(tree.store.num_branches(), 0);
    assert_eq!(tree.store.num_compacted_leaves(), 0);
}
