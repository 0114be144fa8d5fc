use mssmt::context::TaroContext;
use mssmt::errors::InvalidProofError;
use mssmt::merkle_proof::{CompressedProof, Proof};
use mssmt::node::{ComputedNode, LeafNode, MSSMTNode, Node};
use mssmt::tree::Tree;

fn key_one() -> [u8; 32] {
    let mut k = [0u8; 32];
    k[31] = 1;
    k
}

fn key_three() -> [u8; 32] {
    let mut k = [0u8; 32];
    k[31] = 3;
    k
}

fn sample_tree() -> Tree {
    let mut tree = Tree::new();
    tree.insert(key_one(), LeafNode::new(vec![1, 2, 3], 5)).unwrap();
    tree.insert(key_three(), LeafNode::new(vec![4], 1)).unwrap();
    tree.insert([0xff; 32], LeafNode::new(vec![9], 7)).unwrap();
    tree
}

fn same_commitments(a: &Proof, b: &Proof) -> bool {
    a.nodes.len() == b.nodes.len()
        && a.nodes.iter().zip(b.nodes.iter()).all(|(x, y)| x.is_equal(y))
}

#[test]
fn compress_then_decompress_gives_the_proof_back() {
    let tree = sample_tree();
    let ctx = TaroContext::init().unwrap();
    for key in [key_one(), key_three(), [0xff; 32], [0x55; 32]] {
        let proof = tree.merkle_proof(&key).unwrap();
        let packed = proof.compress(&ctx);
        assert_eq!(packed.bits.len(), 256);
        let unpacked = packed.decompress(&ctx).unwrap();
        assert!(same_commitments(&proof, &unpacked));
        let leaf = tree.get(&key).unwrap();
        let root = unpacked.root(&key, leaf);
        assert_eq!(root.node_hash(), tree.root().unwrap().node_hash());
    }
}

#[test]
fn compress_keeps_no_default_node() {
    let tree = sample_tree();
    let ctx = TaroContext::init().unwrap();
    let proof = tree.merkle_proof(&key_one()).unwrap();
    let packed = proof.compress(&ctx);
    assert_eq!(packed.nodes.len(), 2);
    assert_eq!(packed.bits.iter().filter(|b| !**b).count(), 2);
    assert!(!packed.bits[1]);
    assert!(!packed.bits[255]);
    assert!(packed.bits[0]);
    let mut next = 0;
    for i in 0..256 {
        if !packed.bits[i] {
            assert!(!packed.nodes[next].is_equal(&ctx.empty_tree[256 - i]));
            assert!(packed.nodes[next].is_equal(&proof.nodes[i]));
            next += 1;
        } else {
            assert!(proof.nodes[i].is_equal(&ctx.empty_tree[256 - i]));
        }
    }
}

#[test]
fn the_proof_of_an_empty_tree_compresses_to_bits_alone() {
    let tree = Tree::new();
    let ctx = TaroContext::init().unwrap();
    let proof = tree.merkle_proof(&key_one()).unwrap();
    let packed = proof.compress(&ctx);
    assert!(packed.nodes.is_empty());
    assert!(packed.bits.iter().all(|b| *b));
    let unpacked = packed.decompress(&ctx).unwrap();
    let root = unpacked.root(&key_one(), LeafNode::empty());
    assert_eq!(root.node_hash(), ctx.empty_tree[0].node_hash());
}

#[test]
fn decompress_refuses_a_count_of_nodes_that_differs_from_the_clear_bits() {
    let ctx = TaroContext::init().unwrap();
    let mut bits = vec![true; 256];
    bits[3] = false;
    let too_few = CompressedProof { bits: bits.clone(), nodes: Vec::new() };
    assert!(matches!(
        too_few.decompress(&ctx),
        Err(InvalidProofError::InvalidDecompressedProofError)
    ));
    let too_many = CompressedProof {
        bits: bits.clone(),
        nodes: vec![
            Node::ComputedNode(ComputedNode::new([1u8; 32], 1)),
            Node::ComputedNode(ComputedNode::new([2u8; 32], 2)),
        ],
    };
    assert!(matches!(
        too_many.decompress(&ctx),
        Err(InvalidProofError::InvalidDecompressedProofError)
    ));
    let right = CompressedProof {
        bits,
        nodes: vec![Node::ComputedNode(ComputedNode::new([1u8; 32], 1))],
    };
    let proof = right.decompress(&ctx).unwrap();
    assert_eq!(proof.nodes.len(), 256);
    assert_eq!(proof.nodes[3].node_hash(), [1u8; 32]);
    assert!(proof.nodes[4].is_equal(&ctx.empty_tree[252]));
}

#[test]
fn decompress_refuses_a_bit_vector_of_another_length() {
    let ctx = TaroContext::init().unwrap();
    let short = CompressedProof { bits: vec![true; 255], nodes: Vec::new() };
    assert!(matches!(
        short.decompress(&ctx),
        Err(InvalidProofError::InalidCompressedProofError)
    ));
    let long = CompressedProof { bits: vec![true; 257], nodes: Vec::new() };
    assert!(matches!(
        long.decompress(&ctx),
        Err(InvalidProofError::InalidCompressedProofError)
    ));
}

#[test]
fn checked_root_refuses_what_root_cannot_take() {
    let tree = sample_tree();
    let proof = tree.merkle_proof(&key_one()).unwrap();
    let good = proof.checked_root(&key_one(), tree.get(&key_one()).unwrap()).unwrap();
    assert_eq!(good.node_hash(), tree.root().unwrap().node_hash());
    assert_eq!(good.node_sum(), 13);
    assert!(proof
        .checked_root(&key_one(), LeafNode::new(vec![1], u64::MAX - 7))
        .is_none());
    assert!(proof
        .checked_root(&key_one(), LeafNode::new(vec![1], u64::MAX - 8))
        .is_some());
    let short = Proof::new(Vec::new());
    assert!(short.checked_root(&key_one(), LeafNode::empty()).is_none());
}

#[test]
fn a_copy_of_a_proof_leads_to_the_same_root() {
    let tree = sample_tree();
    let proof = tree.merkle_proof(&key_three()).unwrap();
    let copy = proof.copy();
    assert!(same_commitments(&proof, &copy));
    let a = proof.root(&key_three(), tree.get(&key_three()).unwrap());
    let b = copy.root(&key_three(), tree.get(&key_three()).unwrap());
    assert_eq!(a.node_hash(), b.node_hash());
}

#[test]
fn the_sibling_next_to_the_leaf_comes_first() {
    let tree = sample_tree();
    let proof = tree.merkle_proof(&key_one()).unwrap();
    // Keys 0x..01 and 0x..03 part at bit 254: the sibling of that level
    // stands at index 1, and the sibling next to the root at index 255.
    assert_eq!(proof.nodes[1].node_sum(), 1);
    assert_eq!(proof.nodes[255].node_sum(), 7);
    assert_eq!(proof.nodes[0].node_sum(), 0);
}
