//! Merkle proofs: the siblings on the path of a key, the root that they
//! lead to, and their compressed form.

use crate::context::TaroContext;
use crate::errors::InvalidProofError;
use crate::key::{bit, bit_index, Key};
use crate::model::{empty_commit, join, Commitment};
use crate::node::{BranchNode, LeafNode, Node};
use std::sync::Arc;
use vstd::prelude::*;

verus! {

/// The commitments of a sequence of nodes.
pub open spec fn commitments(nodes: Seq<Node>) -> Seq<Commitment> {
    Seq::new(nodes.len(), |i: int| nodes[i]@.commitment())
}

/// The siblings of a proof by tree level: a proof lists them from the leaf
/// up, so that the sibling of level `l` stands at index `255 - l`.
pub open spec fn by_level(siblings: Seq<Commitment>) -> Seq<Commitment> {
    Seq::new(256, |l: int| siblings[255 - l])
}

/// The commitment at height `lo` that is reached from the commitment `x` at
/// height `hi` on the path of `key`, where `levels[l]` is the sibling that
/// `key` passes by at level `l`.
pub open spec fn climb(key: Seq<u8>, x: Commitment, levels: Seq<Commitment>, lo: nat, hi: nat) -> Commitment
    decreases hi - lo,
{
    if lo >= hi {
        x
    } else {
        join(bit(key, lo as int), climb(key, x, levels, lo + 1, hi), levels[lo as int])
    }
}

/// The root that a proof leads to from a leaf under `key`.
pub open spec fn proof_root(key: Seq<u8>, leaf: Commitment, siblings: Seq<Commitment>) -> Commitment {
    climb(key, leaf, by_level(siblings), 0, 256)
}

/// The number of clear bits among the first `n` bits.
pub open spec fn rank(bits: Seq<bool>, n: nat) -> nat
    decreases n,
{
    if n == 0 {
        0
    } else {
        rank(bits, (n - 1) as nat) + (if bits[n - 1] { 0nat } else { 1nat })
    }
}

/// Whether the sibling at index `i` of a proof is the default node of its
/// height, `256 - i`.
pub open spec fn is_default_at(siblings: Seq<Commitment>, i: int) -> bool {
    siblings[i] == empty_commit((256 - i) as nat)
}

/// The bit vector of a compressed proof: a set bit for each default sibling.
pub open spec fn packed_bits(siblings: Seq<Commitment>) -> Seq<bool> {
    Seq::new(256, |i: int| is_default_at(siblings, i))
}

/// The first `n` siblings of a proof without the default ones.
pub open spec fn packed_nodes(siblings: Seq<Commitment>, n: nat) -> Seq<Commitment>
    decreases n,
{
    if n == 0 {
        Seq::empty()
    } else if is_default_at(siblings, n - 1) {
        packed_nodes(siblings, (n - 1) as nat)
    } else {
        packed_nodes(siblings, (n - 1) as nat).push(siblings[n - 1])
    }
}

/// The siblings that a bit vector and the nodes stored beside it stand for.
pub open spec fn unpacked(bits: Seq<bool>, nodes: Seq<Commitment>) -> Seq<Commitment> {
    Seq::new(
        256,
        |i: int|
            if bits[i] {
                empty_commit((256 - i) as nat)
            } else {
                nodes[rank(bits, i as nat) as int]
            },
    )
}

/// A Merkle proof: the 256 siblings on the path of a key, the one next to
/// the leaf first.
pub struct Proof {
    pub nodes: Vec<Node>,
}

/// A proof in which a bit vector takes the place of the default siblings.
pub struct CompressedProof {
    pub bits: Vec<bool>,
    pub nodes: Vec<Node>,
}

/// The model of a compressed proof.
pub struct CompressedView {
    pub bits: Seq<bool>,
    pub nodes: Seq<Commitment>,
}

impl View for Proof {
    type V = Seq<Commitment>;

    open spec fn view(&self) -> Seq<Commitment> {
        commitments(self.nodes@)
    }
}

impl View for CompressedProof {
    type V = CompressedView;

    open spec fn view(&self) -> CompressedView {
        CompressedView { bits: self.bits@, nodes: commitments(self.nodes@) }
    }
}

/// The sum on the way up never exceeds the sum at the top.
pub proof fn lemma_climb_sum(key: Seq<u8>, x: Commitment, levels: Seq<Commitment>, lo: nat, mid: nat, hi: nat)
    requires
        lo <= mid <= hi,
    ensures
        climb(key, x, levels, mid, hi).sum <= climb(key, x, levels, lo, hi).sum,
    decreases mid - lo,
{
    if lo < mid {
        lemma_climb_sum(key, x, levels, lo + 1, mid, hi);
    }
}

/// The number of clear bits grows with the number of bits counted.
pub proof fn lemma_rank_bounds(bits: Seq<bool>, i: nat, n: nat)
    requires
        i <= n,
    ensures
        rank(bits, i) <= rank(bits, n),
        rank(bits, n) <= n,
        i < n && !bits[i as int] ==> rank(bits, i) < rank(bits, n),
    decreases n,
{
    if n > 0 {
        if i < n {
            lemma_rank_bounds(bits, i, (n - 1) as nat);
        }
        lemma_rank_bounds(bits, 0, (n - 1) as nat);
    }
}

/// The nodes kept by compression are as many as the clear bits, and each
/// stands at the place that the clear bits before it count.
pub proof fn lemma_packed(siblings: Seq<Commitment>, n: nat)
    requires
        siblings.len() == 256,
        n <= 256,
    ensures
        packed_nodes(siblings, n).len() == rank(packed_bits(siblings), n),
        forall|i: int|
            0 <= i < n && !is_default_at(siblings, i) ==> #[trigger] packed_nodes(siblings, n)[rank(
                packed_bits(siblings),
                i as nat,
            ) as int] == siblings[i],
    decreases n,
{
    let bits = packed_bits(siblings);
    if n > 0 {
        lemma_packed(siblings, (n - 1) as nat);
        assert forall|i: int| 0 <= i < n && !is_default_at(siblings, i) implies #[trigger] packed_nodes(
            siblings,
            n,
        )[rank(bits, i as nat) as int] == siblings[i] by {
            lemma_rank_bounds(bits, i as nat, (n - 1) as nat);
        }
    }
}

impl Proof {
    /// Makes a proof of its siblings.
    pub fn new(nodes: Vec<Node>) -> (r: Self)
        ensures
            r.nodes == nodes,
    {
        Proof { nodes }
    }

    /// Returns the root that the proof leads to from `leaf` under `key`:
    /// the leaf is joined with each sibling in turn, on the side that the
    /// bit of the key at that level tells.
    pub fn root(&self, key: &Key, leaf: LeafNode) -> (r: BranchNode)
        requires
            self.nodes@.len() == 256,
            proof_root(key@, leaf@.commitment(), self@).sum <= u64::MAX,
        ensures
            r@.commitment() == proof_root(key@, leaf@.commitment(), self@),
    {
        let ghost levels = by_level(self@);
        let ghost start = leaf@.commitment();
        proof {
            lemma_climb_sum(key@, start, levels, 0, 255, 256);
            assert(climb(key@, start, levels, 256, 256) == start);
        }
        let first = self.nodes[0].copy();
        let mut current: BranchNode = if bit_index(255, key) {
            BranchNode::new_branch(Arc::new(first), Arc::new(Node::LeafNode(leaf)))
        } else {
            BranchNode::new_branch(Arc::new(Node::LeafNode(leaf)), Arc::new(first))
        };
        let mut i: usize = 1;
        while i < 256
            invariant
                1 <= i <= 256,
                self.nodes@.len() == 256,
                levels == by_level(self@),
                climb(key@, start, levels, 0, 256).sum <= u64::MAX,
                current@.commitment() == climb(key@, start, levels, (256 - i) as nat, 256),
            decreases 256 - i,
        {
            let level: usize = 255 - i;
            proof {
                lemma_climb_sum(key@, start, levels, 0, level as nat, 256);
            }
            let sibling = self.nodes[i].copy();
            current = if bit_index(level, key) {
                BranchNode::new_branch(Arc::new(sibling), Arc::new(Node::BranchNode(current)))
            } else {
                BranchNode::new_branch(Arc::new(Node::BranchNode(current)), Arc::new(sibling))
            };
            i = i + 1;
        }
        current
    }

    /// Returns the root that the proof leads to from `leaf` under `key`,
    /// or nothing where the proof does not have 256 siblings or the sums on
    /// the way do not fit in 64 bits.
    pub fn checked_root(&self, key: &Key, leaf: LeafNode) -> (r: Option<BranchNode>)
        ensures
            r is Some <==> self.nodes@.len() == 256 && proof_root(key@, leaf@.commitment(), self@).sum
                <= u64::MAX,
            r matches Some(b) ==> b@.commitment() == proof_root(key@, leaf@.commitment(), self@),
    {
        if self.nodes.len() != 256 {
            return None;
        }
        let ghost levels = by_level(self@);
        let ghost start = leaf@.commitment();
        let mut total: u64 = leaf.sum;
        let mut i: usize = 0;
        while i < 256
            invariant
                i <= 256,
                self.nodes@.len() == 256,
                levels == by_level(self@),
                start == leaf@.commitment(),
                total == climb(key@, start, levels, (256 - i) as nat, 256).sum,
            decreases 256 - i,
        {
            let sum = self.nodes[i].node_sum();
            proof {
                lemma_climb_sum(key@, start, levels, 0, (255 - i) as nat, 256);
                assert(levels[255 - i] == self@[i as int]);
                assert(climb(key@, start, levels, (255 - i) as nat, 256).sum == total + sum);
            }
            if sum > u64::MAX - total {
                return None;
            }
            total = total + sum;
            i = i + 1;
        }
        Some(self.root(key, leaf))
    }

    /// Returns a copy of the proof.
    pub fn copy(&self) -> (r: Self)
        ensures
            r.nodes@.len() == self.nodes@.len(),
            forall|i: int| 0 <= i < self.nodes@.len() ==> (#[trigger] r.nodes@[i])@ == self.nodes@[i]@,
            r@ == self@,
    {
        let mut nodes: Vec<Node> = Vec::new();
        let mut i: usize = 0;
        while i < self.nodes.len()
            invariant
                i <= self.nodes@.len(),
                nodes@.len() == i,
                forall|j: int| 0 <= j < i ==> (#[trigger] nodes@[j])@ == self.nodes@[j]@,
            decreases self.nodes@.len() - i,
        {
            nodes.push(self.nodes[i].copy());
            i = i + 1;
        }
        assert(commitments(nodes@) =~= commitments(self.nodes@));
        Proof { nodes }
    }

    /// Compresses the proof: each sibling that is the default node of its
    /// height becomes a set bit, every other sibling is kept, in order.
    pub fn compress(&self, ctx: &TaroContext) -> (r: CompressedProof)
        requires
            ctx.wf(),
            self.nodes@.len() == 256,
        ensures
            r@.bits == packed_bits(self@),
            r@.nodes == packed_nodes(self@, 256),
            r.wf(),
    {
        let mut bits: Vec<bool> = Vec::new();
        let mut nodes: Vec<Node> = Vec::new();
        let mut i: usize = 0;
        while i < 256
            invariant
                ctx.wf(),
                i <= 256,
                self.nodes@.len() == 256,
                bits@.len() == i,
                forall|j: int| 0 <= j < i ==> bits@[j] == is_default_at(self@, j),
                commitments(nodes@) == packed_nodes(self@, i as nat),
            decreases 256 - i,
        {
            let ghost before = nodes@;
            let node = &self.nodes[i];
            if node.is_equal(&ctx.empty_tree[256 - i]) {
                bits.push(true);
            } else {
                bits.push(false);
                nodes.push(node.copy());
                assert(commitments(nodes@) =~= commitments(before).push(self@[i as int]));
            }
            i = i + 1;
        }
        proof {
            assert(bits@ =~= packed_bits(self@));
            lemma_packed(self@, 256);
        }
        CompressedProof { bits, nodes }
    }
}

impl CompressedProof {
    /// The bit vector has one bit for each level, and its clear bits are as
    /// many as the stored nodes.
    pub open spec fn wf(&self) -> bool {
        &&& self.bits@.len() == 256
        &&& rank(self.bits@, 256) == self.nodes@.len()
    }

    /// Turns the compressed proof back into a proof: a set bit gives the
    /// default node of its height, a clear bit the next stored node.
    pub fn decompress(&self, ctx: &TaroContext) -> (r: Result<Proof, InvalidProofError>)
        requires
            ctx.wf(),
        ensures
            r is Ok <==> self.wf(),
            r matches Ok(p) ==> p.nodes@.len() == 256 && p@ == unpacked(self@.bits, self@.nodes),
            r matches Err(e) ==> (e == InvalidProofError::InalidCompressedProofError <==> self.bits@.len()
                != 256),
    {
        if self.bits.len() != 256 {
            return Err(InvalidProofError::InalidCompressedProofError);
        }
        let mut expected: usize = 0;
        let mut i: usize = 0;
        while i < 256
            invariant
                i <= 256,
                self.bits@.len() == 256,
                expected == rank(self.bits@, i as nat),
                expected <= i,
            decreases 256 - i,
        {
            if !self.bits[i] {
                expected = expected + 1;
            }
            i = i + 1;
        }
        if expected != self.nodes.len() {
            return Err(InvalidProofError::InvalidDecompressedProofError);
        }
        let mut nodes: Vec<Node> = Vec::new();
        let mut next: usize = 0;
        let mut i: usize = 0;
        while i < 256
            invariant
                ctx.wf(),
                i <= 256,
                self.bits@.len() == 256,
                rank(self.bits@, 256) == self.nodes@.len(),
                next == rank(self.bits@, i as nat),
                nodes@.len() == i,
                forall|j: int|
                    0 <= j < i ==> (#[trigger] nodes@[j])@.commitment() == unpacked(self@.bits, self@.nodes)[j],
            decreases 256 - i,
        {
            proof {
                lemma_rank_bounds(self.bits@, i as nat, 256);
            }
            if self.bits[i] {
                nodes.push(ctx.empty_node(256 - i));
            } else {
                nodes.push(self.nodes[next].copy());
                next = next + 1;
            }
            i = i + 1;
        }
        let p = Proof { nodes };
        assert(p@ =~= unpacked(self@.bits, self@.nodes));
        Ok(p)
    }
}

} // verus!
