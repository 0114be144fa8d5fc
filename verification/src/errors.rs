//! The errors that the operations of the tree report.

use crate::hashing::NodeHash;
use crate::node::Node;
use vstd::prelude::*;

verus! {

/// An update that the tree refuses.
#[derive(Debug, Clone, Copy, PartialEq, Eq)]
pub enum MSSMTError {
    /// The value of the leaf is longer than the maximum leaf size.
    MaxLeafSizeError,
    /// The sum of the tree would no longer fit in 64 bits.
    SumOverflowError,
}

/// A compressed proof that cannot be turned back into a proof.
#[derive(Debug, Clone, Copy, PartialEq, Eq)]
pub enum InvalidProofError {
    /// The bit vector does not have one bit per level.
    InalidCompressedProofError,
    /// The number of clear bits differs from the number of stored nodes.
    InvalidDecompressedProofError,
}

/// A transaction on a store that could not be opened or committed.
#[derive(Debug, Clone, Copy, PartialEq, Eq)]
pub enum TreeStoreError {
    /// An update transaction could not be opened or committed.
    TreeStoreUpdateTxError,
    /// A view transaction could not be opened.
    TreeStoreViewTxError,
    /// A driver is registered under the name already.
    TreeStoreAlreadyRegisteredError,
}

/// A failure to build the context.
#[derive(Debug, Clone, Copy, PartialEq, Eq)]
pub enum TaroContextError {
    /// The ladder of empty subtrees could not be built.
    EmptyTreeError,
}

/// A failure of the in-memory store.
#[derive(Debug)]
pub enum DefaultStoreError {
    /// An update was given up; the store is as it was before.
    DefaultStoreUpdateError,
    /// The store holds no node under the hash asked for, or holds it
    /// without its children.
    DefaultStoreViewError,
    /// The node under the hash asked for is not a branch.
    DefaultStoreUnexpectedNodeTypeError(DefaultStoreUnexpectedNodeTypeError),
}

/// The node that was found where a branch was expected, with the hash under
/// which it was looked up.
#[derive(Debug)]
pub struct DefaultStoreUnexpectedNodeTypeError {
    pub node: Node,
    pub key: NodeHash,
}

/// The message for a node of the kind named that was found under a hash.
pub uninterp spec fn unexpected_text(kind: Seq<char>, key: Seq<u8>) -> Seq<char>;

/// Formats the message of an unexpected node with the `format` macro of
/// the standard library. The contract names the text: it depends on the
/// name of the kind and on the hash alone.
#[verifier::external_body]
fn format_unexpected(kind: &str, key: &NodeHash) -> (r: String)
    ensures
        r@ == unexpected_text(kind@, key@),
{
    format!("unexpected node type with (node, key) ({}:{:02x?})", kind, key)
}

impl DefaultStoreUnexpectedNodeTypeError {
    /// The name of the kind of the node found.
    pub open spec fn kind_name(&self) -> Seq<char> {
        match self.node {
            Node::BranchNode(_) => "branch"@,
            Node::LeafNode(_) => "leaf"@,
            Node::ComputedNode(_) => "computed"@,
            Node::CompactedLeafNode(_) => "compacted leaf"@,
        }
    }

    /// Returns the message of the error: the kind of the node found and
    /// the hash under which it was looked up.
    pub fn to_string(&self) -> (r: String)
        ensures
            r@ == unexpected_text(self.kind_name(), self.key@),
    {
        let kind = match &self.node {
            Node::BranchNode(_) => "branch",
            Node::LeafNode(_) => "leaf",
            Node::ComputedNode(_) => "computed",
            Node::CompactedLeafNode(_) => "compacted leaf",
        };
        format_unexpected(kind, &self.key)
    }
}

} // verus!
