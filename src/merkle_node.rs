//! Nodes of the hash tree: leaves that hold a block, branches that hold two children.

use crate::digest::{combine, combine_spec, hash_block, sha256_of};
use vstd::prelude::*;

verus! {

/// A node of the tree: a leaf with its block and digest, or a branch with its
/// two children and the digest of their digests.
pub enum MerkleNode {
    Leaf { data: Vec<u8>, hash: Vec<u8> },
    Branch { left: Box<MerkleNode>, right: Box<MerkleNode>, hash: Vec<u8> },
}

impl MerkleNode {
    /// The digest stored in the node.
    pub open spec fn digest(self) -> Seq<u8> {
        match self {
            MerkleNode::Leaf { hash, .. } => hash@,
            MerkleNode::Branch { hash, .. } => hash@,
        }
    }

    /// Every digest in the node is a 32-byte hash of what it summarises: a
    /// leaf's digest hashes its block, a branch's hashes its children's
    /// digests, left first.
    pub open spec fn wf(self) -> bool
        decreases self,
    {
        match self {
            MerkleNode::Leaf { data, hash } => hash@ == sha256_of(data@) && hash@.len() == 32,
            MerkleNode::Branch { left, right, hash } => {
                &&& left.wf()
                &&& right.wf()
                &&& hash@ == combine_spec(left.digest(), right.digest())
                &&& hash@.len() == 32
            },
        }
    }

    /// The blocks of the leaves under the node, left to right.
    pub open spec fn leaf_blocks(self) -> Seq<Seq<u8>>
        decreases self,
    {
        match self {
            MerkleNode::Leaf { data, .. } => seq![data@],
            MerkleNode::Branch { left, right, .. } => left.leaf_blocks() + right.leaf_blocks(),
        }
    }

    /// The number of edges on the longest path from the node down to a leaf.
    pub open spec fn height(self) -> nat
        decreases self,
    {
        match self {
            MerkleNode::Leaf { .. } => 0,
            MerkleNode::Branch { left, right, .. } => {
                let (l, r) = (left.height(), right.height());
                1 + if l >= r {
                    l
                } else {
                    r
                }
            },
        }
    }

    /// The number of branch nodes in the node.
    pub open spec fn branch_count(self) -> nat
        decreases self,
    {
        match self {
            MerkleNode::Leaf { .. } => 0,
            MerkleNode::Branch { left, right, .. } => 1 + left.branch_count()
                + right.branch_count(),
        }
    }

    /// `self` and `other` have the same shape, blocks and digests.
    pub open spec fn same_as(self, other: MerkleNode) -> bool
        decreases self,
    {
        match (self, other) {
            (MerkleNode::Leaf { data: d1, hash: h1 }, MerkleNode::Leaf { data: d2, hash: h2 }) => {
                d1@ == d2@ && h1@ == h2@
            },
            (
                MerkleNode::Branch { left: l1, right: r1, hash: h1 },
                MerkleNode::Branch { left: l2, right: r2, hash: h2 },
            ) => l1.same_as(*l2) && r1.same_as(*r2) && h1@ == h2@,
            _ => false,
        }
    }

    /// Makes a leaf for `data`, hashing it once.
    pub fn new_leaf(data: Vec<u8>) -> (r: Self)
        ensures
            r.wf(),
            r is Leaf,
            r->Leaf_data@ == data@,
            r.digest() == sha256_of(data@),
            r.digest().len() == 32,
    {
        let hash = hash_block(data.as_slice());
        MerkleNode::Leaf { data, hash }
    }

    /// Makes a branch over `left` and `right`.
    pub fn new_branch(left: MerkleNode, right: MerkleNode) -> (r: Self)
        ensures
            r is Branch,
            *r->Branch_left == left,
            *r->Branch_right == right,
            r.digest() == combine_spec(left.digest(), right.digest()),
            r.digest().len() == 32,
            r.wf() == (left.wf() && right.wf()),
    {
        let hash = combine(left.digest_ref(), right.digest_ref());
        MerkleNode::Branch { left: Box::new(left), right: Box::new(right), hash }
    }

    /// A copy of the node's digest.
    pub fn hash(&self) -> (r: Vec<u8>)
        ensures
            r@ == self.digest(),
    {
        let h = self.digest_ref();
        let r = h.clone();
        assert(r@ =~= h@);
        r
    }

    /// The node's digest, borrowed.
    pub(crate) fn digest_ref(&self) -> (r: &Vec<u8>)
        ensures
            r@ == self.digest(),
    {
        match self {
            MerkleNode::Leaf { hash, .. } => hash,
            MerkleNode::Branch { hash, .. } => hash,
        }
    }

    /// A deep copy of the node, with the same kind, digests and blocks.
    pub fn duplicate(&self) -> (r: Self)
        ensures
            r.height() == self.height(),
            self.same_as(r),
            r.leaf_blocks() == self.leaf_blocks(),
            r.branch_count() == self.branch_count(),
            r.digest() == self.digest(),
            r.wf() == self.wf(),
            r is Leaf <==> self is Leaf,
        decreases self,
    {
        match self {
            MerkleNode::Leaf { data, hash } => {
                let d = data.clone();
                let h = hash.clone();
                assert(d@ =~= data@);
                assert(h@ =~= hash@);
                MerkleNode::Leaf { data: d, hash: h }
            },
            MerkleNode::Branch { left, right, hash } => {
                let l = left.duplicate();
                let r = right.duplicate();
                let h = hash.clone();
                assert(h@ =~= hash@);
                MerkleNode::Branch { left: Box::new(l), right: Box::new(r), hash: h }
            },
        }
    }
}

/// A binary tree has one branch fewer than it has leaves.
pub proof fn lemma_branch_count(node: MerkleNode)
    ensures
        node.branch_count() + 1 == node.leaf_blocks().len(),
    decreases node,
{
    if let MerkleNode::Branch { left, right, .. } = node {
        lemma_branch_count(*left);
        lemma_branch_count(*right);
    }
}

impl Clone for MerkleNode {
    fn clone(&self) -> (r: Self)
        ensures
            r.height() == self.height(),
            self.same_as(r),
            r.leaf_blocks() == self.leaf_blocks(),
            r.branch_count() == self.branch_count(),
            r.digest() == self.digest(),
            r.wf() == self.wf(),
            r is Leaf <==> self is Leaf,
    {
        self.duplicate()
    }
}

} // verus!
