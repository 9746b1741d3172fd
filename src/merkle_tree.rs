//! The tree: built once from a list of blocks, then read for its root digest
//! and for membership proofs.

use crate::digest::{combine, hash_block, hex_text, same_bytes, sha256_of, to_hex};
use crate::levels::{
    all_leaves, all_wf, ceil_log2, digests, lemma_level_blocks_of_leaves, level_blocks,
    merkle_root, next_level, padded, path_from, proof_view, replay, root_of_level, sibling_step,
    tallest_first, tree_leaves, ProofStep,
};
use crate::merkle_node::{lemma_branch_count, MerkleNode};
use vstd::prelude::*;

verus! {

/// A membership proof: sibling digests from the leaf's level up, each flagged
/// true when the sibling goes on the left of the running digest.
pub type MerkleProof = Vec<(Vec<u8>, bool)>;

/// The bytes of each block, in order.
pub open spec fn blocks_view(blocks: Seq<Vec<u8>>) -> Seq<Seq<u8>> {
    blocks.map_values(|b: Vec<u8>| b@)
}

/// A hash tree over a fixed list of blocks. Its view is the sequence of leaf
/// digests after padding.
pub struct MerkleTree {
    root: Option<MerkleNode>,
    leaves: Vec<MerkleNode>,
}

impl View for MerkleTree {
    type V = Seq<Seq<u8>>;

    closed spec fn view(&self) -> Seq<Seq<u8>> {
        digests(self.leaves@)
    }
}

impl MerkleTree {
    /// The blocks held by the leaves, in order, the repeated one included.
    pub closed spec fn blocks(self) -> Seq<Seq<u8>> {
        self.leaves@.map_values(|n: MerkleNode| n->Leaf_data@)
    }
}

/// Combines each pair of neighbours of `level` into a branch, left to right,
/// and carries a last node without a partner up unchanged.
fn pair_up(level: &Vec<MerkleNode>) -> (r: Vec<MerkleNode>)
    requires
        all_wf(level@),
    ensures
        all_wf(r@),
        digests(r@) == next_level(digests(level@)),
        level_blocks(r@) == level_blocks(level@),
        level@.len() >= 2 && tallest_first(level@) ==> tallest_first(r@) && r@[0].height()
            == level@[0].height() + 1,
{
    let n = level.len();
    let mut next: Vec<MerkleNode> = Vec::new();
    let mut i: usize = 0;
    while i < n
        invariant
            n == level@.len(),
            all_wf(level@),
            i <= n,
            i % 2 == 0 || i == n,
            next@.len() == (i + 1) / 2,
            all_wf(next@),
            forall|k: int|
                0 <= k < next@.len() ==> #[trigger] next@[k].digest() == next_level(
                    digests(level@),
                )[k],
            level_blocks(next@) == level_blocks(level@.subrange(0, i as int)),
            n >= 2 && tallest_first(level@) ==> {
                &&& forall|k: int|
                    0 <= k < next@.len() ==> #[trigger] next@[k].height() <= level@[0].height()
                        + 1
                &&& next@.len() > 0 ==> next@[0].height() == level@[0].height() + 1
            },
        decreases n - i,
    {
        let ghost prev = next@;
        let ghost pre = level@.subrange(0, i as int);
        if n - i >= 2 {
            let left = level[i].clone();
            let right = level[i + 1].clone();
            let branch = MerkleNode::new_branch(left, right);
            let ghost made = branch;
            assert(made.height() == 1 + if left.height() >= right.height() {
                left.height()
            } else {
                right.height()
            });
            next.push(branch);
            proof {
                let s1 = level@.subrange(0, i + 1);
                let s2 = level@.subrange(0, i + 2);
                assert(s2.drop_last() =~= s1);
                assert(s1.drop_last() =~= pre);
                assert(s2.last() == level@[i + 1]);
                assert(s1.last() == level@[i as int]);
                assert(next@.drop_last() =~= prev);
                assert(next@.last() == made);
                assert(made.leaf_blocks() == left.leaf_blocks() + right.leaf_blocks());
                assert(level_blocks(s1) == level_blocks(pre) + level@[i as int].leaf_blocks());
                assert(level_blocks(s2) == level_blocks(s1) + level@[i + 1].leaf_blocks());
                assert(level_blocks(next@) =~= level_blocks(s2));
            }
            i = i + 2;
        } else {
            next.push(level[i].clone());
            proof {
                let s1 = level@.subrange(0, i + 1);
                assert(s1.drop_last() =~= pre);
                assert(next@.drop_last() =~= prev);
            }
            i = i + 1;
        }
    }
    assert(level@.subrange(0, n as int) =~= level@);
    assert(digests(next@) =~= next_level(digests(level@)));
    next
}

impl MerkleTree {
    #[verifier::type_invariant]
    spec fn inv(self) -> bool {
        &&& all_wf(self.leaves@)
        &&& forall|i: int| 0 <= i < self.leaves@.len() ==> #[trigger] self.leaves@[i] is Leaf
        &&& match self.root {
            None => self.leaves@.len() == 0,
            Some(node) => {
                &&& self.leaves@.len() > 0
                &&& node.wf()
                &&& node.digest() == root_of_level(digests(self.leaves@))
                &&& node.leaf_blocks() == self.blocks()
            },
        }
    }

    /// The root digest: none for an empty tree, else what the leaf level reduces to.
    pub open spec fn root_digest(self) -> Option<Seq<u8>> {
        if self@.len() == 0 {
            None
        } else {
            Some(root_of_level(self@))
        }
    }

    /// Builds the tree over `data_items`: one leaf per block in order, the last
    /// leaf repeated when there are an odd number above one, then pairs
    /// combined level by level up to the root.
    pub fn new(data_items: Vec<Vec<u8>>) -> (r: Self)
        ensures
            r@ == tree_leaves(blocks_view(data_items@)),
            r.root_digest() == merkle_root(blocks_view(data_items@)),
            r.blocks() == padded(blocks_view(data_items@)),
            r@.len() == r.blocks().len(),
            forall|k: int|
                0 <= k < r@.len() ==> #[trigger] r@[k] == sha256_of(r.blocks()[k]) && r@[k].len()
                    == 32,
    {
        let ghost blocks = blocks_view(data_items@);
        let n = data_items.len();
        if n == 0 {
            let r = MerkleTree { root: None, leaves: Vec::new() };
            assert(r@ =~= tree_leaves(blocks));
            assert(r.blocks() =~= padded(blocks));
            return r;
        }
        let mut leaves: Vec<MerkleNode> = Vec::new();
        let mut i: usize = 0;
        while i < n
            invariant
                n == data_items@.len(),
                blocks == blocks_view(data_items@),
                i <= n,
                leaves@.len() == i,
                all_wf(leaves@),
                forall|k: int| 0 <= k < i ==> #[trigger] leaves@[k] is Leaf,
                forall|k: int|
                    0 <= k < i ==> #[trigger] leaves@[k].digest() == sha256_of(blocks[k]),
                forall|k: int| 0 <= k < i ==> #[trigger] leaves@[k]->Leaf_data@ == blocks[k],
            decreases n - i,
        {
            let block = data_items[i].clone();
            assert(block@ =~= data_items@[i as int]@);
            leaves.push(MerkleNode::new_leaf(block));
            i = i + 1;
        }
        if n > 1 && n % 2 == 1 {
            let last = leaves[n - 1].clone();
            proof {
                assert(last.leaf_blocks() == seq![last->Leaf_data@]);
                assert(last.leaf_blocks()[0] == leaves@[n - 1]->Leaf_data@);
            }
            leaves.push(last);
        }
        assert(digests(leaves@) =~= tree_leaves(blocks));
        let ghost held = leaves@.map_values(|m: MerkleNode| m->Leaf_data@);
        assert(held =~= padded(blocks));
        let leaves_copy = leaves.clone();
        assert forall|k: int| 0 <= k < leaves@.len() implies {
            &&& (#[trigger] leaves_copy@[k]).digest() == leaves@[k].digest()
            &&& leaves_copy@[k].wf()
            &&& leaves_copy@[k] is Leaf
            &&& leaves_copy@[k]->Leaf_data@ == leaves@[k]->Leaf_data@
        } by {
            assert(cloned::<MerkleNode>(leaves@[k], leaves_copy@[k]));
            assert(leaves_copy@[k].leaf_blocks()[0] == leaves@[k].leaf_blocks()[0]);
        }
        assert(digests(leaves_copy@) =~= digests(leaves@));
        proof {
            lemma_level_blocks_of_leaves(leaves@);
        }
        let ghost built_from = leaves@;
        let root = Self::build_tree(leaves);
        assert(leaves_copy@.map_values(|m: MerkleNode| m->Leaf_data@) =~= held);
        assert(built_from.map_values(|m: MerkleNode| m->Leaf_data@) =~= held);
        MerkleTree { root: Some(root), leaves: leaves_copy }
    }

    /// Reduces a non-empty level of nodes to its root node.
    fn build_tree(nodes: Vec<MerkleNode>) -> (r: MerkleNode)
        requires
            nodes@.len() >= 1,
            all_wf(nodes@),
        ensures
            r.wf(),
            r.digest() == root_of_level(digests(nodes@)),
            r.leaf_blocks() == level_blocks(nodes@),
            nodes@.len() == 1 ==> r == nodes@[0],
            all_leaves(nodes@) ==> r.branch_count() + 1 == nodes@.len(),
            tallest_first(nodes@) ==> r.height() == nodes@[0].height() + ceil_log2(
                nodes@.len(),
            ),
            all_leaves(nodes@) ==> r.height() == ceil_log2(nodes@.len()),
        decreases nodes@.len(),
    {
        let ghost input = nodes@;
        let r = if nodes.len() == 1 {
            let mut nodes = nodes;
            assert(input.drop_last() =~= Seq::<MerkleNode>::empty());
            assert(level_blocks(input.drop_last()) == Seq::<Seq<u8>>::empty());
            assert(level_blocks(input) =~= input[0].leaf_blocks());
            nodes.pop().unwrap()
        } else {
            let next_level = pair_up(&nodes);
            assert(next_level@.len() == digests(next_level@).len());
            assert(nodes@.len() == digests(nodes@).len());
            assert(next_level@.len() == (nodes@.len() + 1) / 2);
            Self::build_tree(next_level)
        };
        proof {
            if all_leaves(input) {
                lemma_level_blocks_of_leaves(input);
                lemma_branch_count(r);
                assert(tallest_first(input));
            }
        }
        r
    }

    /// A copy of the root digest; none for an empty tree.
    pub fn root_hash(&self) -> (r: Option<Vec<u8>>)
        ensures
            match r {
                Some(h) => self.root_digest() == Some(h@) && h@.len() == 32,
                None => self.root_digest() == None::<Seq<u8>>,
            },
    {
        proof {
            use_type_invariant(self);
        }
        match &self.root {
            Some(node) => Some(node.hash()),
            None => None,
        }
    }

    /// The root digest in lower-case hex, or `Empty tree` for an empty tree.
    pub fn root_hash_hex(&self) -> (r: String)
        ensures
            match self.root_digest() {
                Some(h) => r@ == hex_text(h),
                None => r@ == "Empty tree"@,
            },
    {
        match self.root_hash() {
            Some(hash) => to_hex(&hash),
            None => String::from_str("Empty tree"),
        }
    }

    /// The proof for `data`: found by the first leaf whose digest is the digest
    /// of `data`, it is that leaf's sibling path; none when no leaf matches.
    pub fn generate_proof(&self, data: &[u8]) -> (r: Option<MerkleProof>)
        ensures
            match r {
                None => forall|k: int| 0 <= k < self@.len() ==> self@[k] != sha256_of(data@),
                Some(p) => exists|k: int|
                    {
                        &&& 0 <= k < self@.len()
                        &&& self@[k] == sha256_of(data@)
                        &&& forall|j: int| 0 <= j < k ==> self@[j] != sha256_of(data@)
                        &&& proof_view(p@) == path_from(self@, k)
                    },
            },
    {
        proof {
            use_type_invariant(self);
        }
        let target = hash_block(data);
        let n = self.leaves.len();
        let mut pos: usize = 0;
        while pos < n && !same_bytes(self.leaves[pos].digest_ref().as_slice(), target.as_slice())
            invariant
                n == self@.len(),
                pos <= n,
                forall|j: int| 0 <= j < pos ==> self@[j] != target@,
            decreases n - pos,
        {
            pos = pos + 1;
        }
        if pos == n {
            return None;
        }
        let ghost leaf_index = pos as int;
        let mut proof: MerkleProof = Vec::new();
        let mut index: usize = pos;
        let mut level: Vec<MerkleNode> = self.leaves.clone();
        assert(forall|k: int|
            0 <= k < self.leaves@.len() ==> cloned::<MerkleNode>(
                self.leaves@[k],
                #[trigger] level@[k],
            ));
        assert(digests(level@) =~= self@);
        assert(proof_view(proof@) + path_from(digests(level@), index as int) =~= path_from(
            self@,
            leaf_index,
        ));
        while level.len() > 1
            invariant
                all_wf(level@),
                index < level@.len(),
                proof_view(proof@) + path_from(digests(level@), index as int) == path_from(
                    self@,
                    leaf_index,
                ),
            decreases level@.len(),
        {
            let ghost d = digests(level@);
            let ghost before = proof_view(proof@);
            if index % 2 == 0 {
                if index + 1 < level.len() {
                    proof.push((level[index + 1].hash(), false));
                }
            } else {
                proof.push((level[index - 1].hash(), true));
            }
            assert(proof_view(proof@) =~= before + sibling_step(d, index as int));
            assert(path_from(d, index as int) == sibling_step(d, index as int) + path_from(
                next_level(d),
                index as int / 2,
            ));
            assert(before + path_from(d, index as int) =~= before + sibling_step(d, index as int)
                + path_from(next_level(d), index as int / 2));
            index = index / 2;
            level = pair_up(&level);
            assert(level@.len() == digests(level@).len());
        }
        assert(path_from(digests(level@), index as int) =~= Seq::<ProofStep>::empty());
        assert(proof_view(proof@) =~= path_from(self@, leaf_index));
        Some(proof)
    }

    /// Checks `proof` for `data` against `root_hash`: starting from the digest
    /// of `data`, each step hashes the sibling on the side its flag gives, and
    /// the result must equal `root_hash` byte for byte.
    pub fn verify_proof(data: &[u8], proof: &MerkleProof, root_hash: &[u8]) -> (r: bool)
        ensures
            r == (replay(sha256_of(data@), proof_view(proof@)) == root_hash@),
            r ==> root_hash@.len() == 32,
    {
        let ghost steps = proof_view(proof@);
        let mut current = hash_block(data);
        let mut i: usize = 0;
        assert(steps.subrange(0, steps.len() as int) =~= steps);
        while i < proof.len()
            invariant
                i <= proof@.len(),
                steps == proof_view(proof@),
                current@.len() == 32,
                replay(current@, steps.subrange(i as int, steps.len() as int)) == replay(
                    sha256_of(data@),
                    steps,
                ),
            decreases proof@.len() - i,
        {
            let ghost rest = steps.subrange(i as int, steps.len() as int);
            assert(rest.drop_first() =~= steps.subrange(i + 1, steps.len() as int));
            let (sibling, is_left) = &proof[i];
            if *is_left {
                current = combine(sibling, &current);
            } else {
                current = combine(&current, sibling);
            }
            i = i + 1;
        }
        assert(steps.subrange(i as int, steps.len() as int) =~= Seq::<ProofStep>::empty());
        same_bytes(current.as_slice(), root_hash)
    }

    /// The root node, for walking the tree; none for an empty tree.
    pub fn root_node(&self) -> (r: Option<&MerkleNode>)
        ensures
            match r {
                Some(node) => {
                    &&& node.wf()
                    &&& self.root_digest() == Some(node.digest())
                    &&& node.leaf_blocks() == self.blocks()
                },
                None => self.root_digest() == None::<Seq<u8>>,
            },
    {
        proof {
            use_type_invariant(self);
        }
        self.root.as_ref()
    }

    /// The number of leaves, the repeated one included.
    pub fn len(&self) -> (r: usize)
        ensures
            r == self@.len(),
    {
        self.leaves.len()
    }

    /// Whether the tree has no leaves.
    pub fn is_empty(&self) -> (r: bool)
        ensures
            r == (self@.len() == 0),
    {
        self.leaves.len() == 0
    }
}

impl Clone for MerkleTree {
    fn clone(&self) -> (r: Self)
        ensures
            r@ == self@,
            r.blocks() == self.blocks(),
    {
        proof {
            use_type_invariant(self);
        }
        let leaves = self.leaves.clone();
        assert(forall|k: int|
            0 <= k < self.leaves@.len() ==> cloned::<MerkleNode>(
                self.leaves@[k],
                #[trigger] leaves@[k],
            ));
        assert forall|k: int| 0 <= k < self.leaves@.len() implies (#[trigger] leaves@[k])->Leaf_data@
            == self.leaves@[k]->Leaf_data@ by {
            assert(leaves@[k].leaf_blocks()[0] == self.leaves@[k].leaf_blocks()[0]);
        }
        assert(digests(leaves@) =~= digests(self.leaves@));
        let root = match &self.root {
            Some(node) => Some(node.clone()),
            None => None,
        };
        assert(leaves@.map_values(|m: MerkleNode| m->Leaf_data@) =~= self.leaves@.map_values(
            |m: MerkleNode| m->Leaf_data@,
        ));
        MerkleTree { root, leaves }
    }
}

} // verus!
