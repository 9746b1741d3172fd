//! The mathematical model of the tree: levels of digests, the root they reduce
//! to, the sibling path of a leaf, and the replay that a verifier performs.

use crate::digest::{combine_spec, sha256_of};
use crate::merkle_node::MerkleNode;
use vstd::prelude::*;

verus! {

/// One step of a proof: a sibling digest, and whether it goes on the left.
pub type ProofStep = (Seq<u8>, bool);

/// The digests of a sequence of nodes, in order.
pub open spec fn digests(nodes: Seq<MerkleNode>) -> Seq<Seq<u8>> {
    nodes.map_values(|n: MerkleNode| n.digest())
}

/// Every node in the sequence is well formed.
pub open spec fn all_wf(nodes: Seq<MerkleNode>) -> bool {
    forall|i: int| 0 <= i < nodes.len() ==> #[trigger] nodes[i].wf()
}

/// The blocks under a sequence of nodes, left to right.
pub open spec fn level_blocks(nodes: Seq<MerkleNode>) -> Seq<Seq<u8>>
    decreases nodes.len(),
{
    if nodes.len() == 0 {
        Seq::empty()
    } else {
        level_blocks(nodes.drop_last()) + nodes.last().leaf_blocks()
    }
}

/// No node of the sequence is taller than its first.
pub open spec fn tallest_first(nodes: Seq<MerkleNode>) -> bool {
    forall|i: int| 0 <= i < nodes.len() ==> #[trigger] nodes[i].height() <= nodes[0].height()
}

/// Every node in the sequence is a leaf.
pub open spec fn all_leaves(nodes: Seq<MerkleNode>) -> bool {
    forall|i: int| 0 <= i < nodes.len() ==> #[trigger] nodes[i] is Leaf
}

/// The blocks under a level of leaves are the leaves' own blocks, one each.
pub proof fn lemma_level_blocks_of_leaves(nodes: Seq<MerkleNode>)
    requires
        all_leaves(nodes),
    ensures
        level_blocks(nodes) == nodes.map_values(|n: MerkleNode| n->Leaf_data@),
    decreases nodes.len(),
{
    if nodes.len() > 0 {
        let init = nodes.drop_last();
        assert forall|i: int| 0 <= i < init.len() implies #[trigger] init[i] is Leaf by {
            assert(init[i] == nodes[i]);
        }
        lemma_level_blocks_of_leaves(init);
        assert(nodes.last() is Leaf);
        assert(level_blocks(nodes) =~= nodes.map_values(|n: MerkleNode| n->Leaf_data@));
    }
}

/// The leaf digests of a list of blocks, one per block, in order.
pub open spec fn leaf_level(blocks: Seq<Seq<u8>>) -> Seq<Seq<u8>> {
    blocks.map_values(|b: Seq<u8>| sha256_of(b))
}

/// An odd level of more than one entry gets its last entry repeated.
pub open spec fn padded(level: Seq<Seq<u8>>) -> Seq<Seq<u8>> {
    if level.len() > 1 && level.len() % 2 == 1 {
        level.push(level.last())
    } else {
        level
    }
}

/// The leaf level that the tree over `blocks` keeps.
pub open spec fn tree_leaves(blocks: Seq<Seq<u8>>) -> Seq<Seq<u8>> {
    padded(leaf_level(blocks))
}

/// The level above: entries `2i` and `2i+1` are combined, and a last entry
/// without a partner is carried up as it is.
pub open spec fn next_level(level: Seq<Seq<u8>>) -> Seq<Seq<u8>> {
    Seq::new(
        ((level.len() + 1) / 2) as nat,
        |i: int|
            if 2 * i + 1 < level.len() {
                combine_spec(level[2 * i], level[2 * i + 1])
            } else {
                level[2 * i]
            },
    )
}

/// The digest that a non-empty level reduces to.
pub open spec fn root_of_level(level: Seq<Seq<u8>>) -> Seq<u8>
    decreases level.len(),
{
    if level.len() <= 1 {
        level[0]
    } else {
        root_of_level(next_level(level))
    }
}

/// The root digest of the tree over `blocks`; none for no blocks.
pub open spec fn merkle_root(blocks: Seq<Seq<u8>>) -> Option<Seq<u8>> {
    if blocks.len() == 0 {
        None
    } else {
        Some(root_of_level(tree_leaves(blocks)))
    }
}

/// The proof entry that entry `index` of `level` contributes: its partner's
/// digest, flagged true when the partner sits on the left; nothing when it has none.
pub open spec fn sibling_step(level: Seq<Seq<u8>>, index: int) -> Seq<ProofStep> {
    let sib = if index % 2 == 0 {
        index + 1
    } else {
        index - 1
    };
    if 0 <= sib < level.len() {
        seq![(level[sib], index % 2 == 1)]
    } else {
        Seq::empty()
    }
}

/// The sibling path of entry `index` of `level`, from that level up to the root.
pub open spec fn path_from(level: Seq<Seq<u8>>, index: int) -> Seq<ProofStep>
    decreases level.len(),
{
    if level.len() <= 1 {
        Seq::empty()
    } else {
        sibling_step(level, index) + path_from(next_level(level), index / 2)
    }
}

/// The running digest after one proof step.
pub open spec fn apply_step(current: Seq<u8>, step: ProofStep) -> Seq<u8> {
    if step.1 {
        combine_spec(step.0, current)
    } else {
        combine_spec(current, step.0)
    }
}

/// The digest reached from `current` by applying every step of `proof` in order.
pub open spec fn replay(current: Seq<u8>, proof: Seq<ProofStep>) -> Seq<u8>
    decreases proof.len(),
{
    if proof.len() == 0 {
        current
    } else {
        replay(apply_step(current, proof[0]), proof.drop_first())
    }
}

/// The proof as plain values: each sibling digest's bytes with its flag.
pub open spec fn proof_view(proof: Seq<(Vec<u8>, bool)>) -> Seq<ProofStep> {
    proof.map_values(|s: (Vec<u8>, bool)| (s.0@, s.1))
}

/// The number of halvings (rounding up) that bring `n` down to one: the
/// ceiling of the base-two logarithm of `n`.
pub open spec fn ceil_log2(n: nat) -> nat
    decreases n,
{
    if n <= 1 {
        0
    } else {
        1 + ceil_log2(((n + 1) / 2) as nat)
    }
}

/// Replaying two proofs one after the other is replaying their concatenation.
pub proof fn lemma_replay_concat(current: Seq<u8>, a: Seq<ProofStep>, b: Seq<ProofStep>)
    ensures
        replay(current, a + b) == replay(replay(current, a), b),
    decreases a.len(),
{
    if a.len() == 0 {
        assert(a + b =~= b);
    } else {
        assert((a + b).drop_first() =~= a.drop_first() + b);
        lemma_replay_concat(apply_step(current, a[0]), a.drop_first(), b);
    }
}

/// The path of any entry replays, from that entry's digest, to the level's root.
pub proof fn lemma_path_reaches_root(level: Seq<Seq<u8>>, index: int)
    requires
        0 <= index < level.len(),
    ensures
        replay(level[index], path_from(level, index)) == root_of_level(level),
    decreases level.len(),
{
    if level.len() > 1 {
        let next = next_level(level);
        let step = sibling_step(level, index);
        lemma_path_reaches_root(next, index / 2);
        lemma_replay_concat(level[index], step, path_from(next, index / 2));
        let cur = level[index];
        if index % 2 == 0 {
            assert(2 * (index / 2) == index);
        } else {
            assert(2 * (index / 2) + 1 == index);
        }
        if step.len() == 1 {
            assert(step.drop_first() =~= Seq::<ProofStep>::empty());
            assert(replay(apply_step(cur, step[0]), step.drop_first()) == apply_step(cur, step[0]));
            assert(replay(cur, step) == apply_step(cur, step[0]));
        } else {
            assert(replay(cur, step) == cur);
        }
        assert(replay(cur, step) == next[index / 2]);
    }
}

/// A path never has more steps than the ceiling of the base-two logarithm of
/// the level's length.
pub proof fn lemma_path_len(level: Seq<Seq<u8>>, index: int)
    ensures
        path_from(level, index).len() <= ceil_log2(level.len()),
    decreases level.len(),
{
    if level.len() > 1 {
        lemma_path_len(next_level(level), index / 2);
    }
}

} // verus!
