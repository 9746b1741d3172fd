//! Laws of the tree, stated over the model that the operations' contracts use.

use crate::digest::{combine_spec, sha256_of};
use crate::levels::{
    ceil_log2, lemma_path_len, lemma_path_reaches_root, merkle_root, next_level, path_from,
    replay, root_of_level, tree_leaves,
};
use crate::merkle_tree::MerkleTree;
use vstd::arithmetic::power::lemma_pow0;
use vstd::arithmetic::power2::{lemma_pow2, lemma_pow2_unfold, pow2};
use vstd::prelude::*;

verus! {

/// Two trees built from the same non-empty list of blocks have the same root
/// digest, and have one.
pub proof fn lemma_root_deterministic(t1: MerkleTree, t2: MerkleTree, blocks: Seq<Seq<u8>>)
    requires
        blocks.len() > 0,
        t1@ == tree_leaves(blocks),
        t2@ == tree_leaves(blocks),
    ensures
        t1.root_digest() is Some,
        t1.root_digest() == t2.root_digest(),
        t1.root_digest() == merkle_root(blocks),
{
}

/// Every block of a non-empty list has a leaf with its digest, and the path of
/// any leaf with that digest replays from the block's digest to the root.
pub proof fn lemma_proof_verifies(blocks: Seq<Seq<u8>>, i: int)
    requires
        0 <= i < blocks.len(),
    ensures
        i < tree_leaves(blocks).len(),
        tree_leaves(blocks)[i] == sha256_of(blocks[i]),
        forall|k: int|
            0 <= k < tree_leaves(blocks).len() && tree_leaves(blocks)[k] == sha256_of(blocks[i])
                ==> replay(sha256_of(blocks[i]), #[trigger] path_from(tree_leaves(blocks), k))
                == merkle_root(blocks)->Some_0,
{
    let leaves = tree_leaves(blocks);
    assert forall|k: int|
        0 <= k < leaves.len() && leaves[k] == sha256_of(blocks[i]) implies replay(
            sha256_of(blocks[i]),
            #[trigger] path_from(leaves, k),
        ) == merkle_root(blocks)->Some_0 by {
        lemma_path_reaches_root(leaves, k);
    }
}

/// The tree over a single block has that block's digest as its root, with no
/// branch hashing, and one leaf.
pub proof fn lemma_single_block(block: Seq<u8>)
    ensures
        tree_leaves(seq![block]).len() == 1,
        merkle_root(seq![block]) == Some(sha256_of(block)),
{
}

/// An odd number of blocks above one gets one leaf more: the last block's
/// digest, repeated.
pub proof fn lemma_odd_padding(blocks: Seq<Seq<u8>>)
    requires
        blocks.len() > 1,
        blocks.len() % 2 == 1,
    ensures
        tree_leaves(blocks).len() == blocks.len() + 1,
        tree_leaves(blocks)[blocks.len() - 1] == sha256_of(blocks.last()),
        tree_leaves(blocks)[blocks.len() as int] == sha256_of(blocks.last()),
{
}

/// Three blocks give the root of pairs `(h0, h1)` and `(h2, h2)`, combined.
pub proof fn lemma_three_blocks(b0: Seq<u8>, b1: Seq<u8>, b2: Seq<u8>)
    ensures
        tree_leaves(seq![b0, b1, b2]).len() == 4,
        merkle_root(seq![b0, b1, b2]) == Some(
            combine_spec(
                combine_spec(sha256_of(b0), sha256_of(b1)),
                combine_spec(sha256_of(b2), sha256_of(b2)),
            ),
        ),
{
    let leaves = tree_leaves(seq![b0, b1, b2]);
    let up = next_level(leaves);
    let top = next_level(up);
    assert(leaves =~= seq![sha256_of(b0), sha256_of(b1), sha256_of(b2), sha256_of(b2)]);
    assert(up =~= seq![
        combine_spec(sha256_of(b0), sha256_of(b1)),
        combine_spec(sha256_of(b2), sha256_of(b2)),
    ]);
    assert(top =~= seq![combine_spec(up[0], up[1])]);
    assert(root_of_level(leaves) == root_of_level(up));
    assert(root_of_level(up) == root_of_level(top));
}

/// Flipping a proof step's side flag changes the bytes that the step hashes,
/// whenever the sibling digest differs from the running digest and has its
/// length: `sibling ++ current` is then not `current ++ sibling`.
pub proof fn lemma_flipped_flag_changes_input(current: Seq<u8>, sibling: Seq<u8>)
    requires
        current.len() == sibling.len(),
        current != sibling,
    ensures
        current + sibling != sibling + current,
{
    if current + sibling == sibling + current {
        assert(current =~= (current + sibling).subrange(0, current.len() as int));
        assert(sibling =~= (sibling + current).subrange(0, sibling.len() as int));
    }
}

/// Changing a sibling digest, its length kept, changes the bytes that the step
/// hashes, on either side.
pub proof fn lemma_changed_sibling_changes_input(
    current: Seq<u8>,
    sibling: Seq<u8>,
    tampered: Seq<u8>,
)
    requires
        sibling.len() == tampered.len(),
        sibling != tampered,
    ensures
        current + sibling != current + tampered,
        sibling + current != tampered + current,
{
    if current + sibling == current + tampered {
        assert(sibling =~= (current + sibling).subrange(
            current.len() as int,
            (current.len() + sibling.len()) as int,
        ));
        assert(tampered =~= (current + tampered).subrange(
            current.len() as int,
            (current.len() + tampered.len()) as int,
        ));
    }
    if sibling + current == tampered + current {
        assert(sibling =~= (sibling + current).subrange(0, sibling.len() as int));
        assert(tampered =~= (tampered + current).subrange(0, tampered.len() as int));
    }
}

/// A proof path over `n` leaves has at most `ceil_log2(n)` steps.
pub proof fn lemma_proof_len_bound(blocks: Seq<Seq<u8>>, k: int)
    ensures
        path_from(tree_leaves(blocks), k).len() <= ceil_log2(tree_leaves(blocks).len()),
{
    lemma_path_len(tree_leaves(blocks), k);
}

/// `ceil_log2(n)` is the least exponent whose power of two reaches `n`.
pub proof fn lemma_ceil_log2_least(n: nat)
    requires
        n >= 1,
    ensures
        n <= pow2(ceil_log2(n)),
        n > 1 ==> pow2((ceil_log2(n) - 1) as nat) < n,
    decreases n,
{
    assert(pow2(0) == 1) by {
        lemma_pow2(0);
        lemma_pow0(2);
    }
    if n > 1 {
        let m = ((n + 1) / 2) as nat;
        lemma_ceil_log2_least(m);
        lemma_pow2_unfold(ceil_log2(n));
        if m > 1 {
            lemma_pow2_unfold(ceil_log2(m));
        }
    }
}

} // verus!
