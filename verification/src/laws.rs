//! What holds of the tree as a whole: a proof that the tree hands out leads
//! to its root hash, and replacing an element gives the root hash of the
//! tree built from the changed list.

use crate::digest::leaf_hash;
use crate::inclusion::{
    block, fold_path, lemma_block_halves, lemma_block_number, lemma_tree_height_of_power,
    merkle_path, path_directions, sibling_number, tree_height, MerkleProof,
};
use crate::padding::{lemma_pad_contents, lemma_pad_update, lemma_padded_len_is_power_of_two, pad};
use crate::tree::{merkle_root, MerkleTree};
use vstd::arithmetic::div_mod::lemma_fundamental_div_mod;
use vstd::arithmetic::power2::{lemma2_to64, lemma_pow2_adds, lemma_pow2_pos, lemma_pow2_unfold, pow2};
use vstd::prelude::*;

verus! {

/// The node on the path of the leaf `index` at `level` covers the leaf and
/// lies within a tree of `pow2(height)` leaves; its child on the path is one
/// of its two children.
pub proof fn lemma_path_numbers(index: int, level: nat, height: nat)
    requires
        0 <= index < pow2(height),
        level <= height,
    ensures
        0 <= index / pow2(level) as int,
        (index / pow2(level) as int) * pow2(level) <= index,
        index < (index / pow2(level) as int + 1) * pow2(level),
        (index / pow2(level) as int + 1) * pow2(level) <= pow2(height),
        level >= 1 ==> index / pow2((level - 1) as nat) as int == 2 * (index / pow2(level) as int)
            || index / pow2((level - 1) as nat) as int == 2 * (index / pow2(level) as int) + 1,
{
    let size = pow2(level) as int;
    let number = index / size;
    let offset = index % size;
    let count = pow2((height - level) as nat) as int;
    lemma_pow2_pos(level);
    lemma_pow2_pos((height - level) as nat);
    lemma_pow2_adds(level, (height - level) as nat);
    lemma_fundamental_div_mod(index, size);
    assert(0 <= offset < size);
    assert(size * number == number * size) by (nonlinear_arith);
    assert(0 <= number) by (nonlinear_arith)
        requires
            0 <= index,
            0 < size,
            index == number * size + offset,
            offset < size,
    ;
    assert(number < count) by (nonlinear_arith)
        requires
            index < size * count,
            0 < size,
            index == number * size + offset,
            0 <= offset,
    ;
    assert((number + 1) * size == number * size + size) by (nonlinear_arith);
    assert((number + 1) * size <= size * count) by (nonlinear_arith)
        requires
            number + 1 <= count,
            0 < size,
    ;
    if level >= 1 {
        let below = (level - 1) as nat;
        let half = pow2(below) as int;
        lemma_pow2_unfold(level);
        lemma_pow2_pos(below);
        assert(number * size == (2 * number) * half) by (nonlinear_arith)
            requires
                size == 2 * half,
        ;
        assert((2 * number + 1) * half == (2 * number) * half + half) by (nonlinear_arith);
        if offset < half {
            lemma_block_number(index, below, 2 * number, offset);
        } else {
            lemma_block_number(index, below, 2 * number + 1, offset - half);
        }
    }
}

/// Climbing `level` steps from the hash of the leaf `index`, with the
/// siblings and directions of its proof, reaches the root hash of the block
/// of `pow2(level)` leaves around it.
pub proof fn lemma_fold_reaches_block(
    leaves: Seq<Seq<char>>,
    index: int,
    level: nat,
    height: nat,
)
    requires
        leaves.len() == pow2(height),
        0 <= index < leaves.len(),
        level <= height,
    ensures
        fold_path(
            leaf_hash(leaves[index]),
            merkle_path(leaves, index),
            path_directions(leaves.len(), index),
            level,
        ) == merkle_root(block(leaves, level, index / pow2(level) as int)),
    decreases level,
{
    lemma_tree_height_of_power(height);
    lemma_path_numbers(index, level, height);
    if level == 0 {
        lemma2_to64();
        assert(block(leaves, 0, index) =~= seq![leaves[index]]) by {
            assert(index * 1 == index && (index + 1) * 1 == index + 1) by (nonlinear_arith);
        }
    } else {
        let below = (level - 1) as nat;
        let number = index / pow2(level) as int;
        let child = index / pow2(below) as int;
        lemma_fold_reaches_block(leaves, index, below, height);
        lemma_block_halves(leaves, level, number);
        assert(merkle_path(leaves, index)[below as int] == merkle_root(
            block(leaves, below, sibling_number(child)),
        ));
        assert(path_directions(leaves.len(), index)[below as int] == (child % 2 == 0));
    }
}

/// A proof for a leaf of a tree leads to the root hash of the tree: checked
/// against that root hash, it is accepted.
pub proof fn lemma_proof_round_trip(elements: Seq<Seq<char>>, index: int, proof: MerkleProof)
    requires
        0 <= index < pad(elements).len(),
        proof.attests(pad(elements), index),
    ensures
        proof.computed_root() == merkle_root(pad(elements)),
{
    let leaves = pad(elements);
    let height = lemma_padded_len_is_power_of_two(elements.len());
    lemma_tree_height_of_power(height);
    lemma_fold_reaches_block(leaves, index, height, height);
    lemma_path_numbers(index, height, height);
    assert(index / pow2(height) as int == 0) by {
        let number = index / pow2(height) as int;
        assert(number < 1) by (nonlinear_arith)
            requires
                number * pow2(height) <= index,
                index < pow2(height),
                0 <= number,
        ;
    }
    assert(block(leaves, height, 0) =~= leaves) by {
        assert(0 * pow2(height) == 0 && (0 + 1) * pow2(height) == pow2(height))
            by (nonlinear_arith);
    }
    assert(proof.siblings.deep_view().len() == height);
    assert(proof.directions@.len() == height);
}

/// Replacing a leaf changes no sibling hash on its own path.
pub proof fn lemma_path_ignores_own_leaf(leaves: Seq<Seq<char>>, index: int, data: Seq<char>)
    requires
        0 <= index < leaves.len(),
        exists|height: nat| leaves.len() == pow2(height),
    ensures
        merkle_path(leaves.update(index, data), index) == merkle_path(leaves, index),
        path_directions(leaves.update(index, data).len(), index) == path_directions(
            leaves.len(),
            index,
        ),
{
    let height = choose|height: nat| leaves.len() == pow2(height);
    let changed = leaves.update(index, data);
    lemma_tree_height_of_power(height);
    assert forall|level: int| 0 <= level < height implies merkle_path(changed, index)[level]
        == merkle_path(leaves, index)[level] by {
        let number = index / pow2(level as nat) as int;
        lemma_path_numbers(index, level as nat, height);
        lemma_path_numbers(index, (level + 1) as nat, height);
        lemma_pow2_unfold((level + 1) as nat);
        let size = pow2(level as nat) as int;
        let parent = index / pow2((level + 1) as nat) as int;
        assert((sibling_number(number) + 1) * size == sibling_number(number) * size + size)
            by (nonlinear_arith);
        assert((number + 1) * size == number * size + size) by (nonlinear_arith);
        assert(parent * (2 * size) == (2 * parent) * size) by (nonlinear_arith);
        assert((parent + 1) * (2 * size) == (2 * parent) * size + 2 * size) by (nonlinear_arith);
        assert((2 * parent + 1) * size == (2 * parent) * size + size) by (nonlinear_arith);
        assert(0 <= (2 * parent) * size) by (nonlinear_arith)
            requires
                0 <= parent,
                0 < size,
        ;
        assert(block(changed, level as nat, sibling_number(number)) =~= block(
            leaves,
            level as nat,
            sibling_number(number),
        ));
    }
    assert(merkle_path(changed, index) =~= merkle_path(leaves, index));
}

/// Climbing from the hash of a new element, with the siblings and
/// directions of the proof for the element it replaces, reaches the root hash
/// of the tree built from the changed list.
pub proof fn lemma_update_equivalence(
    elements: Seq<Seq<char>>,
    index: int,
    data: Seq<char>,
    proof: MerkleProof,
)
    requires
        0 <= index < elements.len(),
        proof.attests(pad(elements), index),
    ensures
        fold_path(
            leaf_hash(data),
            proof.siblings.deep_view(),
            proof.directions@,
            proof.steps(),
        ) == merkle_root(pad(elements.update(index, data))),
{
    lemma_pad_contents(elements);
    let leaves = pad(elements);
    let changed = leaves.update(index, data);
    let height = lemma_padded_len_is_power_of_two(elements.len());
    lemma_tree_height_of_power(height);
    lemma_pad_update(elements, index, data);
    lemma_path_ignores_own_leaf(leaves, index, data);
    lemma_fold_reaches_block(changed, index, height, height);
    lemma_path_numbers(index, height, height);
    assert(index / pow2(height) as int == 0) by {
        let number = index / pow2(height) as int;
        assert(number < 1) by (nonlinear_arith)
            requires
                number * pow2(height) <= index,
                index < pow2(height),
                0 <= number,
        ;
    }
    assert(block(changed, height, 0) =~= changed) by {
        assert(0 * pow2(height) == 0 && (0 + 1) * pow2(height) == pow2(height))
            by (nonlinear_arith);
    }
    assert(proof.siblings.deep_view().len() == height);
    assert(proof.directions@.len() == height);
}

/// The root hash of a tree depends on nothing but the elements: two trees
/// over the same elements have the same root hash.
pub proof fn lemma_root_is_determined(first: MerkleTree, second: MerkleTree)
    requires
        first.well_formed(),
        second.well_formed(),
        first@ == second@,
    ensures
        first.root_hash() == second.root_hash(),
{
    first.lemma_root_hash();
    second.lemma_root_hash();
}

/// A tree with an element replaced has the root hash of the tree built from
/// the changed list.
pub proof fn lemma_update_matches_rebuild(
    given: MerkleTree,
    updated: MerkleTree,
    rebuilt: MerkleTree,
    index: int,
    data: Seq<char>,
)
    requires
        updated.well_formed(),
        rebuilt.well_formed(),
        0 <= index < given@.len(),
        updated@ == given@.update(index, data),
        rebuilt@ == given@.update(index, data),
    ensures
        updated.root_hash() == rebuilt.root_hash(),
{
    lemma_root_is_determined(updated, rebuilt);
}

/// The tree over no elements has the empty string as its root hash.
pub proof fn lemma_empty_root(tree: MerkleTree)
    requires
        tree.well_formed(),
        tree@.len() == 0,
    ensures
        tree.root_hash() == Seq::<char>::empty(),
{
    tree.lemma_root_hash();
    assert(pad(tree@).len() == 0);
}

} // verus!
