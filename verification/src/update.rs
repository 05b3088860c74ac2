//! Replacement of one element, with the hashes recomputed from its leaf up
//! to the root.

use crate::digest::{hash_leaf, hash_node, hashable, lemma_digest_bytes};
use crate::inclusion::{
    block, get_proof, lemma_block_halves, lemma_block_number, lemma_tree_height_of_power,
    merkle_path, path_directions, tree_height, MerkleProof,
};
use crate::padding::{lemma_pad_contents, lemma_pad_update, lemma_padded_len_is_power_of_two, pad};
use crate::tree::{lemma_well_formed_node, stored_hash, MerkleTree, Node};
use vstd::arithmetic::power2::{lemma2_to64, pow2};
use vstd::prelude::*;

verus! {

/// A copy of a subtree.
fn clone_node(node: &Node) -> (copy: Node)
    ensures
        copy == *node,
    decreases node,
{
    match node {
        Node::Empty => Node::Empty,
        Node::Leaf { hash, data } => Node::Leaf { hash: hash.clone(), data: data.clone() },
        Node::Branch { hash, left, right } => Node::Branch {
            hash: hash.clone(),
            left: Box::new(clone_node(left)),
            right: Box::new(clone_node(right)),
        },
    }
}

/// Rebuilds the subtree that lies `level` levels above the leaf `index` with
/// that leaf replaced. The proof of the leaf says at each level which child
/// is on the path and gives the hash of the other, which is kept as it is.
fn replace_leaf(
    node: &Node,
    proof: &MerkleProof,
    level: usize,
    element: &str,
    Ghost(leaves): Ghost<Seq<Seq<char>>>,
    Ghost(index): Ghost<int>,
    Ghost(number): Ghost<int>,
) -> (rebuilt: Node)
    requires
        hashable(element@),
        level <= tree_height(leaves.len()),
        proof.siblings.deep_view() == merkle_path(leaves, index),
        proof.directions@ == path_directions(leaves.len(), index),
        0 <= number,
        number * pow2(level as nat) <= index < (number + 1) * pow2(level as nat),
        (number + 1) * pow2(level as nat) <= leaves.len(),
        node.well_formed(),
        !(*node is Empty),
        node.leaves() == block(leaves, level as nat, number),
    ensures
        rebuilt.well_formed(),
        !(rebuilt is Empty),
        rebuilt.leaves() == block(leaves.update(index, element@), level as nat, number),
    decreases level,
{
    let ghost changed = leaves.update(index, element@);
    proof {
        lemma2_to64();
    }
    if level == 0 {
        let data = element.to_owned();
        let hash = hash_leaf(element);
        proof {
            assert(number * 1 == number && (number + 1) * 1 == number + 1) by (nonlinear_arith);
            assert(seq![data@] =~= block(changed, 0, number));
        }
        return Node::Leaf { hash, data };
    }
    let ghost below = (level - 1) as nat;
    let ghost half = pow2(below) as int;
    proof {
        lemma_block_halves(leaves, level as nat, number);
        lemma_block_halves(changed, level as nat, number);
        assert(node.leaves().len() == 2 * half);
        assert((2 * number + 1) * half == (2 * number) * half + half) by (nonlinear_arith);
        assert((2 * number + 2) * half == (2 * number) * half + 2 * half) by (nonlinear_arith);
        assert(number * (2 * half) == (2 * number) * half) by (nonlinear_arith);
        assert((number + 1) * (2 * half) == (2 * number + 2) * half) by (nonlinear_arith);
        assert(0 <= (2 * number) * half) by (nonlinear_arith)
            requires
                0 <= number,
                0 < half,
        ;
    }
    match node {
        Node::Branch { left, right, .. } => {
            let direction = proof.directions[level - 1];
            proof {
                lemma_well_formed_node(**left);
                lemma_well_formed_node(**right);
                let whole = block(leaves, level as nat, number);
                assert(left.leaves() =~= whole.subrange(0, half));
                assert(right.leaves() =~= whole.subrange(half, 2 * half));
                if index < (2 * number + 1) * half {
                    lemma_block_number(index, below, 2 * number, index - (2 * number) * half);
                } else {
                    lemma_block_number(
                        index,
                        below,
                        2 * number + 1,
                        index - (2 * number + 1) * half,
                    );
                }
                assert(direction == path_directions(leaves.len(), index)[below as int]);
                assert(proof.siblings.deep_view().len() == tree_height(leaves.len()));
                assert(proof.siblings@[below as int]@ == proof.siblings.deep_view()[below as int]);
            }
            if direction {
                let new_left = replace_leaf(
                    left,
                    proof,
                    level - 1,
                    element,
                    Ghost(leaves),
                    Ghost(index),
                    Ghost(2 * number),
                );
                let kept = clone_node(right);
                proof {
                    lemma_well_formed_node(new_left);
                    lemma_digest_bytes(new_left.hash_view());
                    lemma_digest_bytes(kept.hash_view());
                    assert(block(changed, below, 2 * number + 1) =~= block(
                        leaves,
                        below,
                        2 * number + 1,
                    ));
                    let whole = block(changed, level as nat, number);
                    assert(whole =~= whole.subrange(0, half) + whole.subrange(half, 2 * half));
                }
                let hash = hash_node(stored_hash(&new_left), proof.siblings[level - 1].as_str());
                Node::Branch { hash, left: Box::new(new_left), right: Box::new(kept) }
            } else {
                let new_right = replace_leaf(
                    right,
                    proof,
                    level - 1,
                    element,
                    Ghost(leaves),
                    Ghost(index),
                    Ghost(2 * number + 1),
                );
                let kept = clone_node(left);
                proof {
                    lemma_well_formed_node(new_right);
                    lemma_digest_bytes(new_right.hash_view());
                    lemma_digest_bytes(kept.hash_view());
                    assert(block(changed, below, 2 * number) =~= block(leaves, below, 2 * number));
                    let whole = block(changed, level as nat, number);
                    assert(whole =~= whole.subrange(0, half) + whole.subrange(half, 2 * half));
                }
                let hash = hash_node(proof.siblings[level - 1].as_str(), stored_hash(&new_right));
                Node::Branch { hash, left: Box::new(kept), right: Box::new(new_right) }
            }
        },
        _ => {
            assert(false);
            Node::Empty
        },
    }
}

/// The tree with the element at `index` replaced by `element`. The hashes on
/// the way from that leaf to the root are recomputed with the siblings that
/// the proof of the leaf names; all other subtrees are copied. The index has
/// to lie within the elements the tree was built from: padding cannot be
/// replaced. The given tree is left as it is.
pub fn update_element(t: &MerkleTree, index: usize, element: &str) -> (updated: Result<
    MerkleTree,
    String,
>)
    requires
        hashable(element@),
    ensures
        match updated {
            Ok(tree) => {
                &&& index < t@.len()
                &&& tree.well_formed()
                &&& tree@ == t@.update(index as int, element@)
            },
            Err(message) => index >= t@.len() && message@ == "Index out of bounds"@,
        },
{
    proof {
        use_type_invariant(t);
        t.lemma_fields();
        lemma_pad_contents(t@);
    }
    if index >= t.count {
        return Err("Index out of bounds".to_owned());
    }
    let proof = match get_proof(t, index) {
        Ok(p) => p,
        Err(e) => {
            return Err(e);
        },
    };
    let ghost leaves = pad(t@);
    let ghost height = lemma_padded_len_is_power_of_two(t@.len());
    proof {
        lemma_tree_height_of_power(height);
        assert(0 * pow2(height) == 0 && (0 + 1) * pow2(height) == pow2(height))
            by (nonlinear_arith);
        assert(t.root.leaves() =~= block(leaves, height, 0));
        assert(!(t.root is Empty));
    }
    let root = replace_leaf(
        &t.root,
        &proof,
        proof.directions.len(),
        element,
        Ghost(leaves),
        Ghost(index as int),
        Ghost(0),
    );
    proof {
        let changed = leaves.update(index as int, element@);
        assert(root.leaves() =~= changed);
        lemma_pad_update(t@, index as int, element@);
        lemma_pad_contents(t@.update(index as int, element@));
        assert(root.leaves().take(t.count as int) =~= t@.update(index as int, element@));
    }
    Ok(MerkleTree::from_root(root, t.count))
}

} // verus!
