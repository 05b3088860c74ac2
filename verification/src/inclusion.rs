//! Inclusion proofs: the sibling hashes on the way from a leaf to the root,
//! and the check of such a proof against a root hash.

use crate::digest::{
    hash_leaf, hash_node, hashable, is_digest, leaf_hash, lemma_digest_bytes, node_hash,
    DIGEST_LEN, MAX_MESSAGE_BYTES,
};
use crate::padding::{lemma_padded_len_is_power_of_two, pad};
use crate::tree::{collect_elements, lemma_well_formed_node, merkle_root, MerkleTree, Node};
use vstd::arithmetic::div_mod::lemma_fundamental_div_mod_converse;
use vstd::arithmetic::power2::{lemma2_to64, lemma_pow2_pos, lemma_pow2_unfold, pow2};
use vstd::prelude::*;
use vstd::utf8::encode_utf8;

verus! {

/// The number of levels above the leaves in a tree with `width` leaves: the
/// base-two logarithm of `width`, rounded down.
pub open spec fn tree_height(width: nat) -> nat
    decreases width,
{
    if width <= 1 {
        0
    } else {
        1 + tree_height(width / 2)
    }
}

/// The leaves below one node: at `level` above the leaves, the node with the
/// given `number` from the left covers `pow2(level)` consecutive leaves.
pub open spec fn block(leaves: Seq<Seq<char>>, level: nat, number: int) -> Seq<Seq<char>> {
    leaves.subrange(number * pow2(level), (number + 1) * pow2(level))
}

/// The number of the node that shares its parent with the node `number`.
pub open spec fn sibling_number(number: int) -> int {
    if number % 2 == 0 {
        number + 1
    } else {
        number - 1
    }
}

/// The directions of the proof for the leaf `index`, from the leaf to the
/// root: at each level `true` when the node on the path is a left child, so
/// that its sibling is on the right. That is so when the bit of `index` at
/// that level is zero.
pub open spec fn path_directions(width: nat, index: int) -> Seq<bool> {
    Seq::new(tree_height(width), |level: int| (index / pow2(level as nat) as int) % 2 == 0)
}

/// The sibling hashes of the proof for the leaf `index`, from the leaf to the
/// root: at each level the root hash of the leaves below the sibling of the
/// node on the path.
pub open spec fn merkle_path(leaves: Seq<Seq<char>>, index: int) -> Seq<Seq<char>> {
    Seq::new(
        tree_height(leaves.len()),
        |level: int|
            merkle_root(
                block(leaves, level as nat, sibling_number(index / pow2(level as nat) as int)),
            ),
    )
}

/// One step up the tree: the hash of the parent of a node with hash
/// `current` whose sibling has the hash `sibling`.
pub open spec fn climb(current: Seq<char>, sibling: Seq<char>, direction: bool) -> Seq<char> {
    if direction {
        node_hash(current, sibling)
    } else {
        node_hash(sibling, current)
    }
}

/// The hash reached from `start` after the first `steps` steps up the tree.
pub open spec fn fold_path(
    start: Seq<char>,
    siblings: Seq<Seq<char>>,
    directions: Seq<bool>,
    steps: nat,
) -> Seq<char>
    decreases steps,
{
    if steps == 0 {
        start
    } else {
        climb(
            fold_path(start, siblings, directions, (steps - 1) as nat),
            siblings[steps - 1],
            directions[steps - 1],
        )
    }
}

/// Whether a string is short enough to be hashed together with a digest.
pub open spec fn fits_beside_digest(sibling: Seq<char>) -> bool {
    DIGEST_LEN + encode_utf8(sibling).len() <= MAX_MESSAGE_BYTES
}

/// A proof that an element is in a tree.
pub struct MerkleProof {
    /// The element whose inclusion is proved.
    pub element: String,
    /// The hashes of the siblings on the way from the element up to the root.
    pub siblings: Vec<String>,
    /// For each sibling, whether it is on the right.
    pub directions: Vec<bool>,
}

impl MerkleProof {
    /// The number of steps that a check of the proof takes: siblings and
    /// directions are read in pairs, as far as both reach.
    pub open spec fn steps(&self) -> nat {
        if self.siblings@.len() <= self.directions@.len() {
            self.siblings@.len()
        } else {
            self.directions@.len()
        }
    }

    /// The hash that a check of the proof starts from: that of the element.
    pub open spec fn start_hash(&self) -> Seq<char> {
        leaf_hash(self.element@)
    }

    /// The root hash that the proof leads to.
    pub open spec fn computed_root(&self) -> Seq<char> {
        fold_path(
            self.start_hash(),
            self.siblings.deep_view(),
            self.directions@,
            self.steps(),
        )
    }

    /// Whether this is the proof for the leaf `index` of the tree over
    /// `leaves`.
    pub open spec fn attests(&self, leaves: Seq<Seq<char>>, index: int) -> bool {
        &&& self.element@ == leaves[index]
        &&& self.siblings.deep_view() == merkle_path(leaves, index)
        &&& self.directions@ == path_directions(leaves.len(), index)
    }

    /// Whether the element and the siblings that a check reads are short
    /// enough to be hashed.
    pub open spec fn hashable(&self) -> bool {
        &&& hashable(self.element@)
        &&& forall|i: int|
            0 <= i < self.steps() ==> fits_beside_digest(#[trigger] self.siblings.deep_view()[i])
    }
}

/// A tree with `pow2(k)` leaves has `k` levels above them.
pub proof fn lemma_tree_height_of_power(k: nat)
    ensures
        tree_height(pow2(k)) == k,
    decreases k,
{
    lemma2_to64();
    if k > 0 {
        lemma_pow2_unfold(k);
        lemma_pow2_pos((k - 1) as nat);
        lemma_tree_height_of_power((k - 1) as nat);
    }
}

/// The number of the block that holds a leaf is the leaf's index divided by
/// the size of the block.
pub proof fn lemma_block_number(index: int, level: nat, number: int, offset: int)
    requires
        index == number * pow2(level) + offset,
        0 <= offset < pow2(level),
    ensures
        index / pow2(level) as int == number,
{
    lemma_fundamental_div_mod_converse(index, pow2(level) as int, number, offset);
}

/// A block is made of the two blocks of half its size below it, and its root
/// hash is the hash of their root hashes.
pub proof fn lemma_block_halves(leaves: Seq<Seq<char>>, level: nat, number: int)
    requires
        level >= 1,
        0 <= number,
        (number + 1) * pow2(level) <= leaves.len(),
    ensures
        block(leaves, level, number).len() == pow2(level),
        2 * pow2((level - 1) as nat) == pow2(level),
        (2 * number + 2) * pow2((level - 1) as nat) <= leaves.len(),
        block(leaves, level, number).subrange(0, pow2((level - 1) as nat) as int) == block(
            leaves,
            (level - 1) as nat,
            2 * number,
        ),
        block(leaves, level, number).subrange(
            pow2((level - 1) as nat) as int,
            pow2(level) as int,
        ) == block(leaves, (level - 1) as nat, 2 * number + 1),
        merkle_root(block(leaves, level, number)) == node_hash(
            merkle_root(block(leaves, (level - 1) as nat, 2 * number)),
            merkle_root(block(leaves, (level - 1) as nat, 2 * number + 1)),
        ),
{
    let half = pow2((level - 1) as nat) as int;
    let size = pow2(level) as int;
    lemma_pow2_unfold(level);
    lemma_pow2_pos((level - 1) as nat);
    assert(number * size == (2 * number) * half) by (nonlinear_arith)
        requires
            size == 2 * half,
    ;
    assert((number + 1) * size == (2 * number + 2) * half) by (nonlinear_arith)
        requires
            size == 2 * half,
    ;
    assert((2 * number + 1) * half == (2 * number) * half + half) by (nonlinear_arith);
    assert((2 * number + 2) * half == (2 * number) * half + 2 * half) by (nonlinear_arith);
    assert(0 <= (2 * number) * half) by (nonlinear_arith)
        requires
            0 <= number,
            0 < half,
    ;
    let whole = block(leaves, level, number);
    assert(whole.len() == size);
    assert(whole.subrange(0, half) =~= block(leaves, (level - 1) as nat, 2 * number));
    assert(whole.subrange(half, size) =~= block(leaves, (level - 1) as nat, 2 * number + 1));
    assert(size / 2 == half);
}

/// The items of a vector, last first.
fn reversed<T>(items: Vec<T>) -> (turned: Vec<T>)
    ensures
        turned@ == items@.reverse(),
{
    let ghost given = items@;
    let mut rest = items;
    let mut turned: Vec<T> = Vec::new();
    while rest.len() > 0
        invariant
            rest@.len() + turned@.len() == given.len(),
            rest@ == given.take(rest@.len() as int),
            forall|j: int| 0 <= j < turned@.len() ==> turned@[j] == given[given.len() - 1 - j],
        decreases rest@.len(),
    {
        let last = rest.pop();
        match last {
            Some(item) => {
                turned.push(item);
            },
            None => {},
        }
    }
    assert(turned@ =~= given.reverse());
    turned
}

/// The proof that the leaf `index` is in the tree: the leaf's element, and
/// from the leaf up to the root the hash of each sibling on the way with the
/// side it is on. Padding leaves count as leaves.
pub fn get_proof(t: &MerkleTree, index: usize) -> (found: Result<MerkleProof, String>)
    ensures
        match found {
            Ok(proof) => {
                &&& index < pad(t@).len()
                &&& proof.attests(pad(t@), index as int)
                &&& proof.hashable()
            },
            Err(message) => index >= pad(t@).len() && message@ == "Index out of bounds"@,
        },
{
    proof {
        use_type_invariant(t);
        t.lemma_fields();
        t.lemma_root_hash();
        lemma_well_formed_node(t.root);
    }
    let root = &t.root;
    let elements = collect_elements(root);
    let num_elements = elements.len();
    let ghost leaves = pad(t@);
    assert(leaves == elements.deep_view());

    if index >= num_elements {
        return Err("Index out of bounds".to_owned());
    }
    let element = elements[index].clone();
    assert(element@ == leaves[index as int]);
    assert(hashable(leaves[index as int]));

    let ghost height: nat = lemma_padded_len_is_power_of_two(t@.len());
    proof {
        lemma_tree_height_of_power(height);
    }

    let mut siblings: Vec<String> = Vec::new();
    let mut directions: Vec<bool> = Vec::new();
    let mut current_node = root;
    let mut size: usize = num_elements;
    let mut offset: usize = index;
    let ghost mut level: nat = height;
    let ghost mut number: int = 0;

    proof {
        assert(leaves.len() == pow2(height));
        assert(0 * pow2(height) == 0 && (0 + 1) * pow2(height) == pow2(height))
            by (nonlinear_arith);
        assert(current_node.leaves() =~= block(leaves, level, number));
    }

    while size > 1
        invariant
            current_node.leaves().len() == size,
            leaves.len() == pow2(height),
            tree_height(leaves.len()) == height,
            level <= height,
            size == pow2(level),
            0 <= number,
            (number + 1) * pow2(level) <= leaves.len(),
            index == number * pow2(level) + offset,
            offset < size,
            current_node.well_formed(),
            !(*current_node is Empty),
            current_node.leaves() == block(leaves, level, number),
            siblings@.len() == height - level,
            directions@.len() == height - level,
            forall|d: int|
                0 <= d < siblings@.len() ==> (#[trigger] siblings@[d])@ == merkle_path(
                    leaves,
                    index as int,
                )[height - 1 - d],
            forall|d: int| 0 <= d < siblings@.len() ==> is_digest((#[trigger] siblings@[d])@),
            forall|d: int|
                0 <= d < directions@.len() ==> #[trigger] directions@[d] == path_directions(
                    leaves.len(),
                    index as int,
                )[height - 1 - d],
        decreases size,
    {
        proof {
            lemma2_to64();
        }
        assert(level >= 1);
        match current_node {
            Node::Branch { left, right, .. } => {
                let half = size / 2;
                let ghost below = (level - 1) as nat;
                proof {
                    lemma_block_halves(leaves, level, number);
                    lemma_well_formed_node(**left);
                    lemma_well_formed_node(**right);
                    let whole = block(leaves, level, number);
                    assert(half == pow2(below));
                    assert(left.leaves() =~= whole.subrange(0, half as int));
                    assert(right.leaves() =~= whole.subrange(half as int, size as int));
                    assert(number * pow2(level) == (2 * number) * pow2(below))
                        by (nonlinear_arith)
                        requires
                            pow2(level) == 2 * pow2(below),
                    ;
                    assert((2 * number + 1) * pow2(below) == (2 * number) * pow2(below) + pow2(
                        below,
                    )) by (nonlinear_arith);
                    assert((2 * number + 2) * pow2(below) == (2 * number) * pow2(below) + 2
                        * pow2(below)) by (nonlinear_arith);
                }
                let (sibling_node, next_node, direction) = if offset < half {
                    (right, left, true)
                } else {
                    (left, right, false)
                };
                let ghost next_number = if offset < half {
                    2 * number
                } else {
                    2 * number + 1
                };
                let next_offset = if offset < half {
                    offset
                } else {
                    offset - half
                };
                proof {
                    lemma_block_number(index as int, below, next_number, next_offset as int);
                    assert(sibling_node.leaves() == block(
                        leaves,
                        below,
                        sibling_number(next_number),
                    ));
                    assert(sibling_node.hash_view() == merkle_path(leaves, index as int)[below as int]);
                    assert(direction == path_directions(leaves.len(), index as int)[below as int]);
                }
                match &**sibling_node {
                    Node::Branch { hash, .. } => {
                        siblings.push(hash.clone());
                        directions.push(direction);
                    },
                    Node::Leaf { hash, .. } => {
                        siblings.push(hash.clone());
                        directions.push(direction);
                    },
                    Node::Empty => {
                        return Err("Invalid sibling node type".to_owned());
                    },
                }
                current_node = next_node;
                size = half;
                offset = next_offset;
                proof {
                    level = below;
                    number = next_number;
                }
            },
            _ => {
                assert(false);
            },
        }
    }

    proof {
        lemma2_to64();
        assert(level == 0) by {
            if level > 0 {
                lemma_pow2_unfold(level);
                lemma_pow2_pos((level - 1) as nat);
            }
        }
    }
    let ghost walked_siblings = siblings@;
    let ghost walked_directions = directions@;
    let siblings = reversed(siblings);
    let directions = reversed(directions);
    proof {
        assert(siblings.deep_view() =~= merkle_path(leaves, index as int)) by {
            assert forall|j: int| 0 <= j < height implies siblings.deep_view()[j] == merkle_path(
                leaves,
                index as int,
            )[j] by {
                assert(siblings@[j] == walked_siblings[height - 1 - j]);
            }
        }
        assert(directions@ =~= path_directions(leaves.len(), index as int)) by {
            assert forall|j: int| 0 <= j < height implies directions@[j] == path_directions(
                leaves.len(),
                index as int,
            )[j] by {
                assert(directions@[j] == walked_directions[height - 1 - j]);
            }
        }
        assert forall|i: int| 0 <= i < height implies fits_beside_digest(
            #[trigger] siblings.deep_view()[i],
        ) by {
            assert(siblings@[i] == walked_siblings[height - 1 - i]);
            lemma_digest_bytes(siblings@[i]@);
        }
    }

    Ok(MerkleProof { element, siblings, directions })
}

/// Whether the element and the siblings of a proof are short enough for
/// `verify_proof` to hash them.
pub fn can_verify(proof: &MerkleProof) -> (fits: bool)
    ensures
        fits == proof.hashable(),
{
    if proof.element.as_str().as_bytes().len() as u64 > MAX_MESSAGE_BYTES {
        return false;
    }
    let steps = if proof.siblings.len() <= proof.directions.len() {
        proof.siblings.len()
    } else {
        proof.directions.len()
    };
    let mut i: usize = 0;
    while i < steps
        invariant
            steps == proof.steps(),
            i <= steps,
            forall|k: int|
                0 <= k < i ==> fits_beside_digest(#[trigger] proof.siblings.deep_view()[k]),
        decreases steps - i,
    {
        let length = proof.siblings[i].as_str().as_bytes().len() as u64;
        if length > MAX_MESSAGE_BYTES - DIGEST_LEN as u64 {
            assert(!fits_beside_digest(proof.siblings.deep_view()[i as int]));
            return false;
        }
        assert(fits_beside_digest(proof.siblings.deep_view()[i as int]));
        i = i + 1;
    }
    true
}

/// Checks a proof against a root hash: hashes the element, climbs with each
/// pair of sibling and direction in turn, and compares what it reaches with
/// `root`.
pub fn verify_proof(root: String, proof: &MerkleProof) -> (valid: bool)
    requires
        proof.hashable(),
    ensures
        valid == (proof.computed_root() == root@),
{
    let mut current_hash = hash_leaf(proof.element.as_str());
    let steps = if proof.siblings.len() <= proof.directions.len() {
        proof.siblings.len()
    } else {
        proof.directions.len()
    };
    let mut i: usize = 0;
    while i < steps
        invariant
            steps == proof.steps(),
            i <= steps,
            proof.hashable(),
            is_digest(current_hash@),
            current_hash@ == fold_path(
                leaf_hash(proof.element@),
                proof.siblings.deep_view(),
                proof.directions@,
                i as nat,
            ),
        decreases steps - i,
    {
        proof {
            lemma_digest_bytes(current_hash@);
            assert(fits_beside_digest(proof.siblings.deep_view()[i as int]));
        }
        if proof.directions[i] {
            current_hash = hash_node(current_hash.as_str(), proof.siblings[i].as_str());
        } else {
            current_hash = hash_node(proof.siblings[i].as_str(), current_hash.as_str());
        }
        i = i + 1;
    }
    current_hash == root
}

} // verus!
