//! The tree: its nodes, its root hash, and its construction from a list of
//! elements.

use crate::digest::{
    hash_leaf, hash_node, hashable, is_digest, is_hashable, leaf_hash, lemma_digest_bytes, node_hash,
};
use crate::padding::{
    lemma_pad_contents, lemma_padded_len_above, lemma_padded_len_at_most, pad, pad_elements,
    padded_len,
};
use vstd::arithmetic::power2::{lemma2_to64, lemma_pow2_unfold, pow2};
use vstd::prelude::*;
use vstd::slice::slice_subrange;

verus! {

/// The root hash of the tree over `leaves`: nothing for no leaf, the leaf
/// hash for one leaf, and else the hash of the roots of the two halves, split
/// at the midpoint.
pub open spec fn merkle_root(leaves: Seq<Seq<char>>) -> Seq<char>
    decreases leaves.len(),
{
    if leaves.len() == 0 {
        Seq::<char>::empty()
    } else if leaves.len() == 1 {
        leaf_hash(leaves[0])
    } else {
        let mid = leaves.len() as int / 2;
        node_hash(
            merkle_root(leaves.subrange(0, mid)),
            merkle_root(leaves.subrange(mid, leaves.len() as int)),
        )
    }
}

/// Whether every string of the list is short enough to be hashed.
pub open spec fn all_hashable(elements: Seq<Seq<char>>) -> bool {
    forall|i: int| 0 <= i < elements.len() ==> hashable(#[trigger] elements[i])
}

/// A node of the tree.
pub enum Node {
    /// The tree of no elements.
    Empty,
    /// One element with its hash.
    Leaf { hash: String, data: String },
    /// Two subtrees with the hash of their hashes.
    Branch { hash: String, left: Box<Node>, right: Box<Node> },
}

impl Node {
    /// The hash that the node stores; the empty string for `Empty`.
    pub open spec fn hash_view(&self) -> Seq<char> {
        match self {
            Node::Empty => Seq::<char>::empty(),
            Node::Leaf { hash, .. } => hash@,
            Node::Branch { hash, .. } => hash@,
        }
    }

    /// The data of the leaves below the node, from left to right.
    pub open spec fn leaves(&self) -> Seq<Seq<char>>
        decreases self,
    {
        match self {
            Node::Empty => Seq::<Seq<char>>::empty(),
            Node::Leaf { data, .. } => seq![data@],
            Node::Branch { left, right, .. } => left.leaves() + right.leaves(),
        }
    }

    /// The integrity of a subtree: every stored hash is the hash of what lies
    /// below it, no branch has an `Empty` child, and every branch has the
    /// first half of its leaves on the left.
    pub open spec fn well_formed(&self) -> bool
        decreases self,
    {
        match self {
            Node::Empty => true,
            Node::Leaf { hash, data } => {
                &&& hashable(data@)
                &&& hash@ == leaf_hash(data@)
                &&& is_digest(hash@)
            },
            Node::Branch { hash, left, right } => {
                &&& left.well_formed()
                &&& right.well_formed()
                &&& !(**left is Empty)
                &&& !(**right is Empty)
                &&& left.leaves().len() == (left.leaves().len() + right.leaves().len()) / 2
                &&& hash@ == node_hash(left.hash_view(), right.hash_view())
                &&& is_digest(hash@)
            },
        }
    }
}

/// In a well-formed subtree the stored hash is the root hash of its leaves,
/// and all its leaves can be hashed. Unless the node is `Empty`, it has a
/// leaf and its hash has the shape of a digest.
pub proof fn lemma_well_formed_node(node: Node)
    requires
        node.well_formed(),
    ensures
        node.hash_view() == merkle_root(node.leaves()),
        all_hashable(node.leaves()),
        !(node is Empty) ==> node.leaves().len() >= 1 && is_digest(node.hash_view()),
    decreases node,
{
    match node {
        Node::Empty => {},
        Node::Leaf { .. } => {},
        Node::Branch { hash, left, right } => {
            lemma_well_formed_node(*left);
            lemma_well_formed_node(*right);
            let all = node.leaves();
            let mid = all.len() as int / 2;
            assert(all.subrange(0, mid) =~= left.leaves());
            assert(all.subrange(mid, all.len() as int) =~= right.leaves());
        },
    }
}

/// The hash that a node stores, borrowed.
pub(crate) fn stored_hash(node: &Node) -> (hash: &str)
    ensures
        hash@ == node.hash_view(),
{
    match node {
        Node::Leaf { hash, .. } => hash.as_str(),
        Node::Branch { hash, .. } => hash.as_str(),
        Node::Empty => {
            proof {
                reveal_strlit("");
            }
            assert(""@ =~= Seq::<char>::empty());
            ""
        },
    }
}

/// Builds the subtree over a non-empty run of elements: a leaf for one
/// element, and else a branch over the two halves.
pub fn create_node(elements: &[String]) -> (node: Node)
    requires
        elements@.len() >= 1,
        all_hashable(elements.deep_view()),
    ensures
        node.well_formed(),
        !(node is Empty),
        node.leaves() == elements.deep_view(),
    decreases elements@.len(),
{
    let len = elements.len();
    if len == 1 {
        let data = elements[0].clone();
        assert(hashable(elements.deep_view()[0]));
        let hash = hash_leaf(data.as_str());
        assert(seq![data@] =~= elements.deep_view());
        return Node::Leaf { hash, data };
    }
    let mid = len / 2;
    let lower = slice_subrange(elements, 0, mid);
    let upper = slice_subrange(elements, mid, len);
    proof {
        assert forall|i: int| 0 <= i < lower@.len() implies hashable(
            #[trigger] lower.deep_view()[i],
        ) by {
            assert(lower.deep_view()[i] == elements.deep_view()[i]);
        }
        assert forall|i: int| 0 <= i < upper@.len() implies hashable(
            #[trigger] upper.deep_view()[i],
        ) by {
            assert(upper.deep_view()[i] == elements.deep_view()[mid + i]);
        }
    }
    let left = create_node(lower);
    let right = create_node(upper);
    proof {
        lemma_well_formed_node(left);
        lemma_well_formed_node(right);
        lemma_digest_bytes(left.hash_view());
        lemma_digest_bytes(right.hash_view());
        assert(left.leaves() + right.leaves() =~= elements.deep_view());
    }
    let hash = hash_node(stored_hash(&left), stored_hash(&right));
    Node::Branch { hash, left: Box::new(left), right: Box::new(right) }
}

/// Collects the data of the leaves below a node, from left to right.
pub fn collect_elements(node: &Node) -> (elements: Vec<String>)
    ensures
        elements.deep_view() == node.leaves(),
    decreases node,
{
    match node {
        Node::Leaf { data, .. } => {
            let mut elements = Vec::new();
            elements.push(data.clone());
            assert(elements.deep_view() =~= node.leaves());
            elements
        },
        Node::Branch { left, right, .. } => {
            let mut elements = collect_elements(left);
            let mut rest = collect_elements(right);
            let ghost lower = elements.deep_view();
            let ghost upper = rest.deep_view();
            elements.append(&mut rest);
            assert(elements.deep_view() =~= lower + upper);
            elements
        },
        Node::Empty => {
            let elements = Vec::new();
            assert(elements.deep_view() =~= node.leaves());
            elements
        },
    }
}

/// A Merkle tree over a list of elements.
///
/// The tree keeps the number of elements it was built from; the leaves past
/// them are padding and hold the empty string.
pub struct MerkleTree {
    pub(crate) root: Node,
    pub(crate) count: usize,
}

impl View for MerkleTree {
    type V = Seq<Seq<char>>;

    /// The elements that the tree commits to, without the padding.
    open spec fn view(&self) -> Seq<Seq<char>> {
        self.elements()
    }
}

impl MerkleTree {
    /// The elements that the tree commits to, without the padding.
    pub closed spec fn elements(&self) -> Seq<Seq<char>> {
        self.root.leaves().take(self.count as int)
    }

    /// The hash stored at the root; the empty string for the empty tree.
    pub closed spec fn root_hash(&self) -> Seq<char> {
        self.root.hash_view()
    }

    /// What holds of every tree: the nodes are well formed and the leaves
    /// are the padded elements.
    #[verifier::type_invariant]
    pub closed spec fn well_formed(&self) -> bool {
        &&& self.root.well_formed()
        &&& self.count <= self.root.leaves().len()
        &&& self.root.leaves() == pad(self.elements())
    }

    /// What the invariant says of the two fields.
    pub(crate) proof fn lemma_fields(&self)
        requires
            self.well_formed(),
        ensures
            self.root.well_formed(),
            self.root.leaves() == pad(self@),
            self.count == self@.len(),
            self.root_hash() == self.root.hash_view(),
    {
    }

    /// Makes a tree of a well-formed root whose leaves past the first
    /// `count` are padding.
    pub(crate) fn from_root(root: Node, count: usize) -> (tree: MerkleTree)
        requires
            root.well_formed(),
            count <= root.leaves().len(),
            root.leaves() == pad(root.leaves().take(count as int)),
        ensures
            tree.well_formed(),
            tree@ == root.leaves().take(count as int),
            tree.root == root,
    {
        MerkleTree { root, count }
    }

    /// The leaves of a well-formed tree are its padded elements, and its
    /// root hash is the root hash of those leaves.
    pub proof fn lemma_root_hash(&self)
        requires
            self.well_formed(),
        ensures
            self.root_hash() == merkle_root(pad(self@)),
            all_hashable(pad(self@)),
    {
        lemma_well_formed_node(self.root);
    }
}

/// Whether a tree can be built over `elements`: every element is short
/// enough to be hashed, and the number of leaves fits the machine.
pub fn can_build(elements: &Vec<String>) -> (fits: bool)
    ensures
        fits == (padded_len(elements@.len()) <= usize::MAX && all_hashable(
            elements.deep_view(),
        )),
{
    let n = elements.len();
    let mut leaves: usize = 1;
    let ghost mut exponent: nat = 0;
    proof {
        lemma2_to64();
    }
    while leaves < n
        invariant
            n == elements@.len(),
            leaves >= 1,
            leaves == pow2(exponent),
        decreases usize::MAX - leaves,
    {
        proof {
            lemma_padded_len_above(n as nat, exponent);
            lemma_pow2_unfold(exponent + 1);
        }
        if leaves > usize::MAX / 2 {
            return false;
        }
        leaves = leaves * 2;
        proof {
            exponent = exponent + 1;
        }
    }
    proof {
        if n >= 1 {
            lemma_padded_len_at_most(n as nat, exponent);
        }
    }
    let mut i: usize = 0;
    while i < n
        invariant
            n == elements@.len(),
            i <= n,
            padded_len(n as nat) <= usize::MAX,
            forall|k: int| 0 <= k < i ==> hashable(#[trigger] elements.deep_view()[k]),
        decreases n - i,
    {
        if !is_hashable(elements[i].as_str()) {
            assert(!hashable(elements.deep_view()[i as int]));
            return false;
        }
        assert(hashable(elements.deep_view()[i as int]));
        i = i + 1;
    }
    true
}

/// Builds the tree over `elements`, padded with empty strings to a power of
/// two. No elements give the empty tree.
pub fn create_merkle_tree(elements: &Vec<String>) -> (built: Result<MerkleTree, String>)
    requires
        padded_len(elements@.len()) <= usize::MAX,
        all_hashable(elements.deep_view()),
    ensures
        built is Ok,
        built->Ok_0.well_formed(),
        built->Ok_0@ == elements.deep_view(),
{
    if elements.is_empty() {
        proof {
            let none = Seq::<Seq<char>>::empty();
            assert(none.take(0) =~= none);
            assert(pad(none) =~= none);
            assert(elements.deep_view() =~= none);
        }
        return Ok(MerkleTree { root: Node::Empty, count: 0 });
    }
    let padded_elements = pad_elements(elements);
    proof {
        lemma_pad_contents(elements.deep_view());
        assert forall|i: int| 0 <= i < padded_elements@.len() implies hashable(
            #[trigger] padded_elements.deep_view()[i],
        ) by {
            if i < elements@.len() {
                assert(padded_elements.deep_view()[i] == elements.deep_view()[i]);
            } else {
                assert(padded_elements.deep_view()[i] == Seq::<char>::empty());
                assert(vstd::utf8::encode_utf8(Seq::<char>::empty()).len() == 0);
            }
        }
    }
    let run = padded_elements.as_slice();
    assert(run.deep_view() =~= padded_elements.deep_view());
    let root = create_node(run);
    proof {
        assert(root.leaves().take(elements@.len() as int) =~= elements.deep_view());
    }
    Ok(MerkleTree { root, count: elements.len() })
}

/// The root hash of the tree; the empty string for the empty tree.
pub fn get_root(mt: &MerkleTree) -> (root: String)
    ensures
        root@ == mt.root_hash(),
        root@ == merkle_root(pad(mt@)),
        mt@.len() > 0 ==> is_digest(root@),
{
    proof {
        use_type_invariant(mt);
        mt.lemma_root_hash();
        lemma_well_formed_node(mt.root);
        lemma_pad_contents(mt@);
    }
    match &mt.root {
        Node::Empty => String::new(),
        Node::Leaf { hash, .. } => hash.clone(),
        Node::Branch { hash, .. } => hash.clone(),
    }
}

} // verus!
