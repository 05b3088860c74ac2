//! A binary Merkle tree over string elements, hashed with SHA-256.

pub mod digest;
pub mod inclusion;
pub mod laws;
pub mod padding;
pub mod random;
pub mod tamper;
pub mod tree;
pub mod update;

pub use digest::{hash_leaf, hash_node, is_hashable};
pub use inclusion::{can_verify, get_proof, verify_proof, MerkleProof};
pub use padding::pad_elements;
pub use random::generate_random_string;
pub use tree::{
    can_build, collect_elements, create_merkle_tree, create_node, get_root, MerkleTree, Node,
};
pub use update::update_element;
