use merkle_tree::random::charset_symbol;
use merkle_tree::{
    can_build, can_verify, collect_elements, create_merkle_tree, create_node, generate_random_string, get_proof,
    get_root, hash_leaf, hash_node, is_hashable, pad_elements, update_element, verify_proof, MerkleProof, Node,
};

fn strings(items: &[&str]) -> Vec<String> {
    items.iter().map(|s| s.to_string()).collect()
}

const EMPTY_DIGEST: &str = "e3b0c44298fc1c149afbf4c8996fb92427ae41e4649b934ca495991b7852b855";
const ABC_DIGEST: &str = "ba7816bf8f01cfea414140de5dae2223b00361a396177a9cb410ff61f20015ad";

#[test]
fn leaf_hash_is_sha256_in_lowercase_hex() {
    assert_eq!(hash_leaf(""), EMPTY_DIGEST);
    assert_eq!(hash_leaf("abc"), ABC_DIGEST);
    assert_eq!(hash_leaf("abc").len(), 64);
}

#[test]
fn node_hash_is_the_hash_of_left_then_right() {
    assert_eq!(hash_node("a", "bc"), ABC_DIGEST);
    assert_eq!(hash_node("", ""), EMPTY_DIGEST);
    assert_ne!(hash_node("a", "b"), hash_node("b", "a"));
}

#[test]
fn hashing_reads_utf8_bytes() {
    // SHA-256 of the two bytes c3 a9
    assert_eq!(
        hash_leaf("\u{e9}"),
        "4a99557e4033c3539de2eb65472017cad5f9557f7a0625a09f1c3f6e2ba69c4c"
    );
}

#[test]
fn padding_goes_to_the_next_power_of_two() {
    assert_eq!(pad_elements(&strings(&[])), strings(&[]));
    assert_eq!(pad_elements(&strings(&["a"])), strings(&["a"]));
    assert_eq!(pad_elements(&strings(&["a", "b"])), strings(&["a", "b"]));
    assert_eq!(pad_elements(&strings(&["a", "b", "c"])), strings(&["a", "b", "c", ""]));
    assert_eq!(pad_elements(&strings(&["a", "b", "c", "d"])), strings(&["a", "b", "c", "d"]));
    assert_eq!(pad_elements(&strings(&["a", "b", "c", "d", "e"])).len(), 8);
}

#[test]
fn single_element_tree_is_one_leaf() {
    let tree = create_merkle_tree(&strings(&["only"])).unwrap();
    assert_eq!(get_root(&tree), hash_leaf("only"));
    let proof = get_proof(&tree, 0).unwrap();
    assert_eq!(proof.element, "only");
    assert!(proof.siblings.is_empty());
    assert!(proof.directions.is_empty());
    assert!(verify_proof(get_root(&tree), &proof));
}

#[test]
fn four_elements_get_no_padding() {
    let tree = create_merkle_tree(&strings(&["a", "b", "c", "d"])).unwrap();
    let expected = hash_node(
        &hash_node(&hash_leaf("a"), &hash_leaf("b")),
        &hash_node(&hash_leaf("c"), &hash_leaf("d")),
    );
    assert_eq!(get_root(&tree), expected);
    assert_eq!(get_proof(&tree, 4).err().unwrap(), "Index out of bounds");
}

#[test]
fn build_is_deterministic() {
    let elements = strings(&["some", "test", "elements"]);
    let first = create_merkle_tree(&elements).unwrap();
    let second = create_merkle_tree(&elements).unwrap();
    assert_eq!(get_root(&first), get_root(&second));
}

#[test]
fn literal_proof_for_index_two() {
    let tree = create_merkle_tree(&strings(&["some", "test", "elements"])).unwrap();
    let proof = get_proof(&tree, 2).unwrap();
    assert_eq!(proof.element, "elements");
    assert_eq!(proof.siblings.len(), 2);
    assert_eq!(proof.siblings[0], hash_leaf(""));
    assert_eq!(proof.siblings[1], hash_node(&hash_leaf("some"), &hash_leaf("test")));
    assert_eq!(proof.directions, vec![true, false]);
    assert!(verify_proof(get_root(&tree), &proof));
}

#[test]
fn proof_siblings_run_from_leaf_to_root() {
    let tree = create_merkle_tree(&strings(&["a", "b", "c", "d", "e", "f", "g", "h"])).unwrap();
    let proof = get_proof(&tree, 2).unwrap();
    assert_eq!(proof.element, "c");
    assert_eq!(
        proof.siblings,
        vec![
            hash_leaf("d"),
            hash_node(&hash_leaf("a"), &hash_leaf("b")),
            hash_node(
                &hash_node(&hash_leaf("e"), &hash_leaf("f")),
                &hash_node(&hash_leaf("g"), &hash_leaf("h")),
            ),
        ]
    );
    assert_eq!(proof.directions, vec![true, false, true]);
}

#[test]
fn padding_leaves_can_be_proved() {
    let tree = create_merkle_tree(&strings(&["some", "test", "elements"])).unwrap();
    let proof = get_proof(&tree, 3).unwrap();
    assert_eq!(proof.element, "");
    assert!(verify_proof(get_root(&tree), &proof));
    assert_eq!(get_proof(&tree, 4).err().unwrap(), "Index out of bounds");
}

#[test]
fn empty_tree_has_no_proofs() {
    let tree = create_merkle_tree(&strings(&[])).unwrap();
    assert_eq!(get_root(&tree), "");
    assert_eq!(get_proof(&tree, 0).err().unwrap(), "Index out of bounds");
    assert_eq!(update_element(&tree, 0, "x").err().unwrap(), "Index out of bounds");
}

#[test]
fn tampered_proofs_are_rejected() {
    let tree = create_merkle_tree(&strings(&["some", "test", "elements"])).unwrap();
    let root = get_root(&tree);
    let good = get_proof(&tree, 1).unwrap();
    assert!(verify_proof(root.clone(), &good));

    let element = MerkleProof {
        element: "tesT".to_string(),
        siblings: good.siblings.clone(),
        directions: good.directions.clone(),
    };
    assert!(!verify_proof(root.clone(), &element));

    let mut siblings = good.siblings.clone();
    siblings[1] = hash_leaf("other");
    let sibling = MerkleProof {
        element: good.element.clone(),
        siblings,
        directions: good.directions.clone(),
    };
    assert!(!verify_proof(root.clone(), &sibling));

    let mut directions = good.directions.clone();
    directions[0] = !directions[0];
    let direction = MerkleProof {
        element: good.element.clone(),
        siblings: good.siblings.clone(),
        directions,
    };
    assert!(!verify_proof(root.clone(), &direction));

    assert!(!verify_proof(hash_leaf("wrong root"), &good));
}

#[test]
fn flipped_direction_beside_an_equal_sibling_still_verifies() {
    let tree = create_merkle_tree(&strings(&["a", "a"])).unwrap();
    let good = get_proof(&tree, 0).unwrap();
    let flipped = MerkleProof {
        element: good.element.clone(),
        siblings: good.siblings.clone(),
        directions: vec![!good.directions[0]],
    };
    assert!(verify_proof(get_root(&tree), &flipped));
}

#[test]
fn verification_reads_siblings_and_directions_in_pairs() {
    let tree = create_merkle_tree(&strings(&["a", "b"])).unwrap();
    let good = get_proof(&tree, 0).unwrap();
    let longer = MerkleProof {
        element: good.element.clone(),
        siblings: good.siblings.clone(),
        directions: vec![true, false, true],
    };
    assert!(verify_proof(get_root(&tree), &longer));
}

#[test]
fn update_matches_a_rebuild() {
    let elements = strings(&["some", "test", "elements", "and", "more"]);
    let tree = create_merkle_tree(&elements).unwrap();
    for i in 0..elements.len() {
        let updated = update_element(&tree, i, "updated").unwrap();
        let mut changed = elements.clone();
        changed[i] = "updated".to_string();
        let rebuilt = create_merkle_tree(&changed).unwrap();
        assert_eq!(get_root(&updated), get_root(&rebuilt));
        let proof = get_proof(&updated, i).unwrap();
        assert_eq!(proof.element, "updated");
        assert!(verify_proof(get_root(&updated), &proof));
    }
    // the given tree is left as it was
    assert_eq!(get_root(&tree), get_root(&create_merkle_tree(&elements).unwrap()));
}

#[test]
fn update_is_bounded_by_the_element_count() {
    let tree = create_merkle_tree(&strings(&["some", "test", "elements"])).unwrap();
    assert!(update_element(&tree, 2, "x").is_ok());
    assert_eq!(update_element(&tree, 3, "x").err().unwrap(), "Index out of bounds");
    assert_eq!(update_element(&tree, 4, "x").err().unwrap(), "Index out of bounds");
    let updated = update_element(&tree, 2, "x").unwrap();
    assert_eq!(update_element(&updated, 3, "y").err().unwrap(), "Index out of bounds");
}

#[test]
fn nodes_are_built_by_halving() {
    let node = create_node(&strings(&["a", "b", "c"]));
    match &node {
        Node::Branch { hash, left, right } => {
            assert!(matches!(**left, Node::Leaf { .. }));
            assert!(matches!(**right, Node::Branch { .. }));
            assert_eq!(
                *hash,
                hash_node(&hash_leaf("a"), &hash_node(&hash_leaf("b"), &hash_leaf("c")))
            );
        }
        _ => panic!("three elements make a branch"),
    }
    assert_eq!(collect_elements(&node), strings(&["a", "b", "c"]));
    assert_eq!(collect_elements(&Node::Empty), strings(&[]));
}

#[test]
fn charset_is_letters_then_digits() {
    assert_eq!(charset_symbol(0), "A");
    assert_eq!(charset_symbol(25), "Z");
    assert_eq!(charset_symbol(26), "a");
    assert_eq!(charset_symbol(51), "z");
    assert_eq!(charset_symbol(52), "0");
    assert_eq!(charset_symbol(61), "9");
}

#[test]
fn random_strings_have_the_asked_length_and_charset() {
    assert_eq!(generate_random_string(0), "");
    for length in [1usize, 10, 200] {
        let text = generate_random_string(length);
        assert_eq!(text.chars().count(), length);
        assert!(text.chars().all(|c| c.is_ascii_alphanumeric()));
    }
}

#[test]
fn guards_accept_ordinary_inputs() {
    assert!(is_hashable(""));
    assert!(is_hashable("some"));
    let elements = strings(&["some", "test", "elements"]);
    assert!(can_build(&elements));
    assert!(can_build(&strings(&[])));
    let tree = create_merkle_tree(&elements).unwrap();
    let proof = get_proof(&tree, 0).unwrap();
    assert!(can_verify(&proof));
    let odd = MerkleProof {
        element: "x".to_string(),
        siblings: vec!["not a digest".to_string()],
        directions: vec![],
    };
    assert!(can_verify(&odd));
    assert!(!verify_proof(get_root(&tree), &odd));
}
