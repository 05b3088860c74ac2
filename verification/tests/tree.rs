use merkle_tree::{
    create_merkle_tree, generate_random_string, get_proof, get_root, hash_leaf, hash_node,
    update_element, verify_proof,
};

fn sample() -> Vec<String> {
    vec!["some".to_string(), "test".to_string(), "elements".to_string()]
}

#[test]
fn test_root() {
    let elements = sample();

    let expected_root = hash_node(
        &hash_node(&hash_leaf("some"), &hash_leaf("test")),
        &hash_node(&hash_leaf("elements"), &hash_leaf("")),
    );

    let mt = create_merkle_tree(&elements);

    match mt {
        Ok(mt) => assert_eq!(get_root(&mt), expected_root),
        Err(e) => println!("{}", e),
    }
}

#[test]
fn test_proof() {
    let elements = sample();
    let mt = create_merkle_tree(&elements);

    match mt {
        Ok(mt) => {
            for i in 0..elements.len() {
                let proof = get_proof(&mt, i);

                match proof {
                    Ok(p) => {
                        assert!(verify_proof(get_root(&mt), &p))
                    }
                    Err(e) => println!("{}", e),
                }
            }
        }
        Err(e) => println!("{}", e),
    }
}

#[test]
fn test_empty() {
    let elements = Vec::new();
    let mt = create_merkle_tree(&elements);

    let expected_root = String::new();

    match mt {
        Ok(mt) => assert_eq!(get_root(&mt), expected_root),
        Err(e) => println!("{}", e),
    }
}

#[test]
fn test_big_tree() {
    let elements: Vec<String> = (0..1000).map(|_| generate_random_string(10)).collect();
    let mt = create_merkle_tree(&elements);

    match mt {
        Ok(mt) => {
            for i in 0..elements.len() {
                let proof = get_proof(&mt, i);

                match proof {
                    Ok(p) => {
                        assert!(verify_proof(get_root(&mt), &p))
                    }
                    Err(e) => println!("{}", e),
                }
            }
        }
        Err(e) => println!("{}", e),
    }
}

#[test]
fn test_update_element() {
    let elements = sample();

    let mt = create_merkle_tree(&elements);

    match mt {
        Ok(mt) => {
            let _ = update_element(&mt, 0, "updated");
        }
        Err(e) => println!("{}", e),
    }
}
