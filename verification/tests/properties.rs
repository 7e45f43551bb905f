use merkle_deps::Dependency;
use merkle_deps::MerkleTree;
use merkle_deps::Side;

fn dep(name: &str, version: &str) -> Dependency {
    Dependency {
        name: name.to_string(),
        version: version.to_string(),
        integrity: None,
        resolved: None,
    }
}

fn full_dep(name: &str, version: &str, integrity: Option<&str>, resolved: Option<&str>) -> Dependency {
    Dependency {
        name: name.to_string(),
        version: version.to_string(),
        integrity: integrity.map(|s| s.to_string()),
        resolved: resolved.map(|s| s.to_string()),
    }
}

fn sample_deps(n: usize) -> Vec<Dependency> {
    (0..n).map(|i| dep(&format!("package-{}", i), &format!("{}.0.0", i + 1))).collect()
}

#[test]
fn test_hashing_deterministic_across_instances() {
    let tree1 = MerkleTree::new();
    let tree2 = MerkleTree::new();
    let record = full_dep("pkg", "0.1.7", Some("sha512-xyz"), Some("https://example.invalid/pkg"));
    assert_eq!(tree1.hash_dependency(&record), tree2.hash_dependency(&record));
}

#[test]
fn test_root_consistent_across_instances() {
    let mut tree1 = MerkleTree::new();
    let mut tree2 = MerkleTree::new();
    tree1.build_from_dependencies(sample_deps(5)).unwrap();
    tree2.build_from_dependencies(sample_deps(5)).unwrap();
    assert_eq!(tree1.root_hash().unwrap(), tree2.root_hash().unwrap());
}

#[test]
fn test_digest_sensitive_to_each_field() {
    let tree = MerkleTree::new();
    let base = full_dep("pkg", "1.0.0", Some("sha512-abc"), Some("https://example.invalid/a"));
    let base_digest = tree.hash_dependency(&base);

    let renamed = full_dep("pkg2", "1.0.0", Some("sha512-abc"), Some("https://example.invalid/a"));
    assert_ne!(tree.hash_dependency(&renamed), base_digest);

    let reversioned = full_dep("pkg", "1.0.1", Some("sha512-abc"), Some("https://example.invalid/a"));
    assert_ne!(tree.hash_dependency(&reversioned), base_digest);

    let other_integrity = full_dep("pkg", "1.0.0", Some("sha512-def"), Some("https://example.invalid/a"));
    assert_ne!(tree.hash_dependency(&other_integrity), base_digest);

    let no_integrity = full_dep("pkg", "1.0.0", None, Some("https://example.invalid/a"));
    assert_ne!(tree.hash_dependency(&no_integrity), base_digest);

    let other_resolved = full_dep("pkg", "1.0.0", Some("sha512-abc"), Some("https://example.invalid/b"));
    assert_ne!(tree.hash_dependency(&other_resolved), base_digest);

    let no_resolved = full_dep("pkg", "1.0.0", Some("sha512-abc"), None);
    assert_ne!(tree.hash_dependency(&no_resolved), base_digest);
}

#[test]
fn test_single_leaf_root_is_leaf_digest() {
    let mut tree = MerkleTree::new();
    let record = dep("single", "1.0.0");
    let leaf = tree.hash_dependency(&record);
    tree.build_from_dependencies(vec![record]).unwrap();
    assert_eq!(tree.root_hash().unwrap(), leaf);
}

#[test]
fn test_order_sensitivity() {
    let a = dep("a", "1.0.0");
    let b = dep("b", "2.0.0");
    let mut forward = MerkleTree::new();
    let mut reversed = MerkleTree::new();
    forward.build_from_dependencies(vec![a.clone(), b.clone()]).unwrap();
    reversed.build_from_dependencies(vec![b, a]).unwrap();
    assert_ne!(forward.root_hash().unwrap(), reversed.root_hash().unwrap());
}

#[test]
fn test_empty_rejection() {
    let mut tree = MerkleTree::new();
    let result = tree.build_from_dependencies(Vec::new());
    assert_eq!(result, Err("Cannot build tree from empty dependency list".to_string()));
    assert!(tree.root_hash().is_none());
}

#[test]
fn test_round_trip_every_leaf() {
    for n in 1..=9 {
        let deps = sample_deps(n);
        let mut tree = MerkleTree::new();
        tree.build_from_dependencies(deps.clone()).unwrap();
        for record in &deps {
            let steps = tree
                .generate_proof(record)
                .expect("every built-in record must have a proof");
            assert!(
                tree.verify_inclusion(record, &steps),
                "round trip failed for {} of {} leaves",
                record.name,
                n
            );
            let leaf = tree.hash_dependency(record);
            let root = tree.root_hash().unwrap();
            assert!(tree.verify_proof(&leaf, &steps, &root));
        }
    }
}

#[test]
fn test_tamper_detection_sibling_bytes() {
    let deps = sample_deps(5);
    let mut tree = MerkleTree::new();
    tree.build_from_dependencies(deps.clone()).unwrap();
    let record = &deps[2];
    let steps = tree.generate_proof(record).unwrap();
    for step_index in 0..steps.len() {
        for byte_index in 0..steps[step_index].sibling.len() {
            let mut tampered = steps.clone();
            tampered[step_index].sibling[byte_index] ^= 1;
            assert!(
                !tree.verify_inclusion(record, &tampered),
                "flipped byte {} of step {} still verified",
                byte_index,
                step_index
            );
        }
    }
}

#[test]
fn test_tamper_detection_sibling_side() {
    let deps = sample_deps(4);
    let mut tree = MerkleTree::new();
    tree.build_from_dependencies(deps.clone()).unwrap();
    let record = &deps[0];
    let steps = tree.generate_proof(record).unwrap();
    for step_index in 0..steps.len() {
        let mut tampered = steps.clone();
        tampered[step_index].side = match tampered[step_index].side {
            Side::Left => Side::Right,
            Side::Right => Side::Left,
        };
        assert!(!tree.verify_inclusion(record, &tampered));
    }
}

#[test]
fn test_tamper_detection_claimed_root() {
    let deps = sample_deps(3);
    let mut tree = MerkleTree::new();
    tree.build_from_dependencies(deps.clone()).unwrap();
    let record = &deps[1];
    let steps = tree.generate_proof(record).unwrap();
    let leaf = tree.hash_dependency(record);
    let mut root = tree.root_hash().unwrap();
    assert!(tree.verify_proof(&leaf, &steps, &root));
    for byte_index in 0..root.len() {
        root[byte_index] ^= 1;
        assert!(!tree.verify_proof(&leaf, &steps, &root));
        root[byte_index] ^= 1;
    }
}

#[test]
fn test_absent_dependency_has_no_proof() {
    let mut tree = MerkleTree::new();
    tree.build_from_dependencies(sample_deps(4)).unwrap();
    assert!(tree.generate_proof(&dep("missing", "9.9.9")).is_none());
}

#[test]
fn test_concrete_two_leaf_scenario() {
    let a = dep("a", "1.0.0");
    let b = dep("b", "2.0.0");
    let mut tree = MerkleTree::new();
    let hash_a = tree.hash_dependency(&a);
    let hash_b = tree.hash_dependency(&b);
    tree.build_from_dependencies(vec![a, b]).unwrap();
    let root = tree.root_hash().unwrap();
    assert_eq!(root, tree.hash_combine(&hash_a, &hash_b));
    assert_eq!(
        hex::encode(&root),
        "209fc9b58d411485ea920ea6f001783b1f363f26af003856d66f0966832c3779"
    );
}

#[test]
fn test_concrete_three_leaf_scenario() {
    // With three leaves the split puts the first two on the left, so the root
    // is Hash(Hash(h(a) || h(b)) || h(c)).
    let a = dep("a", "1.0.0");
    let b = dep("b", "2.0.0");
    let c = dep("c", "3.0.0");
    let mut tree = MerkleTree::new();
    let hash_a = tree.hash_dependency(&a);
    let hash_b = tree.hash_dependency(&b);
    let hash_c = tree.hash_dependency(&c);
    tree.build_from_dependencies(vec![a.clone(), b, c.clone()]).unwrap();
    let left = tree.hash_combine(&hash_a, &hash_b);
    assert_eq!(tree.root_hash().unwrap(), tree.hash_combine(&left, &hash_c));
    // Proof length equals the leaf's depth: two levels for the first leaf,
    // one for the lone right leaf.
    assert_eq!(tree.generate_proof(&a).unwrap().len(), 2);
    assert_eq!(tree.generate_proof(&c).unwrap().len(), 1);
}

#[test]
fn test_two_leaf_proof_shape() {
    // In a two-leaf tree the proof for the first leaf is one step: the other
    // leaf's digest as the right operand.
    let a = dep("a", "1.0.0");
    let b = dep("b", "2.0.0");
    let mut tree = MerkleTree::new();
    let hash_b = tree.hash_dependency(&b);
    tree.build_from_dependencies(vec![a.clone(), b]).unwrap();
    let steps = tree.generate_proof(&a).unwrap();
    assert_eq!(steps.len(), 1);
    assert_eq!(steps[0].sibling, hash_b);
    assert!(matches!(steps[0].side, Side::Right));
}
