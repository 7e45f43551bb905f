use merkle_deps::Dependency;
use merkle_deps::MerkleTree;

fn dep(name: &str, version: &str) -> Dependency {
    Dependency {
        name: name.to_string(),
        version: version.to_string(),
        integrity: None,
        resolved: None,
    }
}

#[test]
fn test_merkle_tree_creation() {
    let tree = MerkleTree::new();
    assert!(tree.root_hash().is_none());
}

#[test]
fn test_dependency_hashing() {
    let tree = MerkleTree::new();
    let dep = Dependency {
        name: "test-package".to_string(),
        version: "1.0.0".to_string(),
        integrity: Some("sha512-abc123".to_string()),
        resolved: None,
    };

    let hash1 = tree.hash_dependency(&dep);
    let hash2 = tree.hash_dependency(&dep);
    assert_eq!(hash1, hash2, "Dependency hashing should be deterministic");
}

#[test]
fn test_build_tree_from_dependencies() {
    let mut tree = MerkleTree::new();
    let dependencies = vec![
        Dependency {
            name: "package-a".to_string(),
            version: "1.0.0".to_string(),
            integrity: None,
            resolved: None,
        },
        Dependency {
            name: "package-b".to_string(),
            version: "2.0.0".to_string(),
            integrity: None,
            resolved: None,
        },
    ];

    assert!(tree.build_from_dependencies(dependencies).is_ok());
    assert!(tree.root_hash().is_some());
}

#[test]
fn test_known_digest_no_optional_fields() {
    // Canonical encoding of the record is "test-package:1.0.0"; the digest is
    // the SHA-256 of those bytes.
    let tree = MerkleTree::new();
    let digest = tree.hash_dependency(&dep("test-package", "1.0.0"));
    assert_eq!(
        hex::encode(&digest),
        "cb46fe9c1698f91dc4125e7b9fff8d2ed1d199893676648b975954ef4592f562"
    );
}

#[test]
fn test_known_digest_with_integrity() {
    let tree = MerkleTree::new();
    let record = Dependency {
        name: "test-package".to_string(),
        version: "1.0.0".to_string(),
        integrity: Some("sha512-abc123".to_string()),
        resolved: None,
    };
    let digest = tree.hash_dependency(&record);
    assert_eq!(
        hex::encode(&digest),
        "663a7048ed819f05503a7179dfcd1ae33466267309bbe2ee5892cc7e04c41c96"
    );
}

#[test]
fn test_digest_matches_independent_sha256() {
    // The canonical digest must agree with SHA-256 computed directly on the
    // canonical bytes through ring, and must differ from the input bytes.
    let tree = MerkleTree::new();
    let digest = tree.hash_dependency(&dep("left-pad", "1.3.0"));
    let direct = ring::digest::digest(&ring::digest::SHA256, b"left-pad:1.3.0");
    assert_eq!(digest.as_slice(), direct.as_ref());
    assert_ne!(digest.as_slice(), b"left-pad:1.3.0".as_slice());
    assert_eq!(digest.len(), 32);
}

#[test]
fn test_root_hash_hex_matches_root_hash() {
    let mut tree = MerkleTree::new();
    tree.build_from_dependencies(vec![dep("a", "1.0.0"), dep("b", "2.0.0")])
        .unwrap();
    let digest = tree.root_hash().unwrap();
    let text = tree.root_hash_hex().unwrap();
    assert_eq!(text, hex::encode(&digest));
    assert_eq!(text.len(), 64);
    assert!(text.chars().all(|c| c.is_ascii_hexdigit() && !c.is_ascii_uppercase()));
}

#[test]
fn test_root_hash_hex_empty_tree() {
    let tree = MerkleTree::new();
    assert!(tree.root_hash_hex().is_none());
}

#[test]
fn test_default_tree_is_empty() {
    let tree = MerkleTree::default();
    assert!(tree.root_hash().is_none());
}

#[test]
fn test_rebuild_replaces_previous_tree() {
    let mut tree = MerkleTree::new();
    tree.build_from_dependencies(vec![dep("a", "1.0.0")]).unwrap();
    let first = tree.root_hash().unwrap();
    tree.build_from_dependencies(vec![dep("b", "2.0.0")]).unwrap();
    let second = tree.root_hash().unwrap();
    assert_ne!(first, second);
    // A rejected rebuild leaves the tree empty rather than keeping a stale
    // root for leaves it no longer holds.
    assert!(tree.build_from_dependencies(vec![]).is_err());
    assert!(tree.root_hash().is_none());
}

#[test]
fn test_verify_inclusion_on_empty_tree() {
    let tree = MerkleTree::new();
    let steps = Vec::new();
    assert!(!tree.verify_inclusion(&dep("a", "1.0.0"), &steps));
}
