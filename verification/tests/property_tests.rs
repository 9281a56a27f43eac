use merkle_tree::MerkleTree;
use merkle_tree::hash::tagged_hash;
use merkle_tree::record::{u32_string, record_string, User};
use merkle_tree::usecase::create_merkle_tree;
use merkle_tree::verify_proof;
use sha2::{Digest, Sha256};

fn leaf_tag() -> String {
    "ProofOfReserve_Leaf".to_string()
}

fn branch_tag() -> String {
    "ProofOfReserve_Branch".to_string()
}

/// The tagged hash follows the documented construction:
/// H(H(H(tag) || H(tag) || data)) with H = SHA-256.
#[test]
fn tagged_hash_matches_construction() {
    let data = b"payload bytes";
    let tag = "SomeTag";

    let tag_digest = Sha256::digest(tag.as_bytes());
    let mut hasher = Sha256::new();
    hasher.update(&tag_digest);
    hasher.update(&tag_digest);
    hasher.update(data);
    let inner = hasher.finalize();
    let expected: [u8; 32] = Sha256::digest(inner).into();

    assert_eq!(tagged_hash(data, tag), expected);
}

/// Identical `(data, tag)` always yields an identical digest; differing tags
/// with identical data yield different digests.
#[test]
fn tagged_hash_deterministic_and_tag_separated() {
    let a = tagged_hash(b"same data", "TagA");
    let b = tagged_hash(b"same data", "TagA");
    assert_eq!(a, b);

    let c = tagged_hash(b"same data", "TagB");
    assert_ne!(a, c);

    let empty_a = tagged_hash(b"", "TagA");
    let empty_b = tagged_hash(b"", "TagA");
    assert_eq!(empty_a, empty_b);
    assert_eq!(empty_a.len(), 32);
}

/// The root layer always holds exactly one digest, and the number of layers
/// is ceil(log2(n)) + 1 for n > 1 leaves, 1 for a single leaf.
#[test]
fn layer_counts_follow_leaf_count() {
    let cases: Vec<(Vec<&str>, usize)> = vec![
        (vec!["a"], 1),
        (vec!["a", "b"], 2),
        (vec!["a", "b", "c"], 3),
        (vec!["a", "b", "c", "d", "e"], 4),
        (
            vec!["a", "b", "c", "d", "e", "f", "g", "h"],
            4,
        ),
    ];
    for (leaves, expected_layers) in cases {
        let tree = MerkleTree::new(&leaves, leaf_tag(), branch_tag());
        assert_eq!(tree.layers.len(), expected_layers);
        assert_eq!(tree.layers.last().unwrap().len(), 1);
        assert!(tree.has_valid_shape());
    }
}

/// Empty input produces a single-layer tree whose root is the sentinel
/// digest: the leaf-tag hash of the empty byte string.
#[test]
fn empty_input_gives_sentinel_root() {
    let leaves: Vec<&str> = vec![];
    let tree = MerkleTree::new(&leaves, leaf_tag(), branch_tag());
    assert_eq!(tree.layers.len(), 1);
    assert_eq!(tree.root(), tagged_hash(b"", "ProofOfReserve_Leaf"));

    let real = MerkleTree::new(&["a"], leaf_tag(), branch_tag());
    assert_ne!(tree.root(), real.root());
}

/// A single leaf gives a single-layer tree whose root is the leaf hash, and
/// an empty proof.
#[test]
fn single_leaf_root_is_leaf_hash() {
    let tree = MerkleTree::new(&["a"], leaf_tag(), branch_tag());
    assert_eq!(tree.layers.len(), 1);
    assert_eq!(tree.root(), tagged_hash(b"a", "ProofOfReserve_Leaf"));
    assert_eq!(tree.get_proof(0).len(), 0);
    assert_eq!(tree.get_proof_digests(0).len(), 0);
    let entries = tree.get_proof_digests(0);
    assert!(verify_proof(
        b"a",
        &entries,
        &tree.root(),
        "ProofOfReserve_Leaf",
        "ProofOfReserve_Branch",
    ));
}

/// Rebuilding from the same leaves and tags yields identical layers and an
/// identical root.
#[test]
fn rebuild_is_idempotent() {
    let leaves = vec!["aaa", "bbb", "ccc", "ddd", "eee"];
    let first = MerkleTree::new(&leaves, leaf_tag(), branch_tag());
    let second = MerkleTree::new(&leaves, leaf_tag(), branch_tag());
    assert_eq!(first.layers, second.layers);
    assert_eq!(first.root(), second.root());
}

/// Replaying the extracted proof reproduces the root for every valid leaf
/// index, including indices whose sibling is a padding duplicate.
#[test]
fn proofs_replay_to_root() {
    let leaf_sets: Vec<Vec<&str>> = vec![
        vec!["a", "b", "c"],
        vec!["aaa", "bbb", "ccc", "ddd", "eee"],
        vec!["a", "b", "c", "d", "e", "f", "g", "h"],
    ];
    for leaves in leaf_sets {
        let tree = MerkleTree::new(&leaves, leaf_tag(), branch_tag());
        let root = tree.root();
        for (i, leaf) in leaves.iter().enumerate() {
            let entries = tree.get_proof_digests(i);
            assert!(
                verify_proof(
                    leaf.as_bytes(),
                    &entries,
                    &root,
                    "ProofOfReserve_Leaf",
                    "ProofOfReserve_Branch",
                ),
                "proof for index {} did not replay to the root",
                i
            );
            assert!(!verify_proof(
                b"some other leaf",
                &entries,
                &root,
                "ProofOfReserve_Leaf",
                "ProofOfReserve_Branch",
            ));
        }
    }
}

/// Scenario: leaves ["a","b","c"] under tags "L" and "B" give three layers,
/// with the pair layer holding two digests, and the proof for the
/// duplicated leaf replays to the root.
#[test]
fn three_leaves_scenario() {
    let tree = MerkleTree::new(&["a", "b", "c"], "L".to_string(), "B".to_string());
    assert_eq!(tree.layers.len(), 3);
    assert_eq!(tree.layers[0].len(), 4);
    assert_eq!(tree.layers[1].len(), 2);
    assert_eq!(tree.layers[2].len(), 1);
    let entries = tree.get_proof_digests(2);
    assert!(verify_proof(b"c", &entries, &tree.root(), "L", "B"));
}

/// An odd layer is padded with the last digest's value itself, not a fresh
/// hash of it.
#[test]
fn padding_duplicates_last_digest() {
    let leaves = vec!["aaa", "bbb", "ccc", "ddd", "eee"];
    let tree = MerkleTree::new(&leaves, leaf_tag(), branch_tag());
    let layer0 = &tree.layers[0];
    assert_eq!(layer0.len(), 6);
    let pre_pad_last = tagged_hash(b"eee", "ProofOfReserve_Leaf");
    assert_eq!(layer0[4], pre_pad_last);
    assert_eq!(layer0[5], pre_pad_last);
    let rehash = tagged_hash(&pre_pad_last, "ProofOfReserve_Leaf");
    assert_ne!(layer0[5], rehash);
}

/// The hex-encoded proof agrees entry for entry with the digest-level proof.
#[test]
fn hex_proof_matches_digest_proof() {
    let leaves = vec!["a", "b", "c", "d", "e", "f", "g", "h"];
    let tree = MerkleTree::new(&leaves, leaf_tag(), branch_tag());
    let hex_entries = tree.get_proof(5);
    let digest_entries = tree.get_proof_digests(5);
    assert_eq!(hex_entries.len(), 3);
    assert_eq!(hex_entries.len(), digest_entries.len());
    for (h, d) in hex_entries.iter().zip(digest_entries.iter()) {
        assert_eq!(h.0, hex::encode(d.0));
        assert_eq!(h.0.len(), 64);
        assert_eq!(h.1, d.1);
    }
    assert_eq!(hex_entries[0].1, 0);
    assert_eq!(hex_entries[1].1, 1);
    assert_eq!(hex_entries[2].1, 0);
}

/// A tree reassembled from raw parts with a broken layer structure is
/// rejected by the shape check.
#[test]
fn malformed_layers_fail_shape_check() {
    let good = MerkleTree::new(&["a", "b", "c", "d"], leaf_tag(), branch_tag());
    assert!(good.has_valid_shape());

    let missing_root = MerkleTree {
        layers: good.layers[..2].to_vec(),
        leaf_tag: good.leaf_tag.clone(),
        branch_tag: good.branch_tag.clone(),
    };
    assert!(!missing_root.has_valid_shape());

    let empty = MerkleTree {
        layers: Vec::new(),
        leaf_tag: leaf_tag(),
        branch_tag: branch_tag(),
    };
    assert!(!empty.has_valid_shape());

    let odd_layer = MerkleTree {
        layers: vec![good.layers[0][..3].to_vec(), good.layers[1].clone(), good.layers[2].clone()],
        leaf_tag: good.leaf_tag.clone(),
        branch_tag: good.branch_tag.clone(),
    };
    assert!(!odd_layer.has_valid_shape());
}

/// Decimal rendering is exact.
#[test]
fn decimal_rendering() {
    assert_eq!(u32_string(0), "0");
    assert_eq!(u32_string(7), "7");
    assert_eq!(u32_string(40), "40");
    assert_eq!(u32_string(1234567890), "1234567890");
    assert_eq!(u32_string(u32::MAX), "4294967295");
    assert_eq!(record_string(5, 5555), "(5,5555)");
    assert_eq!(record_string(0, 0), "(0,0)");
}

/// Building from records equals building from their formatted leaf strings.
#[test]
fn tree_from_records_matches_manual_build() {
    let users: Vec<User> = (1u32..=8u32)
        .map(|i| User { id: i, idx: i - 1, balance: i * 1111 })
        .collect();
    let tree = create_merkle_tree(&users);

    let leaf_strings: Vec<String> = users
        .iter()
        .map(|u| format!("({},{})", u.id, u.balance))
        .collect();
    let leaves: Vec<&str> = leaf_strings.iter().map(|s| s.as_str()).collect();
    let manual = MerkleTree::new(&leaves, leaf_tag(), branch_tag());

    assert_eq!(tree.layers, manual.layers);
    assert_eq!(tree.root(), manual.root());
    assert_eq!(tree.leaf_tag, "ProofOfReserve_Leaf");
    assert_eq!(tree.branch_tag, "ProofOfReserve_Branch");
}
