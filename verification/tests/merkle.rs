//! The Merkle audit log.

use facetfold::merkle::{h, h_leaf, h_pair, MerkleAuditLog};

#[test]
fn empty_log_has_sentinel_root() {
    let log = MerkleAuditLog::new();
    assert_eq!(log.root(), h(&[]));
}

#[test]
fn single_entry_root_is_leaf_hash() {
    let mut log = MerkleAuditLog::new();
    log.append(b"first op");
    assert_eq!(log.root(), h_leaf(b"first op"));
}

#[test]
fn appending_changes_root() {
    let mut log = MerkleAuditLog::new();
    log.append(b"a");
    let r1 = log.root();
    log.append(b"b");
    let r2 = log.root();
    assert_ne!(r1, r2);
}

#[test]
fn inclusion_proof_verifies() {
    let mut log = MerkleAuditLog::new();
    for i in 0..10 {
        log.append(format!("op-{i}").as_bytes());
    }
    let root = log.root();
    for i in 0..10 {
        let payload = format!("op-{i}");
        let proof = log.inclusion_proof(i).unwrap();
        assert!(
            MerkleAuditLog::verify(payload.as_bytes(), i, 10, &proof, &root),
            "inclusion proof failed for idx {i}"
        );
    }
}

#[test]
fn tampered_entry_fails_verification() {
    let mut log = MerkleAuditLog::new();
    for i in 0..8 {
        log.append(format!("op-{i}").as_bytes());
    }
    let root = log.root();
    let proof = log.inclusion_proof(3).unwrap();
    // try to "verify" a forged payload at index 3
    let forged = b"op-3-tampered";
    assert!(!MerkleAuditLog::verify(forged, 3, 8, &proof, &root));
}

#[test]
fn roots_at_various_sizes_are_unique() {
    let mut log = MerkleAuditLog::new();
    let mut roots = std::collections::HashSet::new();
    for i in 0..15 {
        log.append(format!("op-{i}").as_bytes());
        roots.insert(log.root());
    }
    assert_eq!(roots.len(), 15); // each append yields a new root
}

#[test]
fn sha256_of_the_empty_string_is_the_published_value() {
    let log = MerkleAuditLog::default();
    assert!(log.is_empty());
    assert_eq!(log.len(), 0);
    let want = "e3b0c44298fc1c149afbf4c8996fb92427ae41e4649b934ca495991b7852b855";
    assert_eq!(hex::encode(log.root()), want);
}

#[test]
fn three_leaves_promote_the_odd_one() {
    let mut log = MerkleAuditLog::new();
    assert_eq!(log.append(b"a"), 0);
    assert_eq!(log.append(b"b"), 1);
    assert_eq!(log.append(b"c"), 2);
    let ab = h_pair(&h_leaf(b"a"), &h_leaf(b"b"));
    assert_eq!(log.root(), h_pair(&ab, &h_leaf(b"c")));
    assert_eq!(log.inclusion_proof(2).unwrap(), vec![ab]);
    assert_eq!(log.inclusion_proof(0).unwrap(), vec![h_leaf(b"b"), h_leaf(b"c")]);
    assert!(log.inclusion_proof(3).is_none());
}

#[test]
fn a_short_proof_or_an_empty_log_never_verifies() {
    let mut log = MerkleAuditLog::new();
    log.append(b"a");
    log.append(b"b");
    let root = log.root();
    assert!(!MerkleAuditLog::verify(b"a", 0, 2, &[], &root));
    assert!(!MerkleAuditLog::verify(b"a", 0, 0, &[], &root));
}

#[test]
fn a_path_proves_only_its_own_entry() {
    let mut log = MerkleAuditLog::new();
    for i in 0..7u8 {
        log.append(&[i]);
    }
    let root = log.root();
    for i in 0..7usize {
        let path = log.inclusion_proof(i).unwrap();
        let mut longer = path.clone();
        longer.push([9u8; 32]);
        assert!(MerkleAuditLog::verify(&[i as u8], i, 7, &longer, &root));
        for j in 0..7usize {
            assert_eq!(MerkleAuditLog::verify(&[j as u8], i, 7, &path, &root), i == j);
        }
        let mut bent = path.clone();
        bent[0][0] ^= 1;
        assert!(!MerkleAuditLog::verify(&[i as u8], i, 7, &bent, &root));
    }
}
