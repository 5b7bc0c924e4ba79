//! Signed facts.

use facetfold::error::BruceError;
use facetfold::provenance::{canonical_digest, Identity, SignedFact, SignedFactWire};

#[test]
fn sign_then_verify_succeeds() {
    let alice = Identity::generate();
    let signed = alice.sign_fact("fact1", "alice", b"hello world");
    signed.verify().unwrap();
}

#[test]
fn tampered_payload_fails_verification() {
    let alice = Identity::generate();
    let mut signed = alice.sign_fact("fact1", "alice", b"hello world");
    signed.payload[0] ^= 0xFF;
    assert!(signed.verify().is_err());
}

#[test]
fn tampered_owner_fails_verification() {
    let alice = Identity::generate();
    let mut signed = alice.sign_fact("fact1", "alice", b"hello");
    signed.owner = "mallory".into();
    assert!(signed.verify().is_err());
}

#[test]
fn forged_signature_fails() {
    let alice = Identity::generate();
    let signed = alice.sign_fact("f", "alice", b"x");
    let mallory = Identity::generate();
    // Mallory signs the same canonical digest but claims it's
    // Alice's public key: that's the easy attack, and verification
    // should still pass for Mallory's key but fail for Alice's.
    let with_mallory_key = SignedFact {
        public_key: mallory.public_key(),
        ..signed.clone()
    };
    assert!(with_mallory_key.verify().is_err());
}

#[test]
fn identity_roundtrip_via_secret_bytes() {
    let alice = Identity::generate();
    let secret = alice.secret_bytes();
    let alice2 = Identity::from_secret(secret);
    let s1 = alice.sign_fact("f", "alice", b"hi");
    let s2 = alice2.sign_fact("f", "alice", b"hi");
    // same canonical digest + same secret → same signature
    assert_eq!(s1.signature, s2.signature);
}

#[test]
fn public_key_is_the_published_one() {
    // RFC 8032, first Ed25519 test vector
    let secret = hex::decode("9d61b19deffd5a60ba844af492ec2cc44449c5697b326919703bac031cae7f60");
    let mut bytes = [0u8; 32];
    bytes.copy_from_slice(&secret.unwrap());
    let id = Identity::from_secret(bytes);
    assert_eq!(
        hex::encode(id.public_key()),
        "d75a980182b10ab7d54bfed3c964073a0ee172f3daa62325af021a68f707511a"
    );
    let fact = id.sign_fact("f", "o", b"p");
    assert_eq!(fact.key_fingerprint(), "d75a9801");
}

#[test]
fn canonical_digest_separates_its_parts() {
    assert_ne!(canonical_digest("ab", "c", b""), canonical_digest("a", "bc", b""));
    assert_eq!(
        hex::encode(canonical_digest("", "", b"")),
        "96a296d224f285c67bee93c30f8a309157f0daa35dc5b87e410b78630a09cfc7"
    );
    // id, zero, owner, zero, payload
    assert_eq!(
        hex::encode(canonical_digest("a", "b", b"x")),
        "ab8e8d4b6b1fd26174a6613512a1f9a3b5ff17c8635549d697b601f482e44b0a"
    );
    // with a zero byte in the id: mark, lengths, id, owner, payload
    assert_eq!(
        hex::encode(canonical_digest("a\0b", "c", b"x")),
        "47883887956021198f185694b64f7af948cc242208cc898d35475e89f2fcadb4"
    );
    assert_ne!(canonical_digest("a\0b", "c", b"x"), canonical_digest("a", "b\0c", b"x"));
}

#[test]
fn a_moved_border_between_id_and_owner_does_not_verify() {
    let s = Identity::from_secret([7u8; 32]).sign_fact("a\0b", "c", b"x");
    assert!(s.verify().is_ok());
    let t = SignedFact { fact_id: "a".into(), owner: "b\0c".into(), ..s.clone() };
    assert!(t.verify().is_err());
}

#[test]
fn wire_round_trip_keeps_the_fact() {
    let id = Identity::generate();
    let fact = id.sign_fact("f", "owner", &[0, 255, 16]);
    let wire = fact.to_wire();
    assert_eq!(wire.payload_hex, "00ff10");
    assert_eq!(wire.signature_hex.len(), 128);
    let back = SignedFact::from_wire(&wire).unwrap();
    assert_eq!(back.payload, fact.payload);
    assert_eq!(back.signature, fact.signature);
    assert_eq!(back.public_key, fact.public_key);
    back.verify().unwrap();
}

fn wire_error(change: fn(&mut SignedFactWire)) -> String {
    let mut wire = Identity::from_secret([7; 32]).sign_fact("f", "o", b"p").to_wire();
    change(&mut wire);
    match SignedFact::from_wire(&wire) {
        Err(BruceError::Other(m)) => m,
        other => panic!("got {other:?}"),
    }
}

#[test]
fn malformed_wire_says_what_is_wrong() {
    assert_eq!(
        wire_error(|w| w.payload_hex = "0".into()),
        "bad payload hex: Odd number of digits"
    );
    assert_eq!(
        wire_error(|w| w.payload_hex = "0g".into()),
        "bad payload hex: Invalid character 'g' at position 1"
    );
    assert_eq!(
        wire_error(|w| w.signature_hex = "zz".into()),
        "bad signature hex: Invalid character 'z' at position 0"
    );
    assert_eq!(
        wire_error(|w| w.public_key_hex = "x".into()),
        "bad public key hex: Odd number of digits"
    );
    assert_eq!(wire_error(|w| w.signature_hex = "00".into()), "signature must be 64 bytes");
    assert_eq!(wire_error(|w| w.public_key_hex = "00".into()), "public key must be 32 bytes");
}

#[test]
fn verification_errors_say_which_part_failed() {
    let mut fact = Identity::from_secret([7; 32]).sign_fact("f", "o", b"p");
    fact.payload.push(1);
    match fact.verify() {
        Err(BruceError::Other(m)) => assert!(m.starts_with("verify failed: "), "{m}"),
        other => panic!("got {other:?}"),
    }
    fact.public_key = [2; 32];
    match fact.verify() {
        Err(BruceError::Other(m)) => assert!(m.starts_with("bad public key: "), "{m}"),
        other => panic!("got {other:?}"),
    }
}
