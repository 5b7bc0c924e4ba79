//! The AES-256-GCM envelope.

use facetfold::encrypted::{key_from_passphrase, EncryptedBlob};
use facetfold::error::BruceError;

#[test]
fn encrypt_then_decrypt_roundtrip() {
    let key = key_from_passphrase("test-passphrase-do-not-use-in-prod");
    let pt = b"a fact: the customer owes $1,234.56 on 2026-03-17";
    let blob = EncryptedBlob::encrypt(&key, pt).unwrap();
    let recovered = blob.decrypt(&key).unwrap();
    assert_eq!(recovered, pt);
}

#[test]
fn tampered_ciphertext_fails_decrypt() {
    let key = key_from_passphrase("test");
    let pt = b"original";
    let mut blob = EncryptedBlob::encrypt(&key, pt).unwrap();
    blob.ciphertext[0] ^= 0xFF; // flip one byte
    assert!(blob.decrypt(&key).is_err());
}

#[test]
fn wrong_key_fails_decrypt() {
    let k1 = key_from_passphrase("key-a");
    let k2 = key_from_passphrase("key-b");
    let blob = EncryptedBlob::encrypt(&k1, b"secret").unwrap();
    assert!(blob.decrypt(&k2).is_err());
}

#[test]
fn wire_format_roundtrip() {
    let key = key_from_passphrase("test");
    let blob = EncryptedBlob::encrypt(&key, b"hello").unwrap();
    let wire = blob.to_bytes();
    let parsed = EncryptedBlob::from_bytes(&wire).unwrap();
    let pt = parsed.decrypt(&key).unwrap();
    assert_eq!(pt, b"hello");
}

#[test]
fn each_encrypt_uses_fresh_nonce() {
    let key = key_from_passphrase("test");
    let a = EncryptedBlob::encrypt(&key, b"x").unwrap();
    let b = EncryptedBlob::encrypt(&key, b"x").unwrap();
    // same plaintext, same key, but fresh random nonce → different ciphertext
    assert_ne!(a.nonce, b.nonce);
    assert_ne!(a.ciphertext, b.ciphertext);
}

#[test]
fn sealing_is_determined_by_key_nonce_and_plaintext() {
    let key = [0u8; 32];
    let blob = EncryptedBlob::encrypt_with(&key, [0u8; 12], &[0u8; 16]).unwrap();
    // published AES-256-GCM vector: all-zero key, nonce and block
    assert_eq!(
        hex::encode(&blob.ciphertext),
        "cea7403d4d606b6e074ec5d3baf39d18d0d1c8a799996bf0265b98b5d48ab919"
    );
    assert_eq!(blob.decrypt(&key).unwrap(), vec![0u8; 16]);
}

#[test]
fn short_input_is_refused_with_its_length() {
    match EncryptedBlob::from_bytes(&[0; 27]) {
        Err(BruceError::Other(m)) => assert_eq!(m, "EncryptedBlob: input too short (27 bytes)"),
        other => panic!("got {other:?}"),
    }
    let blob = EncryptedBlob::from_bytes(&[7; 28]).unwrap();
    match blob.decrypt(&[0; 32]) {
        Err(BruceError::Other(m)) => assert_eq!(m, "AES-GCM decrypt failed: aead::Error"),
        other => panic!("got {other:?}"),
    }
}

#[test]
fn passphrase_key_is_its_sha256() {
    assert_eq!(
        hex::encode(key_from_passphrase("abc")),
        "ba7816bf8f01cfea414140de5dae2223b00361a396177a9cb410ff61f20015ad"
    );
}
