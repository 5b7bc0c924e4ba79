//! Encrypted-at-rest persistence (AES-256-GCM): bytes go in, ciphertext +
//! 12-byte nonce + 16-byte tag come out. The key is a 32-byte secret the
//! caller owns.

use vstd::prelude::*;
use vstd::utf8::*;

use aes_gcm::aead::{Aead, KeyInit};
use aes_gcm::{Aes256Gcm, Key, Nonce};
use rand::RngCore;

use crate::bytes::push_all;
use crate::digest;
use crate::digest::sha256_of;
use crate::error;
use crate::error::{BruceError, BruceErrorView};
use crate::text;
use crate::text::{dec_string, join3, owned};

verus! {

/// 32-byte symmetric key for AES-256-GCM.
pub type EncryptionKey = [u8; 32];

/// What AES-256-GCM makes of a plaintext under a key and a nonce:
/// ciphertext, then tag.
pub uninterp spec fn gcm_seal(key: Seq<u8>, nonce: Seq<u8>, plaintext: Seq<u8>) -> Seq<u8>;

/// What AES-256-GCM recovers from a ciphertext with its tag; nothing where
/// the tag does not match.
pub uninterp spec fn gcm_open(key: Seq<u8>, nonce: Seq<u8>, ciphertext: Seq<u8>) -> Option<Seq<u8>>;

/// The cipher refuses plaintexts longer than this.
pub const PLAINTEXT_MAX: u64 = 0x10_0000_0000;

/// `Aes256Gcm::encrypt`: a plaintext of up to 2^36 bytes is sealed, and the
/// output is a function of key, nonce and plaintext, 16 bytes longer than
/// the plaintext, and opens to the plaintext again under the same key and
/// nonce. A longer plaintext is refused.
#[verifier::external_body]
fn seal(key: &[u8; 32], nonce: &[u8; 12], plaintext: &[u8]) -> (r: Option<Vec<u8>>)
    ensures
        r is Some <==> plaintext@.len() <= PLAINTEXT_MAX,
        r matches Some(c) ==> c@ == gcm_seal(key@, nonce@, plaintext@) && c@.len()
            == plaintext@.len() + 16,
        r matches Some(c) ==> gcm_open(key@, nonce@, c@) == Some(plaintext@),
{
    let cipher = Aes256Gcm::new(Key::<Aes256Gcm>::from_slice(key));
    cipher.encrypt(Nonce::from_slice(nonce), plaintext).ok()
}

/// `Aes256Gcm::decrypt`: the outcome is a function of key, nonce and
/// ciphertext; an input shorter than the tag is refused.
#[verifier::external_body]
fn open(key: &[u8; 32], nonce: &[u8; 12], ciphertext: &[u8]) -> (r: Option<Vec<u8>>)
    ensures
        match r {
            Some(p) => gcm_open(key@, nonce@, ciphertext@) == Some(p@),
            None => gcm_open(key@, nonce@, ciphertext@) is None,
        },
        ciphertext@.len() < 16 ==> r is None,
{
    let cipher = Aes256Gcm::new(Key::<Aes256Gcm>::from_slice(key));
    cipher.decrypt(Nonce::from_slice(nonce), ciphertext).ok()
}

/// `OsRng::fill_bytes` on 12 bytes; nothing is claimed of them.
#[verifier::external_body]
fn fresh_nonce() -> (nonce: [u8; 12]) {
    let mut nonce = [0u8; 12];
    rand::rngs::OsRng.fill_bytes(&mut nonce);
    nonce
}

/// One encrypted blob: nonce + ciphertext (the tag is appended to the
/// ciphertext).
#[derive(Debug, Clone)]
pub struct EncryptedBlob {
    /// 12-byte AES-GCM nonce. MUST be unique per (key, message).
    pub nonce: [u8; 12],
    /// Ciphertext || tag.
    pub ciphertext: Vec<u8>,
}

/// A blob on the wire: nonce, then ciphertext.
pub open spec fn wire(nonce: Seq<u8>, ciphertext: Seq<u8>) -> Seq<u8> {
    nonce + ciphertext
}

impl EncryptedBlob {
    /// Encrypt `plaintext` under the given key. Generates a fresh random
    /// nonce internally.
    pub fn encrypt(key: &EncryptionKey, plaintext: &[u8]) -> (r: Result<Self, BruceError>)
        ensures
            r is Ok <==> plaintext@.len() <= PLAINTEXT_MAX,
            r matches Ok(b) ==> b.ciphertext@ == gcm_seal(key@, b.nonce@, plaintext@) && gcm_open(
                key@,
                b.nonce@,
                b.ciphertext@,
            ) == Some(plaintext@) && b.ciphertext@.len() == plaintext@.len() + 16,
            r is Err ==> error::fails(
                r,
                BruceErrorView::Other("AES-GCM encrypt failed: aead::Error"@),
            ),
    {
        EncryptedBlob::encrypt_with(key, fresh_nonce(), plaintext)
    }

    /// Encrypt `plaintext` under the given key and nonce.
    pub fn encrypt_with(key: &EncryptionKey, nonce: [u8; 12], plaintext: &[u8]) -> (r: Result<
        Self,
        BruceError,
    >)
        ensures
            r is Ok <==> plaintext@.len() <= PLAINTEXT_MAX,
            r matches Ok(b) ==> b.nonce == nonce && b.ciphertext@ == gcm_seal(
                key@,
                nonce@,
                plaintext@,
            ) && gcm_open(key@, nonce@, b.ciphertext@) == Some(plaintext@) && b.ciphertext@.len()
                == plaintext@.len() + 16,
            r is Err ==> error::fails(
                r,
                BruceErrorView::Other("AES-GCM encrypt failed: aead::Error"@),
            ),
    {
        match seal(key, &nonce, plaintext) {
            Some(ciphertext) => Ok(EncryptedBlob { nonce, ciphertext }),
            None => Err(BruceError::Other(owned("AES-GCM encrypt failed: aead::Error"))),
        }
    }

    /// Decrypt back to plaintext. Returns an error if the tag is invalid
    /// (i.e., the ciphertext has been tampered).
    pub fn decrypt(&self, key: &EncryptionKey) -> (r: Result<Vec<u8>, BruceError>)
        ensures
            match gcm_open(key@, self.nonce@, self.ciphertext@) {
                Some(p) => r matches Ok(v) && v@ == p,
                None => error::fails(r, BruceErrorView::Other("AES-GCM decrypt failed: aead::Error"@)),
            },
    {
        match open(key, &self.nonce, self.ciphertext.as_slice()) {
            Some(p) => Ok(p),
            None => Err(BruceError::Other(owned("AES-GCM decrypt failed: aead::Error"))),
        }
    }

    /// Wire-format serialisation: [nonce(12) || ciphertext].
    pub fn to_bytes(&self) -> (out: Vec<u8>)
        ensures
            out@ == wire(self.nonce@, self.ciphertext@),
    {
        let mut out: Vec<u8> = Vec::new();
        push_all(&mut out, &self.nonce);
        push_all(&mut out, self.ciphertext.as_slice());
        assert(out@ =~= wire(self.nonce@, self.ciphertext@));
        out
    }

    /// Parse from wire format: at least a nonce and a tag.
    pub fn from_bytes(data: &[u8]) -> (r: Result<Self, BruceError>)
        ensures
            if data@.len() < 28 {
                error::fails(
                    r,
                    BruceErrorView::Other(
                        "EncryptedBlob: input too short ("@ + text::dec(data@.len()) + " bytes)"@,
                    ),
                )
            } else {
                r matches Ok(b) && b.nonce@ == data@.take(12) && b.ciphertext@ == data@.skip(12)
            },
    {
        if data.len() < 28 {
            return Err(
                BruceError::Other(
                    join3(
                        "EncryptedBlob: input too short (",
                        dec_string(data.len() as u64).as_str(),
                        " bytes)",
                    ),
                ),
            );
        }
        let mut nonce: [u8; 12] = [0; 12];
        let mut i: usize = 0;
        while i < 12
            invariant
                i <= 12,
                data@.len() >= 28,
                forall|j: int| 0 <= j < i ==> nonce@[j] == data@[j],
            decreases 12 - i,
        {
            nonce[i] = data[i];
            i += 1;
        }
        assert(nonce@ =~= data@.take(12));
        let mut ciphertext: Vec<u8> = Vec::new();
        push_all(&mut ciphertext, &data[12..data.len()]);
        assert(ciphertext@ =~= data@.skip(12));
        Ok(EncryptedBlob { nonce, ciphertext })
    }
}

/// Convenience: derive a 32-byte key from a user-supplied passphrase using
/// SHA-256. For production use a real KDF instead.
pub fn key_from_passphrase(pass: &str) -> (k: EncryptionKey)
    ensures
        k == digest::sha256(encode_utf8(pass@)),
{
    sha256_of(pass.as_bytes())
}

/// The wire format loses nothing: the nonce and the ciphertext of a blob
/// stand where parsing takes them from, and a sealed blob is long enough
/// to parse.
pub proof fn wire_round_trip(nonce: Seq<u8>, ciphertext: Seq<u8>)
    requires
        nonce.len() == 12,
    ensures
        wire(nonce, ciphertext).take(12) == nonce,
        wire(nonce, ciphertext).skip(12) == ciphertext,
        ciphertext.len() >= 16 ==> wire(nonce, ciphertext).len() >= 28,
{
    assert(wire(nonce, ciphertext).take(12) =~= nonce);
    assert(wire(nonce, ciphertext).skip(12) =~= ciphertext);
}

} // verus!
