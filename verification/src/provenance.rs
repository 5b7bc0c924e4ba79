//! Signed fact provenance: every record can carry an Ed25519 signature so
//! downstream consumers can verify it came from the claimed owner and
//! hasn't been tampered with.

use vstd::prelude::*;
use vstd::utf8::*;

use ed25519_dalek::{Signature, Signer, SigningKey, Verifier, VerifyingKey};

use crate::bytes;
use crate::bytes::{push_all, push_le};
use crate::digest;
use crate::digest::sha256_of;
use crate::error;
use crate::error::{BruceError, BruceErrorView};
use crate::text;
use crate::text::owned;

verus! {

// ---------------------------------------------------------------------- hex

/// The lower-case hexadecimal digit of value `d`.
pub open spec fn hex_lower(d: int) -> char {
    if d < 10 {
        (48 + d) as char
    } else {
        (87 + d) as char
    }
}

/// The hexadecimal form of a byte string: two digits per byte.
pub open spec fn hex_text(b: Seq<u8>) -> Seq<char> {
    Seq::new(
        b.len() * 2,
        |i: int|
            if i % 2 == 0 {
                hex_lower(b[i / 2] as int / 16)
            } else {
                hex_lower(b[i / 2] as int % 16)
            },
    )
}

/// `hex::encode`: two lower-case digits per byte.
#[verifier::external_body]
fn hex_encode(data: &[u8]) -> (s: String)
    ensures
        s@ == hex_text(data@),
{
    hex::encode(data)
}

/// The value of a byte as an ASCII hexadecimal digit, of either case.
pub open spec fn nibble(c: u8) -> Option<int> {
    if 48 <= c <= 57 {
        Some(c - 48)
    } else if 97 <= c <= 102 {
        Some(c - 87)
    } else if 65 <= c <= 70 {
        Some(c - 55)
    } else {
        None
    }
}

/// The first place, from `i` on, that holds no hexadecimal digit.
pub open spec fn bad_digit(b: Seq<u8>, i: int) -> Option<int>
    decreases b.len() - i,
{
    if i >= b.len() {
        None
    } else if nibble(b[i]) is None {
        Some(i)
    } else {
        bad_digit(b, i + 1)
    }
}

/// The bytes that hexadecimal text (as its UTF-8 bytes) spells, or the
/// complaint about it.
pub open spec fn unhex(b: Seq<u8>) -> Result<Seq<u8>, Seq<char>> {
    if b.len() % 2 != 0 {
        Err("Odd number of digits"@)
    } else {
        match bad_digit(b, 0) {
            Some(i) => Err(
                "Invalid character "@ + text::debug_char(b[i] as char) + " at position "@ + text::dec(i as nat),
            ),
            None => Ok(
                Seq::new(
                    b.len() / 2,
                    |i: int| (16 * nibble(b[2 * i])->0 + nibble(b[2 * i + 1])->0) as u8,
                ),
            ),
        }
    }
}

/// `hex::decode`: text of even length, all digits, is read two digits per
/// byte; anything else is refused with the `Display` text of its error.
#[verifier::external_body]
fn hex_decode(s: &str) -> (r: Result<Vec<u8>, String>)
    ensures
        match unhex(encode_utf8(s@)) {
            Ok(b) => r matches Ok(v) && v@ == b,
            Err(t) => r matches Err(e) && e@ == t,
        },
{
    hex::decode(s).map_err(|e| e.to_string())
}

// ------------------------------------------------------------------ ed25519

/// The public key of a 32-byte secret.
pub uninterp spec fn ed25519_public(secret: Seq<u8>) -> [u8; 32];

/// The signature of a message under a secret.
pub uninterp spec fn ed25519_signature(secret: Seq<u8>, msg: Seq<u8>) -> [u8; 64];

/// Why 32 bytes are no public key; nothing for a public key.
pub uninterp spec fn ed25519_key_error(public: Seq<u8>) -> Option<Seq<char>>;

/// Why a signature is refused; nothing for one that is valid.
pub uninterp spec fn ed25519_error(public: Seq<u8>, msg: Seq<u8>, sig: Seq<u8>) -> Option<Seq<char>>;

/// `SigningKey::generate` with the operating system's generator, as its 32
/// secret bytes; nothing is claimed of them.
#[verifier::external_body]
fn fresh_secret() -> (secret: [u8; 32]) {
    SigningKey::generate(&mut rand::rngs::OsRng).to_bytes()
}

/// `SigningKey::verifying_key`: a function of the secret, and a valid
/// public key.
#[verifier::external_body]
fn public_of(secret: &[u8; 32]) -> (r: [u8; 32])
    ensures
        r == ed25519_public(secret@),
        ed25519_key_error(r@) is None,
{
    SigningKey::from_bytes(secret).verifying_key().to_bytes()
}

/// `SigningKey::sign`: a function of secret and message, and valid for the
/// message under the secret's public key.
#[verifier::external_body]
fn sign(secret: &[u8; 32], msg: &[u8]) -> (r: [u8; 64])
    ensures
        r == ed25519_signature(secret@, msg@),
        ed25519_error(ed25519_public(secret@)@, msg@, r@) is None,
{
    SigningKey::from_bytes(secret).sign(msg).to_bytes()
}

/// `VerifyingKey::from_bytes`: whether the bytes are a public key, with the
/// `Display` text of its error.
#[verifier::external_body]
fn check_key(public: &[u8; 32]) -> (r: Result<(), String>)
    ensures
        match ed25519_key_error(public@) {
            None => r is Ok,
            Some(t) => r matches Err(e) && e@ == t,
        },
{
    VerifyingKey::from_bytes(public).map(|_| ()).map_err(|e| e.to_string())
}

/// `VerifyingKey::verify`: whether the signature is valid for the message
/// under the key, with the `Display` text of its error.
#[verifier::external_body]
fn check_signature(public: &[u8; 32], msg: &[u8], sig: &[u8; 64]) -> (r: Result<(), String>)
    requires
        ed25519_key_error(public@) is None,
    ensures
        match ed25519_error(public@, msg@, sig@) {
            None => r is Ok,
            Some(t) => r matches Err(e) && e@ == t,
        },
{
    VerifyingKey::from_bytes(public)
        .and_then(|k| k.verify(msg, &Signature::from_bytes(sig)))
        .map_err(|e| e.to_string())
}

// -------------------------------------------------------------------- facts

/// The first byte of the signable bytes where id or owner hold a zero byte.
/// No text starts with it.
pub const MEASURED: u8 = 0xFF;

/// The signable bytes of a fact: id, owner and payload, with a zero byte
/// behind id and owner. Where one of these holds a zero byte itself, so that
/// it could not be told from the ones behind, the bytes are a mark, the
/// lengths of id and owner in eight bytes each, then id, owner and payload.
pub open spec fn signable(fact_id: Seq<char>, owner: Seq<char>, payload: Seq<u8>) -> Seq<u8> {
    let (id, who) = (encode_utf8(fact_id), encode_utf8(owner));
    if id.contains(0u8) || who.contains(0u8) {
        measured(id, who, payload)
    } else {
        separated(id, who, payload)
    }
}

/// Id, owner and payload with a zero byte behind id and owner.
pub open spec fn separated(id: Seq<u8>, who: Seq<u8>, payload: Seq<u8>) -> Seq<u8> {
    id + seq![0u8] + who + seq![0u8] + payload
}

/// Id, owner and payload behind a mark and the lengths of id and owner.
pub open spec fn measured(id: Seq<u8>, who: Seq<u8>, payload: Seq<u8>) -> Seq<u8> {
    seq![MEASURED] + bytes::le_bytes(id.len(), 8) + bytes::le_bytes(who.len(), 8) + id + who
        + payload
}

fn has_zero(b: &[u8]) -> (r: bool)
    ensures
        r == b@.contains(0u8),
{
    let mut i: usize = 0;
    while i < b.len()
        invariant
            i <= b@.len(),
            forall|j: int| 0 <= j < i ==> b@[j] != 0u8,
        decreases b.len() - i,
    {
        if b[i] == 0 {
            return true;
        }
        i += 1;
    }
    false
}

/// The digest of a fact's signable bytes; both sides derive it to sign and
/// to verify.
pub fn canonical_digest(fact_id: &str, owner: &str, payload: &[u8]) -> (d: [u8; 32])
    ensures
        d == digest::sha256(signable(fact_id@, owner@, payload@)),
{
    let (id, who) = (fact_id.as_bytes(), owner.as_bytes());
    let mut buf: Vec<u8> = Vec::new();
    if has_zero(id) || has_zero(who) {
        buf.push(MEASURED);
        push_le(&mut buf, id.len() as u64, 8);
        push_le(&mut buf, who.len() as u64, 8);
        push_all(&mut buf, id);
        push_all(&mut buf, who);
    } else {
        push_all(&mut buf, id);
        buf.push(0);
        push_all(&mut buf, who);
        buf.push(0);
    }
    push_all(&mut buf, payload);
    assert(buf@ =~= signable(fact_id@, owner@, payload@));
    sha256_of(buf.as_slice())
}

/// A signing identity: an Ed25519 keypair, by its secret.
pub struct Identity {
    secret: [u8; 32],
}

impl View for Identity {
    type V = Seq<u8>;

    closed spec fn view(&self) -> Seq<u8> {
        self.secret@
    }
}

impl Identity {
    /// Generate a fresh identity (CSPRNG). Which secret it gets is left to
    /// chance; any 32 bytes are a secret, as in [`Identity::from_secret`].
    pub fn generate() -> (r: Self)
        ensures
            r@.len() == 32,
    {
        Identity::from_secret(fresh_secret())
    }

    /// Reconstruct from a 32-byte secret (e.g. read from disk).
    pub fn from_secret(secret: [u8; 32]) -> (r: Self)
        ensures
            r@ == secret@,
    {
        Identity { secret }
    }

    /// Export the secret bytes (handle with care).
    pub fn secret_bytes(&self) -> (r: [u8; 32])
        ensures
            r@ == self@,
    {
        self.secret
    }

    /// Public verifying key (safe to share).
    pub fn public_key(&self) -> (r: [u8; 32])
        ensures
            r == ed25519_public(self@),
            ed25519_key_error(r@) is None,
    {
        public_of(&self.secret)
    }

    /// Sign a fact. The signed fact verifies.
    pub fn sign_fact(&self, fact_id: &str, owner: &str, payload: &[u8]) -> (r: SignedFact)
        ensures
            r@ == (FactView {
                fact_id: fact_id@,
                owner: owner@,
                payload: payload@,
                signature: ed25519_signature(
                    self@,
                    digest::sha256(signable(fact_id@, owner@, payload@))@,
                )@,
                public_key: ed25519_public(self@)@,
            }),
            verify_spec(r@) is None,
    {
        let digest = canonical_digest(fact_id, owner, payload);
        let signature = sign(&self.secret, &digest);
        let mut copy: Vec<u8> = Vec::new();
        push_all(&mut copy, payload);
        assert(copy@ =~= payload@);
        SignedFact {
            fact_id: owned(fact_id),
            owner: owned(owner),
            payload: copy,
            signature,
            public_key: self.public_key(),
        }
    }
}

/// A fact + its Ed25519 signature + the public key needed to verify it.
#[derive(Debug, Clone)]
pub struct SignedFact {
    /// Identifier of the fact.
    pub fact_id: String,
    /// Owner name (used in the canonical-digest construction).
    pub owner: String,
    /// Opaque payload bytes (e.g. serialised key/value).
    pub payload: Vec<u8>,
    /// 64-byte Ed25519 signature over `canonical_digest`.
    pub signature: [u8; 64],
    /// 32-byte Ed25519 public key of the signer.
    pub public_key: [u8; 32],
}

/// A signed fact as a mathematical value.
pub struct FactView {
    pub fact_id: Seq<char>,
    pub owner: Seq<char>,
    pub payload: Seq<u8>,
    pub signature: Seq<u8>,
    pub public_key: Seq<u8>,
}

impl View for SignedFact {
    type V = FactView;

    open spec fn view(&self) -> FactView {
        FactView {
            fact_id: self.fact_id@,
            owner: self.owner@,
            payload: self.payload@,
            signature: self.signature@,
            public_key: self.public_key@,
        }
    }
}

/// Hex-string wire format for serialisation to JSON, files, etc.
#[derive(Debug, Clone)]
pub struct SignedFactWire {
    /// fact id
    pub fact_id: String,
    /// owner
    pub owner: String,
    /// hex-encoded payload bytes
    pub payload_hex: String,
    /// hex-encoded 64-byte signature (128 hex chars)
    pub signature_hex: String,
    /// hex-encoded 32-byte public key (64 hex chars)
    pub public_key_hex: String,
}

/// The wire format as a mathematical value.
pub struct WireView {
    pub fact_id: Seq<char>,
    pub owner: Seq<char>,
    pub payload_hex: Seq<char>,
    pub signature_hex: Seq<char>,
    pub public_key_hex: Seq<char>,
}

impl View for SignedFactWire {
    type V = WireView;

    open spec fn view(&self) -> WireView {
        WireView {
            fact_id: self.fact_id@,
            owner: self.owner@,
            payload_hex: self.payload_hex@,
            signature_hex: self.signature_hex@,
            public_key_hex: self.public_key_hex@,
        }
    }
}

/// Why a signed fact does not verify; nothing for one that does.
pub open spec fn verify_spec(f: FactView) -> Option<Seq<char>> {
    match ed25519_key_error(f.public_key) {
        Some(t) => Some("bad public key: "@ + t),
        None => match ed25519_error(
            f.public_key,
            digest::sha256(signable(f.fact_id, f.owner, f.payload))@,
            f.signature,
        ) {
            Some(t) => Some("verify failed: "@ + t),
            None => None,
        },
    }
}

/// A fact in wire format: all bytes in hexadecimal.
pub open spec fn wire_spec(f: FactView) -> WireView {
    WireView {
        fact_id: f.fact_id,
        owner: f.owner,
        payload_hex: hex_text(f.payload),
        signature_hex: hex_text(f.signature),
        public_key_hex: hex_text(f.public_key),
    }
}

/// The fact that a wire format describes, or the complaint about it.
pub open spec fn unwire_spec(w: WireView) -> Result<FactView, Seq<char>> {
    match unhex(encode_utf8(w.payload_hex)) {
        Err(t) => Err("bad payload hex: "@ + t),
        Ok(payload) => match unhex(encode_utf8(w.signature_hex)) {
            Err(t) => Err("bad signature hex: "@ + t),
            Ok(signature) => match unhex(encode_utf8(w.public_key_hex)) {
                Err(t) => Err("bad public key hex: "@ + t),
                Ok(public_key) => if signature.len() != 64 {
                    Err("signature must be 64 bytes"@)
                } else if public_key.len() != 32 {
                    Err("public key must be 32 bytes"@)
                } else {
                    Ok(
                        FactView {
                            fact_id: w.fact_id,
                            owner: w.owner,
                            payload,
                            signature,
                            public_key,
                        },
                    )
                },
            },
        },
    }
}

/// The error with a cause behind its text.
fn because(what: &str, why: &str) -> (e: BruceError)
    ensures
        e@ == BruceErrorView::Other(what@ + why@),
{
    let mut s = owned(what);
    s.append(why);
    BruceError::Other(s)
}

impl SignedFact {
    /// Verify the signature is valid for this fact's canonical digest.
    pub fn verify(&self) -> (r: Result<(), BruceError>)
        ensures
            match verify_spec(self@) {
                None => r is Ok,
                Some(t) => error::fails(r, BruceErrorView::Other(t)),
            },
    {
        if let Err(why) = check_key(&self.public_key) {
            return Err(because("bad public key: ", why.as_str()));
        }
        let digest = canonical_digest(
            self.fact_id.as_str(),
            self.owner.as_str(),
            self.payload.as_slice(),
        );
        match check_signature(&self.public_key, &digest, &self.signature) {
            Ok(()) => Ok(()),
            Err(why) => Err(because("verify failed: ", why.as_str())),
        }
    }

    /// Hex-encoded short fingerprint of the public key (8 hex chars).
    pub fn key_fingerprint(&self) -> (s: String)
        ensures
            s@ == hex_text(self.public_key@.take(4)),
    {
        let mut head: Vec<u8> = Vec::new();
        head.push(self.public_key[0]);
        head.push(self.public_key[1]);
        head.push(self.public_key[2]);
        head.push(self.public_key[3]);
        assert(head@ =~= self.public_key@.take(4));
        hex_encode(head.as_slice())
    }

    /// Convert to a serialisable wire format (all bytes → hex).
    pub fn to_wire(&self) -> (w: SignedFactWire)
        ensures
            w@ == wire_spec(self@),
    {
        SignedFactWire {
            fact_id: self.fact_id.clone(),
            owner: self.owner.clone(),
            payload_hex: hex_encode(self.payload.as_slice()),
            signature_hex: hex_encode(&self.signature),
            public_key_hex: hex_encode(&self.public_key),
        }
    }

    /// Parse from wire format.
    pub fn from_wire(w: &SignedFactWire) -> (r: Result<Self, BruceError>)
        ensures
            match unwire_spec(w@) {
                Ok(f) => r matches Ok(x) && x@ == f,
                Err(t) => error::fails(r, BruceErrorView::Other(t)),
            },
    {
        let payload = match hex_decode(w.payload_hex.as_str()) {
            Ok(v) => v,
            Err(why) => return Err(because("bad payload hex: ", why.as_str())),
        };
        let sig = match hex_decode(w.signature_hex.as_str()) {
            Ok(v) => v,
            Err(why) => return Err(because("bad signature hex: ", why.as_str())),
        };
        let key = match hex_decode(w.public_key_hex.as_str()) {
            Ok(v) => v,
            Err(why) => return Err(because("bad public key hex: ", why.as_str())),
        };
        if sig.len() != 64 {
            return Err(BruceError::Other(owned("signature must be 64 bytes")));
        }
        if key.len() != 32 {
            return Err(BruceError::Other(owned("public key must be 32 bytes")));
        }
        let mut signature: [u8; 64] = [0; 64];
        let mut i: usize = 0;
        while i < 64
            invariant
                i <= 64,
                sig@.len() == 64,
                forall|j: int| 0 <= j < i ==> signature@[j] == sig@[j],
            decreases 64 - i,
        {
            signature[i] = sig[i];
            i += 1;
        }
        assert(signature@ =~= sig@);
        let mut public_key: [u8; 32] = [0; 32];
        let mut i: usize = 0;
        while i < 32
            invariant
                i <= 32,
                key@.len() == 32,
                forall|j: int| 0 <= j < i ==> public_key@[j] == key@[j],
            decreases 32 - i,
        {
            public_key[i] = key[i];
            i += 1;
        }
        assert(public_key@ =~= key@);
        Ok(
            SignedFact {
                fact_id: w.fact_id.clone(),
                owner: w.owner.clone(),
                payload,
                signature,
                public_key,
            },
        )
    }
}

// --------------------------------------------------------------------- laws

proof fn lemma_no_bad_digit(b: Seq<u8>, i: int)
    requires
        0 <= i,
        forall|j: int| 0 <= j < b.len() ==> nibble(#[trigger] b[j]) is Some,
    ensures
        bad_digit(b, i) is None,
    decreases b.len() - i,
{
    if i < b.len() {
        lemma_no_bad_digit(b, i + 1);
    }
}

/// Hexadecimal text reads back as the bytes it was made of.
pub proof fn hex_round_trip(b: Seq<u8>)
    ensures
        unhex(encode_utf8(hex_text(b))) == Ok::<Seq<u8>, Seq<char>>(b),
{
    let t = hex_text(b);
    assert(is_ascii_chars(t)) by {
        assert forall|i: int| 0 <= i < t.len() implies '\0' <= #[trigger] t[i] <= '\u{7f}' by {
            assert(0 <= b[i / 2] as int / 16 < 16);
        }
    }
    is_ascii_chars_encode_utf8(t);
    let e = encode_utf8(t);
    assert(e.len() == t.len());
    assert forall|j: int| 0 <= j < e.len() implies nibble(#[trigger] e[j]) == Some(
        if j % 2 == 0 {
            b[j / 2] as int / 16
        } else {
            b[j / 2] as int % 16
        },
    ) by {
        assert(e[j] == t[j] as u8);
        assert(0 <= b[j / 2] as int / 16 < 16);
    }
    lemma_no_bad_digit(e, 0);
    let d = unhex(e)->Ok_0;
    assert(d.len() == b.len());
    assert forall|i: int| 0 <= i < d.len() implies d[i] == b[i] by {
        assert((2 * i) / 2 == i && (2 * i + 1) / 2 == i);
        assert(nibble(e[2 * i]) == Some(b[i] as int / 16));
        assert(nibble(e[2 * i + 1]) == Some(b[i] as int % 16));
    }
    assert(d =~= b);
}

/// The wire format loses nothing: reading back what was written gives the
/// fact.
pub proof fn wire_round_trip(f: FactView)
    requires
        f.signature.len() == 64,
        f.public_key.len() == 32,
    ensures
        unwire_spec(wire_spec(f)) == Ok::<FactView, Seq<char>>(f),
{
    hex_round_trip(f.payload);
    hex_round_trip(f.signature);
    hex_round_trip(f.public_key);
}

/// The text fits in memory: its length can be written down.
pub open spec fn measurable(t: Seq<char>) -> bool {
    encode_utf8(t).len() <= u64::MAX
}

/// The signable bytes tell facts apart: where they are the same, so are id,
/// owner and payload.
pub proof fn signable_is_injective(
    id: Seq<char>,
    owner: Seq<char>,
    payload: Seq<u8>,
    id2: Seq<char>,
    owner2: Seq<char>,
    payload2: Seq<u8>,
)
    requires
        measurable(id),
        measurable(owner),
        measurable(id2),
        measurable(owner2),
        signable(id, owner, payload) == signable(id2, owner2, payload2),
    ensures
        id == id2,
        owner == owner2,
        payload == payload2,
{
    let (x, y) = (encode_utf8(id), encode_utf8(owner));
    let (x2, y2) = (encode_utf8(id2), encode_utf8(owner2));
    lemma_no_mark(id, owner, payload);
    lemma_no_mark(id2, owner2, payload2);
    assert(measured(x, y, payload)[0] == MEASURED);
    assert(measured(x2, y2, payload2)[0] == MEASURED);
    if x.contains(0u8) || y.contains(0u8) {
        lemma_measured(x, y, payload, x2, y2, payload2);
    } else {
        lemma_separated(x, y, payload, x2, y2, payload2);
    }
    encode_utf8_decode_utf8(id);
    encode_utf8_decode_utf8(id2);
    encode_utf8_decode_utf8(owner);
    encode_utf8_decode_utf8(owner2);
}

/// Separated parts do not start with the mark.
proof fn lemma_no_mark(id: Seq<char>, owner: Seq<char>, payload: Seq<u8>)
    ensures
        separated(encode_utf8(id), encode_utf8(owner), payload)[0] != MEASURED,
{
    let b = encode_utf8(id);
    if b.len() > 0 {
        encode_utf8_valid_utf8(id);
        assert(valid_first_scalar(b));
        assert(separated(b, encode_utf8(owner), payload)[0] == b[0]);
    }
}

/// Where nothing before the zero bytes holds one, they tell the parts apart.
proof fn lemma_separated(
    x: Seq<u8>,
    y: Seq<u8>,
    payload: Seq<u8>,
    x2: Seq<u8>,
    y2: Seq<u8>,
    payload2: Seq<u8>,
)
    requires
        !x.contains(0u8) && !y.contains(0u8) && !x2.contains(0u8) && !y2.contains(0u8),
        separated(x, y, payload) == separated(x2, y2, payload2),
    ensures
        x == x2 && y == y2 && payload == payload2,
{
    let (a, b) = (separated(x, y, payload), separated(x2, y2, payload2));
    let (n, n2) = (x.len() as int, x2.len() as int);
    assert(a[n] == 0 && b[n2] == 0);
    if n < n2 {
        assert(b[n] == x2[n]);
    } else if n2 < n {
        assert(a[n2] == x[n2]);
    }
    let (m, m2) = (n + 1 + y.len(), n + 1 + y2.len());
    assert(a[m] == 0 && b[m2] == 0);
    if m < m2 {
        assert(b[m] == y2[y.len() as int]);
    } else if m2 < m {
        assert(a[m2] == y[y2.len() as int]);
    }
    assert(x =~= a.take(n) && x2 =~= b.take(n));
    assert(y =~= a.subrange(n + 1, m) && y2 =~= b.subrange(n + 1, m));
    assert(payload =~= a.skip(m + 1) && payload2 =~= b.skip(m + 1));
}

/// The lengths tell the parts apart.
proof fn lemma_measured(
    id: Seq<u8>,
    who: Seq<u8>,
    payload: Seq<u8>,
    id2: Seq<u8>,
    who2: Seq<u8>,
    payload2: Seq<u8>,
)
    requires
        id.len() <= u64::MAX && who.len() <= u64::MAX,
        id2.len() <= u64::MAX && who2.len() <= u64::MAX,
        measured(id, who, payload) == measured(id2, who2, payload2),
    ensures
        id == id2 && who == who2 && payload == payload2,
{
    let (a, b) = (measured(id, who, payload), measured(id2, who2, payload2));
    let (n, m) = (id.len(), who.len());
    let (n2, m2) = (id2.len(), who2.len());
    bytes::lemma_pow256();
    bytes::le_round_trip(n, 8);
    bytes::le_round_trip(m, 8);
    bytes::le_round_trip(n2, 8);
    bytes::le_round_trip(m2, 8);
    assert(a.subrange(1, 9) =~= bytes::le_bytes(n, 8));
    assert(b.subrange(1, 9) =~= bytes::le_bytes(n2, 8));
    assert(a.subrange(9, 17) =~= bytes::le_bytes(m, 8));
    assert(b.subrange(9, 17) =~= bytes::le_bytes(m2, 8));
    assert(n == n2 && m == m2);
    let (x, y) = (17 + n as int, 17 + n as int + m as int);
    assert(a.subrange(17, x) =~= id);
    assert(b.subrange(17, x) =~= id2);
    assert(a.subrange(x, y) =~= who);
    assert(b.subrange(x, y) =~= who2);
    assert(a.skip(y) =~= payload);
    assert(b.skip(y) =~= payload2);
}

/// A fact that was changed after signing is verified against another digest,
/// where the two facts' signable bytes do not collide.
pub proof fn changed_fact_has_another_digest(a: FactView, b: FactView)
    requires
        measurable(a.fact_id),
        measurable(a.owner),
        measurable(b.fact_id),
        measurable(b.owner),
        a.fact_id != b.fact_id || a.owner != b.owner || a.payload != b.payload,
        ({
            let (x, y) = (
                signable(a.fact_id, a.owner, a.payload),
                signable(b.fact_id, b.owner, b.payload),
            );
            digest::sha256(x) == digest::sha256(y) ==> x == y
        }),
    ensures
        digest::sha256(signable(a.fact_id, a.owner, a.payload)) != digest::sha256(
            signable(b.fact_id, b.owner, b.payload),
        ),
{
    if signable(a.fact_id, a.owner, a.payload) == signable(b.fact_id, b.owner, b.payload) {
        signable_is_injective(a.fact_id, a.owner, a.payload, b.fact_id, b.owner, b.payload);
    }
}

/// A fact verifies exactly where its key is one and its signature is the
/// key's over the digest of the fact's own bytes.
pub proof fn fact_verifies_under_its_own_key(f: FactView)
    ensures
        verify_spec(f) is None <==> ed25519_key_error(f.public_key) is None && ed25519_error(
            f.public_key,
            digest::sha256(signable(f.fact_id, f.owner, f.payload))@,
            f.signature,
        ) is None,
{
}

/// The verdict on a fact that came over the wire is the verdict on the fact
/// that was sent.
pub proof fn wire_keeps_the_verdict(f: FactView)
    requires
        f.signature.len() == 64,
        f.public_key.len() == 32,
    ensures
        unwire_spec(wire_spec(f)) matches Ok(g) && verify_spec(g) == verify_spec(f),
{
    wire_round_trip(f);
}

} // verus!
