//! Ed25519 identities: requests travel in signed envelopes. The signature
//! covers SHA-256(timestamp (8 bytes, little-endian) || nonce || payload), and
//! a server accepts an envelope only with a valid signature and a timestamp
//! close to its own clock, which stops replays.

use vstd::prelude::*;
use vstd::utf8::encode_utf8;
use crate::hashing::{
    hex_decodable, hex_decode, hex_encode, lemma_hex_digit_roundtrip, lemma_hex_encode_decode, sha256, spec_hex_decode,
    spec_hex_encode, spec_sha256,
};
use crate::ignore::{trim_end_ws, trim_start_ws, is_white_space};
use crate::refs::chars_of;

verus! {

/// The public key of an Ed25519 secret key.
pub uninterp spec fn spec_ed25519_public(secret: Seq<u8>) -> Seq<u8>;

/// The Ed25519 signature of a message under a secret key.
pub uninterp spec fn spec_ed25519_sign(secret: Seq<u8>, msg: Seq<u8>) -> Seq<u8>;

/// Whether 32 bytes are the encoding of an Ed25519 public key (a curve point).
pub uninterp spec fn spec_ed25519_key_valid(public: Seq<u8>) -> bool;

/// Whether a signature of a message is valid under a public key.
pub uninterp spec fn spec_ed25519_verifies(public: Seq<u8>, msg: Seq<u8>, sig: Seq<u8>) -> bool;

/// The public key of a secret key, with `SigningKey::from_bytes`,
/// `SigningKey::verifying_key` and `VerifyingKey::to_bytes` of
/// `ed25519-dalek`. Trusted: the result is determined by the secret key, is
/// 32 bytes long, and decodes as a public key (it is the compression of a
/// curve point).
#[verifier::external_body]
fn ed25519_public_key(secret: &[u8]) -> (r: Vec<u8>)
    requires
        secret@.len() == 32,
    ensures
        r@ == spec_ed25519_public(secret@),
        r@.len() == 32,
        spec_ed25519_key_valid(r@),
{
    let key: [u8; 32] = secret.try_into().unwrap();
    ed25519_dalek::SigningKey::from_bytes(&key).verifying_key().to_bytes().to_vec()
}

/// Signs a message with `Signer::sign` of `ed25519-dalek`. Trusted: Ed25519
/// signing is deterministic, the signature is 64 bytes, and it verifies
/// under the public key of the same secret key.
#[verifier::external_body]
fn ed25519_sign(secret: &[u8], msg: &[u8]) -> (r: Vec<u8>)
    requires
        secret@.len() == 32,
    ensures
        r@ == spec_ed25519_sign(secret@, msg@),
        r@.len() == 64,
        spec_ed25519_verifies(spec_ed25519_public(secret@), msg@, r@),
{
    let key: [u8; 32] = secret.try_into().unwrap();
    ed25519_dalek::Signer::sign(&ed25519_dalek::SigningKey::from_bytes(&key), msg).to_bytes().to_vec()
}

/// Whether 32 bytes decode as a public key, with `VerifyingKey::from_bytes`.
/// Trusted: the answer depends on the bytes alone.
#[verifier::external_body]
fn ed25519_key_valid(public: &[u8]) -> (r: bool)
    requires
        public@.len() == 32,
    ensures
        r == spec_ed25519_key_valid(public@),
{
    let key: [u8; 32] = public.try_into().unwrap();
    ed25519_dalek::VerifyingKey::from_bytes(&key).is_ok()
}

/// Checks a signature with `Verifier::verify` of `ed25519-dalek`, after
/// decoding the public key and the signature bytes. Trusted: the answer
/// depends on the key, message and signature alone (an undecodable key
/// gives false).
#[verifier::external_body]
fn ed25519_verify(public: &[u8], msg: &[u8], sig: &[u8]) -> (r: bool)
    requires
        public@.len() == 32,
        sig@.len() == 64,
    ensures
        r == spec_ed25519_verifies(public@, msg@, sig@),
{
    let key: [u8; 32] = public.try_into().unwrap();
    let sig: [u8; 64] = sig.try_into().unwrap();
    match ed25519_dalek::VerifyingKey::from_bytes(&key) {
        Ok(k) => ed25519_dalek::Verifier::verify(&k, msg, &ed25519_dalek::Signature::from_bytes(&sig)).is_ok(),
        Err(_) => false,
    }
}

/// A fresh secret key from the operating system's generator, with
/// `SigningKey::generate`. Nothing is stated of its value.
#[verifier::external_body]
fn random_secret_key() -> (r: Vec<u8>)
    ensures
        r@.len() == 32,
{
    ed25519_dalek::SigningKey::generate(&mut rand::rngs::OsRng).to_bytes().to_vec()
}

/// 16 random bytes from the operating system's generator, with
/// `RngCore::fill_bytes` of `rand`. Nothing is stated of their value.
#[verifier::external_body]
fn random_nonce() -> (r: Vec<u8>)
    ensures
        r@.len() == 16,
{
    let mut n = [0u8; 16];
    rand::RngCore::fill_bytes(&mut rand::rngs::OsRng, &mut n);
    n.to_vec()
}

/// Seconds since the Unix epoch by the system clock, with
/// `SystemTime::now` (0 if the clock is before the epoch). Nothing is stated
/// of its value.
#[verifier::external_body]
fn unix_now() -> (r: u64) {
    std::time::SystemTime::now().duration_since(std::time::UNIX_EPOCH).map(|d| d.as_secs()).unwrap_or(0)
}

/// A signed request: the payload, the signer's public key (hex), the
/// signature (hex), the time of signing and a random nonce (hex).
#[derive(Debug)]
pub struct SignedEnvelope {
    pub payload: Vec<u8>,
    pub public_key: String,
    pub signature: String,
    pub timestamp: u64,
    pub nonce: String,
}

/// The `n` low bytes of `v`, least significant first.
pub open spec fn le_bytes(v: nat, n: nat) -> Seq<u8>
    decreases n,
{
    if n == 0 {
        Seq::empty()
    } else {
        seq![(v % 256) as u8] + le_bytes(v / 256, (n - 1) as nat)
    }
}

/// What is signed: the timestamp in 8 little-endian bytes, the nonce, the
/// payload.
pub open spec fn digest_message(timestamp: u64, nonce: Seq<u8>, payload: Seq<u8>) -> Seq<u8> {
    le_bytes(timestamp as nat, 8) + nonce + payload
}

/// The signing digest.
pub open spec fn spec_digest(timestamp: u64, nonce: Seq<u8>, payload: Seq<u8>) -> Seq<u8> {
    spec_sha256(digest_message(timestamp, nonce, payload))
}

/// The signing digest: SHA-256(timestamp || nonce || payload).
pub fn compute_digest(timestamp: u64, nonce: &[u8], payload: &[u8]) -> (d: Vec<u8>)
    ensures
        d@ == spec_digest(timestamp, nonce@, payload@),
        d@.len() == 32,
{
    let mut msg: Vec<u8> = Vec::new();
    let mut v: u64 = timestamp;
    let mut k: usize = 0;
    while k < 8
        invariant
            k <= 8,
            msg@ + le_bytes(v as nat, (8 - k) as nat) == le_bytes(timestamp as nat, 8),
        decreases 8 - k,
    {
        let ghost before = msg@;
        assert(le_bytes(v as nat, (8 - k) as nat) == seq![(v % 256) as u8] + le_bytes(
            (v / 256) as nat,
            (8 - k - 1) as nat,
        ));
        msg.push((v % 256) as u8);
        assert(msg@ + le_bytes((v / 256) as nat, (8 - k - 1) as nat) =~= before + le_bytes(v as nat, (8 - k) as nat));
        v = v / 256;
        k = k + 1;
    }
    assert(le_bytes(v as nat, 0) =~= Seq::<u8>::empty());
    assert(msg@ =~= le_bytes(timestamp as nat, 8));
    msg.extend_from_slice(nonce);
    msg.extend_from_slice(payload);
    assert(msg@ =~= digest_message(timestamp, nonce@, payload@));
    sha256(msg.as_slice())
}

/// The envelope that signing gives, as (payload, public key, signature,
/// timestamp, nonce).
pub open spec fn spec_signed_envelope(secret: Seq<u8>, payload: Seq<u8>, timestamp: u64, nonce: Seq<u8>) -> (
    Seq<u8>,
    Seq<char>,
    Seq<char>,
    u64,
    Seq<char>,
) {
    (
        payload,
        spec_hex_encode(spec_ed25519_public(secret)),
        spec_hex_encode(spec_ed25519_sign(secret, spec_digest(timestamp, nonce, payload))),
        timestamp,
        spec_hex_encode(nonce),
    )
}

/// The fields of an envelope, as a tuple.
pub open spec fn envelope_fields(e: SignedEnvelope) -> (Seq<u8>, Seq<char>, Seq<char>, u64, Seq<char>) {
    (e.payload@, e.public_key@, e.signature@, e.timestamp, e.nonce@)
}

/// Hex spellings have no surrounding white space.
proof fn lemma_trim_hex(b: Seq<u8>)
    ensures
        trim_ws(spec_hex_encode(b)) == spec_hex_encode(b),
{
    let h = spec_hex_encode(b);
    if h.len() > 0 {
        lemma_hex_digit_roundtrip((b[0] / 16) as int);
        let l = b.len() - 1;
        lemma_hex_digit_roundtrip((b[l] % 16) as int);
        assert(h[0] == (crate::hashing::lower_hex_digit((b[0] / 16) as int)) as char);
        assert(!is_white_space(h[0]));
        assert(h.last() == h[2 * l + 1]);
        assert((2 * l + 1) / 2 == l && (2 * l + 1) % 2 == 1);
        assert(h[2 * l + 1] == (crate::hashing::lower_hex_digit((b[l] % 16) as int)) as char);
        assert(!is_white_space(h.last()));
    }
    assert(trim_start_ws(h) == h);
    assert(trim_end_ws(h) == h);
}

/// Signs a payload at a given time with a given nonce. The envelope is
/// accepted by `verify_envelope_at` at any time no further than the allowed
/// age from its timestamp, and names the signer's public key.
pub fn sign_payload_at(secret: &[u8], payload: &[u8], timestamp: u64, nonce: &[u8]) -> (e: SignedEnvelope)
    requires
        secret@.len() == 32,
    ensures
        envelope_fields(e) == spec_signed_envelope(secret@, payload@, timestamp, nonce@),
        forall|max_age: u64, now: u64|
            time_distance(now, timestamp) <= max_age ==> #[trigger] spec_verify_envelope(
                envelope_fields(e),
                max_age,
                now,
            ) == Ok::<Seq<u8>, IdentityError>(spec_ed25519_public(secret@)),
{
    let digest = compute_digest(timestamp, nonce, payload);
    let signature = ed25519_sign(secret, digest.as_slice());
    let public = ed25519_public_key(secret);
    let mut p: Vec<u8> = Vec::new();
    p.extend_from_slice(payload);
    let e = SignedEnvelope {
        payload: p,
        public_key: hex_encode(public.as_slice()),
        signature: hex_encode(signature.as_slice()),
        timestamp,
        nonce: hex_encode(nonce),
    };
    proof {
        lemma_hex_encode_decode(public@);
        lemma_hex_encode_decode(signature@);
        lemma_hex_encode_decode(nonce@);
        lemma_trim_hex(public@);
        assert(spec_public_key_from_hex(e.public_key@) == Ok::<Seq<u8>, IdentityError>(public@));
    }
    e
}

/// Signs a payload now, with a fresh random 16-byte nonce.
pub fn sign_payload(secret: &[u8], payload: &[u8]) -> (e: SignedEnvelope)
    requires
        secret@.len() == 32,
    ensures
        exists|nonce: Seq<u8>|
            nonce.len() == 16 && envelope_fields(e) == spec_signed_envelope(secret@, payload@, e.timestamp, nonce),
{
    let timestamp = unix_now();
    let nonce = random_nonce();
    sign_payload_at(secret, payload, timestamp, nonce.as_slice())
}

/// A new key pair: (secret key, public key), 32 bytes each.
pub fn generate_keypair() -> (r: (Vec<u8>, Vec<u8>))
    ensures
        r.0@.len() == 32,
        r.1@ == spec_ed25519_public(r.0@),
{
    let secret = random_secret_key();
    let public = ed25519_public_key(secret.as_slice());
    (secret, public)
}

/// The public key of a secret key, in hex.
pub fn public_key_hex(secret: &[u8]) -> (h: String)
    requires
        secret@.len() == 32,
    ensures
        h@ == spec_hex_encode(spec_ed25519_public(secret@)),
{
    let public = ed25519_public_key(secret);
    hex_encode(public.as_slice())
}

/// Why an envelope or a key is refused.
#[derive(Debug, Clone, Copy, PartialEq, Eq, Structural)]
pub enum IdentityError {
    InvalidPublicKeyHex,
    InvalidPublicKeyLength,
    InvalidPublicKey,
    InvalidSecretKeyHex,
    InvalidSecretKeyLength,
    InvalidSignatureHex,
    InvalidSignatureLength,
    InvalidNonceHex,
    SignatureMismatch,
    Expired { age: u64, max_age: u64 },
}

/// `s` without surrounding white space, as `str::trim` gives it.
pub open spec fn trim_ws(s: Seq<char>) -> Seq<char> {
    trim_end_ws(trim_start_ws(s))
}

/// Removes surrounding white space.
pub fn trim(s: &str) -> (r: Vec<char>)
    ensures
        r@ == trim_ws(s@),
{
    let cs = chars_of(s);
    let n = cs.len();
    let mut b: usize = 0;
    assert(cs@.skip(0) =~= cs@);
    while b < n && crate::ignore::white_space(cs[b])
        invariant
            n == cs@.len(),
            cs@ == s@,
            b <= n,
            trim_start_ws(cs@.skip(b as int)) == trim_start_ws(s@),
        decreases n - b,
    {
        assert(cs@.skip(b as int).drop_first() =~= cs@.skip(b + 1));
        b = b + 1;
    }
    assert(trim_start_ws(cs@.skip(b as int)) == cs@.skip(b as int));
    let mut e: usize = n;
    assert(cs@.subrange(b as int, n as int) =~= cs@.skip(b as int));
    while e > b && crate::ignore::white_space(cs[e - 1])
        invariant
            n == cs@.len(),
            b <= e <= n,
            trim_end_ws(cs@.subrange(b as int, e as int)) == trim_end_ws(cs@.skip(b as int)),
        decreases e,
    {
        assert(cs@.subrange(b as int, e as int).drop_last() =~= cs@.subrange(b as int, e - 1));
        e = e - 1;
    }
    assert(trim_end_ws(cs@.subrange(b as int, e as int)) == cs@.subrange(b as int, e as int));
    let mut out: Vec<char> = Vec::new();
    let mut k: usize = b;
    while k < e
        invariant
            n == cs@.len(),
            b <= k <= e <= n,
            out@ == cs@.subrange(b as int, k as int),
        decreases e - k,
    {
        out.push(cs[k]);
        assert(cs@.subrange(b as int, k + 1) =~= cs@.subrange(b as int, k as int).push(cs@[k as int]));
        k = k + 1;
    }
    out
}

/// Reading a public key from hex (surrounding white space ignored).
pub open spec fn spec_public_key_from_hex(text: Seq<char>) -> Result<Seq<u8>, IdentityError> {
    let t = encode_utf8(trim_ws(text));
    if !hex_decodable(t) {
        Err(IdentityError::InvalidPublicKeyHex)
    } else if spec_hex_decode(t).len() != 32 {
        Err(IdentityError::InvalidPublicKeyLength)
    } else if !spec_ed25519_key_valid(spec_hex_decode(t)) {
        Err(IdentityError::InvalidPublicKey)
    } else {
        Ok(spec_hex_decode(t))
    }
}

/// Reads a public key from hex: 32 bytes that decode as a curve point.
pub fn load_verifying_key_from_hex(hex_str: &str) -> (r: Result<Vec<u8>, IdentityError>)
    ensures
        match spec_public_key_from_hex(hex_str@) {
            Ok(k) => r matches Ok(v) && v@ == k,
            Err(e) => r == Err::<Vec<u8>, IdentityError>(e),
        },
{
    let t = trim(hex_str);
    let text = crate::ignore::string_of_chars(&t);
    let bytes = match hex_decode(text.as_str()) {
        Ok(b) => b,
        Err(_) => {
            return Err(IdentityError::InvalidPublicKeyHex);
        },
    };
    if bytes.len() != 32 {
        return Err(IdentityError::InvalidPublicKeyLength);
    }
    if !ed25519_key_valid(bytes.as_slice()) {
        return Err(IdentityError::InvalidPublicKey);
    }
    Ok(bytes)
}

/// Reading a secret key from hex (surrounding white space ignored).
pub open spec fn spec_secret_key_from_hex(text: Seq<char>) -> Result<Seq<u8>, IdentityError> {
    let t = encode_utf8(trim_ws(text));
    if !hex_decodable(t) {
        Err(IdentityError::InvalidSecretKeyHex)
    } else if spec_hex_decode(t).len() != 32 {
        Err(IdentityError::InvalidSecretKeyLength)
    } else {
        Ok(spec_hex_decode(t))
    }
}

/// Reads a secret key from the hex text of a key file: 32 bytes.
pub fn parse_signing_key(hex_str: &str) -> (r: Result<Vec<u8>, IdentityError>)
    ensures
        match spec_secret_key_from_hex(hex_str@) {
            Ok(k) => r matches Ok(v) && v@ == k,
            Err(e) => r == Err::<Vec<u8>, IdentityError>(e),
        },
{
    let t = trim(hex_str);
    let text = crate::ignore::string_of_chars(&t);
    let bytes = match hex_decode(text.as_str()) {
        Ok(b) => b,
        Err(_) => {
            return Err(IdentityError::InvalidSecretKeyHex);
        },
    };
    if bytes.len() != 32 {
        return Err(IdentityError::InvalidSecretKeyLength);
    }
    Ok(bytes)
}

/// How far apart two times are.
pub open spec fn time_distance(a: u64, b: u64) -> u64 {
    if a >= b {
        (a - b) as u64
    } else {
        (b - a) as u64
    }
}

/// The verdict on an envelope at time `now`: the public key, signature and
/// nonce must decode, the signature must hold over the digest, and the
/// timestamp must be at most `max_age_secs` away from `now`. Gives the
/// signer's public key.
pub open spec fn spec_verify_envelope(
    e: (Seq<u8>, Seq<char>, Seq<char>, u64, Seq<char>),
    max_age_secs: u64,
    now: u64,
) -> Result<Seq<u8>, IdentityError> {
    let (payload, public_key, signature, timestamp, nonce) = e;
    match spec_public_key_from_hex(public_key) {
        Err(err) => Err(err),
        Ok(pk) => {
            let st = encode_utf8(signature);
            let nt = encode_utf8(nonce);
            if !hex_decodable(st) {
                Err(IdentityError::InvalidSignatureHex)
            } else if spec_hex_decode(st).len() != 64 {
                Err(IdentityError::InvalidSignatureLength)
            } else if !hex_decodable(nt) {
                Err(IdentityError::InvalidNonceHex)
            } else if !spec_ed25519_verifies(
                pk,
                spec_digest(timestamp, spec_hex_decode(nt), payload),
                spec_hex_decode(st),
            ) {
                Err(IdentityError::SignatureMismatch)
            } else if time_distance(now, timestamp) > max_age_secs {
                Err(IdentityError::Expired { age: time_distance(now, timestamp), max_age: max_age_secs })
            } else {
                Ok(pk)
            }
        },
    }
}

/// Verifies an envelope at time `now` (Unix seconds); gives the signer's
/// public key.
pub fn verify_envelope_at(envelope: &SignedEnvelope, max_age_secs: u64, now: u64) -> (r: Result<Vec<u8>, IdentityError>)
    ensures
        match spec_verify_envelope(envelope_fields(*envelope), max_age_secs, now) {
            Ok(k) => r matches Ok(v) && v@ == k,
            Err(e) => r == Err::<Vec<u8>, IdentityError>(e),
        },
{
    let pk = match load_verifying_key_from_hex(envelope.public_key.as_str()) {
        Ok(k) => k,
        Err(e) => {
            return Err(e);
        },
    };
    let sig = match hex_decode(envelope.signature.as_str()) {
        Ok(s) => s,
        Err(_) => {
            return Err(IdentityError::InvalidSignatureHex);
        },
    };
    if sig.len() != 64 {
        return Err(IdentityError::InvalidSignatureLength);
    }
    let nonce = match hex_decode(envelope.nonce.as_str()) {
        Ok(n) => n,
        Err(_) => {
            return Err(IdentityError::InvalidNonceHex);
        },
    };
    let digest = compute_digest(envelope.timestamp, nonce.as_slice(), envelope.payload.as_slice());
    if !ed25519_verify(pk.as_slice(), digest.as_slice(), sig.as_slice()) {
        return Err(IdentityError::SignatureMismatch);
    }
    let age = if now >= envelope.timestamp {
        now - envelope.timestamp
    } else {
        envelope.timestamp - now
    };
    if age > max_age_secs {
        return Err(IdentityError::Expired { age, max_age: max_age_secs });
    }
    Ok(pk)
}

/// Verifies an envelope against the system clock.
pub fn verify_envelope(envelope: &SignedEnvelope, max_age_secs: u64) -> (r: Result<Vec<u8>, IdentityError>)
    ensures
        exists|now: u64|
            match #[trigger] spec_verify_envelope(envelope_fields(*envelope), max_age_secs, now) {
                Ok(k) => r matches Ok(v) && v@ == k,
                Err(e) => r == Err::<Vec<u8>, IdentityError>(e),
            },
{
    let now = unix_now();
    verify_envelope_at(envelope, max_age_secs, now)
}

} // verus!
