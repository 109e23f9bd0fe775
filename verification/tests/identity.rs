use sdal::identity::{
    compute_digest, generate_keypair, load_verifying_key_from_hex, parse_signing_key, public_key_hex, sign_payload,
    sign_payload_at, verify_envelope, verify_envelope_at, IdentityError,
};

#[test]
fn test_sign_and_verify() {
    let (sk_bytes, _vk_bytes) = generate_keypair();

    let payload = b"test push request data";
    let envelope = sign_payload(&sk_bytes, payload);

    let result = verify_envelope(&envelope, 300);
    assert!(result.is_ok());
}

#[test]
fn test_tampered_payload_fails() {
    let (sk_bytes, _) = generate_keypair();

    let payload = b"original data";
    let mut envelope = sign_payload(&sk_bytes, payload);

    envelope.payload = b"tampered data".to_vec();

    let result = verify_envelope(&envelope, 300);
    assert!(result.is_err());
}

#[test]
fn test_expired_request_fails() {
    let (sk_bytes, _) = generate_keypair();

    let payload = b"data";
    let mut envelope = sign_payload(&sk_bytes, payload);

    envelope.timestamp = 1000;

    let result = verify_envelope(&envelope, 0);
    assert!(result.is_err());
}

fn fixed_secret() -> Vec<u8> {
    (0u8..32).collect()
}

#[test]
fn signed_envelope_fields() {
    let sk = fixed_secret();
    let nonce = [7u8; 16];
    let e = sign_payload_at(&sk, b"hello", 1_700_000_000, &nonce);
    assert_eq!(e.payload, b"hello");
    assert_eq!(e.timestamp, 1_700_000_000);
    assert_eq!(e.nonce, "07".repeat(16));
    assert_eq!(e.public_key, public_key_hex(&sk));
    assert_eq!(e.public_key.len(), 64);
    assert_eq!(e.signature.len(), 128);
    let again = sign_payload_at(&sk, b"hello", 1_700_000_000, &nonce);
    assert_eq!(e.signature, again.signature);
}

#[test]
fn verification_at_fixed_times() {
    let sk = fixed_secret();
    let e = sign_payload_at(&sk, b"p", 1000, &[1u8; 16]);
    let pk = verify_envelope_at(&e, 300, 1200).unwrap();
    assert_eq!(pk, load_verifying_key_from_hex(&public_key_hex(&sk)).unwrap());
    assert!(verify_envelope_at(&e, 300, 700).is_ok());
    assert_eq!(verify_envelope_at(&e, 300, 1301), Err(IdentityError::Expired { age: 301, max_age: 300 }));
    assert_eq!(verify_envelope_at(&e, 300, 699), Err(IdentityError::Expired { age: 301, max_age: 300 }));
}

#[test]
fn malformed_envelopes_are_refused() {
    let sk = fixed_secret();
    let good = sign_payload_at(&sk, b"p", 1000, &[1u8; 16]);
    let with = |f: &dyn Fn(&mut sdal::identity::SignedEnvelope)| {
        let mut e = sign_payload_at(&sk, b"p", 1000, &[1u8; 16]);
        f(&mut e);
        verify_envelope_at(&e, 300, 1000)
    };
    assert_eq!(with(&|e| e.public_key = "zz".to_string()), Err(IdentityError::InvalidPublicKeyHex));
    assert_eq!(with(&|e| e.public_key = "abcd".to_string()), Err(IdentityError::InvalidPublicKeyLength));
    assert_eq!(with(&|e| e.signature = "xyz".to_string()), Err(IdentityError::InvalidSignatureHex));
    assert_eq!(with(&|e| e.signature = "00".repeat(63)), Err(IdentityError::InvalidSignatureLength));
    assert_eq!(with(&|e| e.nonce = "q".to_string()), Err(IdentityError::InvalidNonceHex));
    assert_eq!(with(&|e| e.timestamp = 1001), Err(IdentityError::SignatureMismatch));
    let other = sign_payload_at(&[9u8; 32], b"p", 1000, &[1u8; 16]);
    assert_eq!(with(&|e| e.public_key = other.public_key.clone()), Err(IdentityError::SignatureMismatch));
    let padded = with(&|e| e.public_key = format!("  {}\n", good.public_key));
    assert!(padded.is_ok());
}

#[test]
fn invalid_curve_point_is_refused() {
    let mut found = false;
    for b in 0u8..=255 {
        let hex = format!("{:02x}", b).repeat(32);
        if load_verifying_key_from_hex(&hex) == Err(IdentityError::InvalidPublicKey) {
            found = true;
            break;
        }
    }
    assert!(found);
}

#[test]
fn key_text_parsing() {
    let sk = fixed_secret();
    let hex: String = sk.iter().map(|b| format!("{:02x}", b)).collect();
    assert_eq!(parse_signing_key(&format!("{}\n", hex)).unwrap(), sk);
    assert_eq!(parse_signing_key("nothex"), Err(IdentityError::InvalidSecretKeyHex));
    assert_eq!(parse_signing_key("abcd"), Err(IdentityError::InvalidSecretKeyLength));
}

#[test]
fn digest_covers_timestamp_nonce_and_payload() {
    let d = compute_digest(1, b"n", b"p");
    assert_eq!(d.len(), 32);
    let expected = sdal::hashing::sha256_hex(&[1, 0, 0, 0, 0, 0, 0, 0, b'n', b'p']);
    let got: String = d.iter().map(|b| format!("{:02x}", b)).collect();
    assert_eq!(got, expected);
}
