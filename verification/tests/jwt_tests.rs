//! Bearer-token verification, with tokens signed by the hmac crate itself.

use base64::Engine;
use hmac::{Hmac, KeyInit, Mac};
use openai_hub::jwt::verify_bearer;

fn sign(secret: &[u8], header: &str, claims: &str) -> String {
    let b64 = base64::engine::general_purpose::URL_SAFE_NO_PAD;
    let signing_input = format!("{}.{}", b64.encode(header), b64.encode(claims));
    let mut mac = <Hmac<sha2::Sha256> as KeyInit>::new_from_slice(secret).unwrap();
    mac.update(signing_input.as_bytes());
    let tag = mac.finalize().into_bytes();
    format!("{}.{}", signing_input, b64.encode(tag))
}

fn bearer(token: &str) -> String {
    format!("Bearer {}", token)
}

#[test]
fn accepts_a_valid_token_and_returns_the_subject() {
    let token = sign(b"s3cret", r#"{"alg":"HS256"}"#, r#"{"sub":"alice","exp":2000000000}"#);
    let got = verify_bearer(Some(bearer(&token).as_bytes()), b"s3cret", 1000);
    assert_eq!(got, Some(b"alice".to_vec()));
}

#[test]
fn anonymous_when_the_claims_name_no_subject() {
    let token = sign(b"s3cret", r#"{"alg":"HS256"}"#, r#"{"iat":5}"#);
    let got = verify_bearer(Some(bearer(&token).as_bytes()), b"s3cret", 1000);
    assert_eq!(got, Some(b"anonymous".to_vec()));
}

#[test]
fn rejects_a_tampered_signature() {
    let token = sign(b"s3cret", r#"{"alg":"HS256"}"#, r#"{"sub":"alice"}"#);
    let wrong_key = verify_bearer(Some(bearer(&token).as_bytes()), b"other", 1000);
    assert!(wrong_key.is_none());
    let mut tampered = token.clone();
    tampered.pop();
    tampered.push(if token.ends_with('A') { 'B' } else { 'A' });
    assert!(verify_bearer(Some(bearer(&tampered).as_bytes()), b"s3cret", 1000).is_none());
}

#[test]
fn rejects_outside_the_validity_window() {
    let token = sign(b"k", r#"{"alg":"HS256"}"#, r#"{"nbf":100,"exp":200}"#);
    let auth = bearer(&token);
    assert!(verify_bearer(Some(auth.as_bytes()), b"k", 50).is_none());
    assert!(verify_bearer(Some(auth.as_bytes()), b"k", 100).is_some());
    assert!(verify_bearer(Some(auth.as_bytes()), b"k", 200).is_some());
    assert!(verify_bearer(Some(auth.as_bytes()), b"k", 201).is_none());
}

#[test]
fn rejects_malformed_headers() {
    assert!(verify_bearer(None, b"k", 0).is_none());
    assert!(verify_bearer(Some(b"Basic abc"), b"k", 0).is_none());
    assert!(verify_bearer(Some(b"Bearer not-a-token"), b"k", 0).is_none());
    assert!(verify_bearer(Some(b"Bearer a.b"), b"k", 0).is_none());
    let wrong_alg = sign(b"k", r#"{"alg":"none"}"#, r#"{"sub":"x"}"#);
    assert!(verify_bearer(Some(bearer(&wrong_alg).as_bytes()), b"k", 0).is_none());
}
