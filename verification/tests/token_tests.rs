use base64::Engine;
use slink::errors::StoreError;
use slink::token::derive_token;

#[test]
fn derive_is_deterministic() {
    let a = derive_token("0a1b2c", "bob", "s3cret", 7).unwrap();
    let b = derive_token("0a1b2c", "bob", "s3cret", 7).unwrap();
    assert_eq!(a, b);
}

#[test]
fn derive_depends_on_every_input() {
    let base = derive_token("0a1b2c", "bob", "s3cret", 7).unwrap();
    assert_ne!(base, derive_token("0a1b2d", "bob", "s3cret", 7).unwrap());
    assert_ne!(base, derive_token("0a1b2c", "carol", "s3cret", 7).unwrap());
    assert_ne!(base, derive_token("0a1b2c", "bob", "other", 7).unwrap());
    assert_ne!(base, derive_token("0a1b2c", "bob", "s3cret", 8).unwrap());
}

#[test]
fn token_length_follows_truncation() {
    // 7 bytes encode to 10 characters without padding.
    let t = derive_token("0a1b2c", "bob", "s3cret", 7).unwrap();
    assert_eq!(t.len(), 10);
    // 2 bytes -> 3 characters, 3 bytes -> 4, 32 bytes -> 43.
    assert_eq!(derive_token("x", "y", "z", 2).unwrap().len(), 3);
    assert_eq!(derive_token("x", "y", "z", 3).unwrap().len(), 4);
    assert_eq!(derive_token("x", "y", "z", 32).unwrap().len(), 43);
}

#[test]
fn token_is_url_safe() {
    let t = derive_token("0a1b2c-ffff", "recipient with spaces", "s3cret", 32).unwrap();
    assert!(t.chars().all(|c| c.is_ascii_alphanumeric() || c == '-' || c == '_'));
    assert!(!t.contains('='));
}

#[test]
fn token_is_keyed_not_plain_encoding() {
    // If the digest stage handed its message back unchanged, the token
    // would be the URL-safe encoding of the first bytes of
    // identifier + recipient. It must not be.
    let t = derive_token("0a1b2c", "bob", "s3cret", 7).unwrap();
    let plain = base64::engine::general_purpose::URL_SAFE_NO_PAD.encode(&b"0a1b2cbob"[..7]);
    assert_ne!(t, plain);
}

#[test]
fn derive_rejects_bad_lengths_and_empty_secret() {
    assert_eq!(derive_token("i", "r", "s", 0), Err(StoreError::ConfigurationError));
    assert_eq!(derive_token("i", "r", "s", 1), Err(StoreError::ConfigurationError));
    assert_eq!(derive_token("i", "r", "s", 33), Err(StoreError::ConfigurationError));
    assert_eq!(derive_token("i", "r", "", 7), Err(StoreError::ConfigurationError));
    assert!(derive_token("i", "r", "s", 2).is_ok());
    assert!(derive_token("i", "r", "s", 32).is_ok());
}
