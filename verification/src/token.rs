use vstd::prelude::*;
use vstd::slice::slice_subrange;
use vstd::utf8::encode_utf8;
use base64::Engine;
use crate::errors::StoreError;

verus! {

/// What `blake3::derive_key` returns for a context string and key material:
/// a 32-byte key, a function of the two arguments alone.
pub uninterp spec fn derived_key_of(context: Seq<char>, material: Seq<u8>) -> Seq<u8>;

/// What `blake3::keyed_hash` returns for a 32-byte key and a message: the
/// 32-byte keyed digest, a function of the two arguments alone.
pub uninterp spec fn keyed_digest_of(key: Seq<u8>, message: Seq<u8>) -> Seq<u8>;

/// What base64's `URL_SAFE_NO_PAD` engine returns for a byte string: its
/// RFC 4648 §5 encoding, a function of the bytes alone.
pub uninterp spec fn base64url_of(data: Seq<u8>) -> Seq<char>;

/// A character of the URL-safe base64 alphabet: letters, digits, `-` and
/// `_`; safe to appear as a whole path segment.
pub open spec fn is_base64url_char(c: char) -> bool {
    let u = c as u32;
    (0x41 <= u <= 0x5A) || (0x61 <= u <= 0x7A) || (0x30 <= u <= 0x39) || c == '-' || c == '_'
}

/// The number of characters the URL-safe unpadded encoding of `n` bytes has:
/// four for every three bytes, plus two or three for a trailing one or two.
pub open spec fn base64url_len(n: int) -> int {
    (n * 4 + 2) / 3
}

/// Relies on blake3::derive_key: derives a 32-byte key from the context
/// string and the key material, deterministically.
#[verifier::external_body]
fn blake3_derive_key(context: &str, material: &[u8]) -> (r: [u8; 32])
    ensures
        r@ == derived_key_of(context@, material@),
{
    blake3::derive_key(context, material)
}

/// Relies on blake3::keyed_hash: the 32-byte keyed digest of the message
/// under the key, deterministically.
#[verifier::external_body]
fn blake3_keyed_hash(key: &[u8; 32], message: &[u8]) -> (r: [u8; 32])
    ensures
        r@ == keyed_digest_of(key@, message@),
{
    *blake3::keyed_hash(key, message).as_bytes()
}

/// Relies on base64's URL_SAFE_NO_PAD engine: encodes into the RFC 4648 §5
/// alphabet without padding; `encoded_len` documents the output length as
/// 4·(n/3) plus 0, 2 or 3 characters for a remainder of 0, 1 or 2.
#[verifier::external_body]
fn base64url_encode(data: &[u8]) -> (r: String)
    ensures
        r@ == base64url_of(data@),
        r@.len() == base64url_len(data@.len() as int),
        forall|i: int| 0 <= i < r@.len() ==> is_base64url_char(#[trigger] r@[i]),
{
    base64::engine::general_purpose::URL_SAFE_NO_PAD.encode(data)
}

/// The context string that domain-separates this store's link keys.
pub open spec fn spec_key_context() -> Seq<char> {
    "slink"@
}

/// The link token owed to a recipient for a stored file: the keyed digest of
/// identifier and recipient (concatenated, no separator) under the key
/// derived from the secret, truncated to `length` bytes and URL-safe
/// encoded.
pub open spec fn spec_token(
    identifier: Seq<char>,
    recipient: Seq<char>,
    secret: Seq<char>,
    length: int,
) -> Seq<char> {
    base64url_of(
        keyed_digest_of(
            derived_key_of(spec_key_context(), encode_utf8(secret)),
            encode_utf8(identifier) + encode_utf8(recipient),
        ).take(length),
    )
}

/// Derive the link token that binds `identifier` to `recipient` under the
/// server secret. Deterministic: the same four inputs always give the same
/// token, so a grant can later be revoked by re-deriving it. Fails exactly
/// when the truncation length is outside 2..=32 bytes or the secret is
/// empty.
pub fn derive_token(identifier: &str, recipient: &str, secret: &str, length: usize) -> (r: Result<
    String,
    StoreError,
>)
    ensures
        !(2 <= length <= 32) || secret@.len() == 0 ==> r == Err::<String, StoreError>(
            StoreError::ConfigurationError,
        ),
        2 <= length <= 32 && secret@.len() > 0 ==> (r matches Ok(t) && t@ == spec_token(
            identifier@,
            recipient@,
            secret@,
            length as int,
        ) && t@.len() == base64url_len(length as int)),
{
    if length < 2 || length > 32 {
        return Err(StoreError::ConfigurationError);
    }
    if secret.is_empty() {
        return Err(StoreError::ConfigurationError);
    }
    let key = blake3_derive_key("slink", secret.as_bytes());
    let mut message = identifier.as_bytes_vec();
    let mut tail = recipient.as_bytes_vec();
    message.append(&mut tail);
    let digest = blake3_keyed_hash(&key, message.as_slice());
    let head = slice_subrange(digest.as_slice(), 0, length);
    Ok(base64url_encode(head))
}

/// Law: token derivation is deterministic — any two results of
/// `derive_token` for the same identifier, recipient, secret and length
/// agree, character for character, and agree on success.
pub proof fn lemma_derive_deterministic(
    identifier: &str,
    recipient: &str,
    secret: &str,
    length: usize,
    r1: Result<String, StoreError>,
    r2: Result<String, StoreError>,
)
    requires
        call_ensures(derive_token, (identifier, recipient, secret, length), r1),
        call_ensures(derive_token, (identifier, recipient, secret, length), r2),
    ensures
        r1 is Ok <==> r2 is Ok,
        r1 is Err ==> r1 == r2,
        r1 matches Ok(t1) ==> (r2 matches Ok(t2) && t1@ == t2@),
{
}

} // verus!
