//! The calls into orion's one-shot AEAD (XChaCha20-Poly1305), and the UTF-8
//! check on decrypted text.

use vstd::prelude::*;
use vstd::utf8::*;

verus! {

/// The length of a secret key, in bytes.
pub const KEY_LEN: usize = 32;

/// What a sealed message adds to its plaintext: a 24-byte nonce in front and a
/// 16-byte tag at the end.
pub const SEAL_OVERHEAD: usize = 40;

/// The most plaintext that one seal can take: (2^32 - 1) blocks of 64 bytes;
/// orion refuses more.
pub const MAX_PLAINTEXT: u64 = 274877906880;

/// What `orion::aead::open` returns for a key and a sealed message, `None` where
/// it fails. Decryption takes the nonce from the message, so the result depends
/// on these two byte strings alone.
pub uninterp spec fn opened(key: Seq<u8>, sealed: Seq<u8>) -> Option<Seq<u8>>;

/// Relies on `orion::aead::SecretKey::default`: 32 bytes from the system's
/// secure random source (it panics if that source fails).
#[verifier::external_body]
pub(crate) fn random_key() -> (r: Vec<u8>)
    ensures
        r@.len() == KEY_LEN,
{
    orion::aead::SecretKey::default().unprotected_as_bytes().to_vec()
}

/// Relies on `orion::aead::seal`: for a 32-byte key and a plaintext of 1 to
/// `MAX_PLAINTEXT` bytes it succeeds, returns a fresh random nonce, the
/// ciphertext and the tag (plaintext length + 40 bytes), and what it returns
/// opens under the same key to the plaintext. (The key goes through
/// `SecretKey::from_slice`, which accepts any non-empty slice; the nonce draw
/// panics only if the system's random source fails.)
#[verifier::external_body]
pub(crate) fn aead_seal(key: &[u8], plain: &[u8]) -> (r: Vec<u8>)
    requires
        key@.len() == KEY_LEN,
        0 < plain@.len() <= MAX_PLAINTEXT,
    ensures
        r@.len() == plain@.len() + SEAL_OVERHEAD,
        opened(key@, r@) == Some(plain@),
{
    let sk = orion::aead::SecretKey::from_slice(key).unwrap();
    orion::aead::seal(&sk, plain).unwrap()
}

/// Relies on `orion::aead::open`: the plaintext, or `None` where the message
/// is too short or its tag does not verify under the key.
#[verifier::external_body]
pub(crate) fn aead_open(key: &[u8], sealed: &[u8]) -> (r: Option<Vec<u8>>)
    requires
        key@.len() == KEY_LEN,
    ensures
        r matches Some(p) ==> opened(key@, sealed@) == Some(p@),
        r is None ==> opened(key@, sealed@) is None,
{
    let sk = orion::aead::SecretKey::from_slice(key).unwrap();
    orion::aead::open(&sk, sealed).ok()
}

/// Relies on `String::from_utf8`: the string whose UTF-8 encoding is `b`, or
/// `None` where `b` is not valid UTF-8.
#[verifier::external_body]
pub(crate) fn utf8_string(b: Vec<u8>) -> (r: Option<String>)
    ensures
        r matches Some(s) ==> valid_utf8(b@) && s@ == decode_utf8(b@),
        r is None ==> !valid_utf8(b@),
{
    String::from_utf8(b).ok()
}

} // verus!
