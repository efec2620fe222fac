//! The authenticated-cipher boundary.
//!
//! Both protected flows end in one authenticated decryption:
//! AES-256-GCM with a 96-bit nonce, a 128-bit tag carried at the tail
//! of the ciphertext, and no additional authenticated data. The cipher
//! itself is the outside crate's work; this module gives its result a
//! name and states only what the crate's source shows: the outcome is
//! a function of key, nonce and ciphertext alone, and a ciphertext too
//! short to carry a tag is always rejected.

use aes_gcm::Aes256Gcm;
use aes_gcm::Nonce;
use aes_gcm::aead::Aead;
use aes_gcm::aead::KeyInit;
use vstd::prelude::*;

verus! {

/// The fixed nonce length of the cipher mode, in bytes.
pub const GCM_NONCE_LEN: usize = 12;

/// The fixed authentication-tag length of the cipher mode, in bytes.
pub const GCM_TAG_LEN: usize = 16;

/// What AES-256-GCM decryption yields for a 32-byte key, a 12-byte
/// nonce and a tag-carrying ciphertext: the plaintext when the tag
/// verifies, nothing otherwise. The outcome depends on the three
/// arguments alone.
pub uninterp spec fn gcm_open(key: Seq<u8>, nonce: Seq<u8>, ciphertext: Seq<u8>) -> Option<
    Seq<u8>,
>;

/// Relies on aes_gcm's `Aes256Gcm`, through `KeyInit::new_from_slice`
/// (infallible for a 32-byte key) and `Aead::decrypt` (a deterministic
/// decrypt-and-verify over key, nonce and ciphertext, which rejects any
/// ciphertext shorter than the 16-byte tag).
#[verifier::external_body]
pub(crate) fn aes256_gcm_open(key: &[u8], nonce: &[u8], ciphertext: &[u8]) -> (r: Option<Vec<u8>>)
    requires
        key@.len() == 32,
        nonce@.len() == 12,
    ensures
        match gcm_open(key@, nonce@, ciphertext@) {
            Some(p) => r matches Some(v) && v@ == p,
            None => r is None,
        },
        ciphertext@.len() < 16 ==> r is None,
{
    let cipher = match Aes256Gcm::new_from_slice(key) {
        Ok(c) => c,
        Err(_) => return None,
    };
    match cipher.decrypt(Nonce::from_slice(nonce), ciphertext) {
        Ok(p) => Some(p),
        Err(_) => None,
    }
}

} // verus!
