//! Decryption of the protected payload under a recovered data key.
//!
//! The payload travels exactly like a wrapped key — base64 text of
//! shifted bytes over nonce-plus-ciphertext — but is opened under the
//! per-asset key instead of the master secret, and its plaintext must
//! be UTF-8 text (in practice a URL) before it is handed out.

use crate::aead::GCM_NONCE_LEN;
use crate::aead::aes256_gcm_open;
use crate::aead::gcm_open;
use crate::codec::b64_decode_spec;
use crate::codec::bytes_to_utf8_string;
use crate::codec::decode_base64;
use crate::codec::sub_shift_seq;
use crate::codec::unshift_inplace;
use crate::error::DrmError;
use crate::keywrap::unwrap_key;
use crate::keywrap::unwrap_key_spec;
use crate::secret::SHIFT_KEY;
use crate::secret::get_shift_value;
use vstd::prelude::*;
use vstd::slice::slice_subrange;
use vstd::utf8::decode_utf8;
use vstd::utf8::valid_utf8;

verus! {

/// What decrypting a payload token under a 32-byte key yields: base64
/// decode, shift removal, a 12-byte minimum for the nonce, opening
/// under the key, and a UTF-8 gate on the plaintext.
pub open spec fn decrypt_payload_spec(text: Seq<u8>, key: Seq<u8>, shift: u8) -> Result<
    Seq<char>,
    DrmError,
> {
    match b64_decode_spec(text) {
        None => Err(DrmError::MalformedEncoding),
        Some(d) => {
            let u = sub_shift_seq(d, shift);
            if u.len() < GCM_NONCE_LEN {
                Err(DrmError::TruncatedInput)
            } else {
                match gcm_open(key, u.take(12), u.skip(12)) {
                    None => Err(DrmError::AuthenticationFailure),
                    Some(p) => if valid_utf8(p) {
                        Ok(decode_utf8(p))
                    } else {
                        Err(DrmError::MalformedEncoding)
                    },
                }
            }
        },
    }
}

/// Decrypts a payload token under an unwrapped 32-byte data key and
/// returns the plaintext as text. Plaintext that is not valid UTF-8 is
/// rejected, never passed through.
pub fn decrypt_payload(payload_text: &[u8], key: &[u8], shift: u8) -> (r: Result<String, DrmError>)
    requires
        key@.len() == 32,
    ensures
        match r {
            Ok(s) => decrypt_payload_spec(payload_text@, key@, shift) matches Ok(cs) && s@ == cs,
            Err(e) => decrypt_payload_spec(payload_text@, key@, shift) matches Err(e2) && e == e2,
        },
{
    let mut data = match decode_base64(payload_text) {
        Ok(v) => v,
        Err(e) => return Err(e),
    };
    unshift_inplace(&mut data, shift);
    if data.len() < GCM_NONCE_LEN {
        return Err(DrmError::TruncatedInput);
    }
    let nonce = slice_subrange(data.as_slice(), 0, GCM_NONCE_LEN);
    let ct = slice_subrange(data.as_slice(), GCM_NONCE_LEN, data.len());
    proof {
        assert(nonce@ =~= sub_shift_seq(b64_decode_spec(payload_text@).unwrap(), shift).take(12));
        assert(ct@ =~= sub_shift_seq(b64_decode_spec(payload_text@).unwrap(), shift).skip(12));
    }
    let plaintext = match aes256_gcm_open(key, nonce, ct) {
        Some(p) => p,
        None => return Err(DrmError::AuthenticationFailure),
    };
    match bytes_to_utf8_string(plaintext) {
        Some(s) => Ok(s),
        None => Err(DrmError::MalformedEncoding),
    }
}

/// What the composite entry point yields: the wrapped key is unwrapped
/// first, and its failure is the caller's failure; then the payload is
/// decrypted under the recovered key. Both stages use the one shared
/// shift constant.
pub open spec fn decrypt_with_wrapped_key_spec(wrapped: Seq<u8>, data: Seq<u8>) -> Result<
    Seq<char>,
    DrmError,
> {
    match unwrap_key_spec(wrapped, SHIFT_KEY) {
        Err(e) => Err(e),
        Ok(k) => decrypt_payload_spec(data, k, SHIFT_KEY),
    }
}

/// The one entry point external collaborators use: unwraps the
/// per-asset key from `wrapped_key_b64`, then decrypts `data_b64`
/// under it, with the shared compiled-in shift value at both stages.
pub fn decrypt_data_with_wrapped_key(wrapped_key_b64: &[u8], data_b64: &[u8]) -> (r: Result<
    String,
    DrmError,
>)
    ensures
        match r {
            Ok(s) => decrypt_with_wrapped_key_spec(wrapped_key_b64@, data_b64@) matches Ok(cs)
                && s@ == cs,
            Err(e) => decrypt_with_wrapped_key_spec(wrapped_key_b64@, data_b64@) matches Err(e2)
                && e == e2,
        },
{
    let shift = get_shift_value();
    let key = match unwrap_key(wrapped_key_b64, shift) {
        Ok(k) => k,
        Err(e) => return Err(e),
    };
    decrypt_payload(data_b64, key.as_slice(), shift)
}

} // verus!
