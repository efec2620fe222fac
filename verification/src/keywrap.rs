//! Recovery of a per-asset data key from a wrapped-key blob.
//!
//! A wrapped key travels as base64 text of shifted bytes; underneath
//! lie a 12-byte nonce and a ciphertext-plus-tag encrypted under the
//! master secret. Unwrapping undoes the transport layers, authenticates
//! the blob, and insists on exactly 32 bytes of key material.

use crate::aead::GCM_NONCE_LEN;
use crate::aead::GCM_TAG_LEN;
use crate::aead::aes256_gcm_open;
use crate::aead::gcm_open;
use crate::codec::b64_decode_spec;
use crate::codec::decode_base64;
use crate::codec::sub_shift_seq;
use crate::codec::unshift_inplace;
use crate::error::DrmError;
use crate::secret::get_master_key_bytes;
use crate::secret::master_key_seq;
use vstd::prelude::*;
use vstd::slice::slice_subrange;

verus! {

/// What unwrapping already-decoded wrapped-key bytes yields: too few
/// bytes to hold a nonce and a tag are rejected outright; otherwise
/// the tail is opened under the master secret with the leading 12
/// bytes as nonce, and a bad tag is an authentication failure.
pub open spec fn unwrap_internal_spec(decoded: Seq<u8>) -> Result<Seq<u8>, DrmError> {
    if decoded.len() < GCM_NONCE_LEN + GCM_TAG_LEN {
        Err(DrmError::TruncatedInput)
    } else {
        match gcm_open(master_key_seq(), decoded.take(12), decoded.skip(12)) {
            Some(p) => Ok(p),
            None => Err(DrmError::AuthenticationFailure),
        }
    }
}

/// Opens decoded wrapped-key bytes under the master secret. The length
/// gate runs before any cipher work: fewer than 28 bytes never reach
/// the cipher.
pub fn unwrap_key_with_master_internal(decoded: Vec<u8>) -> (r: Result<Vec<u8>, DrmError>)
    ensures
        match r {
            Ok(v) => unwrap_internal_spec(decoded@) matches Ok(p) && v@ == p,
            Err(e) => unwrap_internal_spec(decoded@) matches Err(e2) && e == e2,
        },
{
    let master = get_master_key_bytes();
    if decoded.len() < GCM_NONCE_LEN + GCM_TAG_LEN {
        return Err(DrmError::TruncatedInput);
    }
    let nonce = slice_subrange(decoded.as_slice(), 0, GCM_NONCE_LEN);
    let rest = slice_subrange(decoded.as_slice(), GCM_NONCE_LEN, decoded.len());
    proof {
        assert(nonce@ =~= decoded@.take(12));
        assert(rest@ =~= decoded@.skip(12));
    }
    match aes256_gcm_open(master.as_slice(), nonce, rest) {
        Some(p) => Ok(p),
        None => Err(DrmError::AuthenticationFailure),
    }
}

/// What unwrapping a wrapped-key token yields, end to end: base64
/// decode, shift removal, authenticated opening under the master
/// secret, and the fail-fast demand that the recovered key be exactly
/// 32 bytes.
pub open spec fn unwrap_key_spec(text: Seq<u8>, shift: u8) -> Result<Seq<u8>, DrmError> {
    match b64_decode_spec(text) {
        None => Err(DrmError::MalformedEncoding),
        Some(d) => match unwrap_internal_spec(sub_shift_seq(d, shift)) {
            Err(e) => Err(e),
            Ok(p) => if p.len() == 32 {
                Ok(p)
            } else {
                Err(DrmError::InvalidKeyMaterial)
            },
        },
    }
}

/// Recovers the per-asset data key from a wrapped-key token. Any
/// recovered key that is not exactly 32 bytes is rejected as invalid
/// key material, never truncated or padded.
pub fn unwrap_key(wrapped_key_text: &[u8], shift: u8) -> (r: Result<Vec<u8>, DrmError>)
    ensures
        match r {
            Ok(v) => unwrap_key_spec(wrapped_key_text@, shift) matches Ok(p) && v@ == p
                && v@.len() == 32,
            Err(e) => unwrap_key_spec(wrapped_key_text@, shift) matches Err(e2) && e == e2,
        },
{
    let mut buf = match decode_base64(wrapped_key_text) {
        Ok(v) => v,
        Err(e) => return Err(e),
    };
    unshift_inplace(&mut buf, shift);
    let key = match unwrap_key_with_master_internal(buf) {
        Ok(k) => k,
        Err(e) => return Err(e),
    };
    if key.len() != 32 {
        return Err(DrmError::InvalidKeyMaterial);
    }
    Ok(key)
}

} // verus!
