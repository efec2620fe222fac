//! Failure kinds reported by the decoding and decryption stages.

use vstd::prelude::*;

verus! {

/// One failure kind per way an input can be rejected. Every stage returns
/// a value of this type instead of recovering or retrying; the caller
/// decides whether a failed asset is fatal or skippable.
#[derive(Clone, Copy, Debug, PartialEq, Eq, Structural)]
pub enum DrmError {
    /// A byte outside the base64 alphabet, or decrypted or unobfuscated
    /// bytes that are not valid UTF-8.
    MalformedEncoding,
    /// A buffer shorter than the smallest well-formed value at some
    /// stage, or a row-layout descriptor that yields no blocks at all.
    TruncatedInput,
    /// AES-GCM tag verification failed. Corruption and tampering are
    /// deliberately not told apart.
    AuthenticationFailure,
    /// An unwrapped key whose length is not exactly 32 bytes.
    InvalidKeyMaterial,
    /// A row-layout descriptor that does not begin with the required
    /// `#v4|` marker.
    BadMagic,
    /// A numeric row-layout field whose value does not fit in a signed
    /// 32-bit integer.
    IntegerParseFailure,
}

} // verus!
