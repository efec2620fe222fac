//! Recovery of deliberately obscured image metadata.
//!
//! A remote service delivers two kinds of protected values: per-asset
//! payloads (image locations) encrypted under a wrapped key, and compact
//! row-layout descriptors that tell a client how to unscramble a page
//! image. Both are transported as base64-like text with light additive
//! or XOR obfuscation on top of the real content.
//!
//! The crate is split along the stages of those two pipelines:
//!
//! - [`codec`]: byte-level transforms shared by everything else: a
//!   whitespace-tolerant base64 decoder and its encoder, a repeating-key
//!   XOR, single-byte rotation, and the additive shift layer.
//! - [`secret`]: the process-wide master secret, stored as a byte-rotated
//!   constant and de-rotated on demand.
//! - [`aead`]: the authenticated-cipher boundary both decryption flows
//!   end in, with the one contract the outside cipher is trusted for.
//! - [`keywrap`]: recovery of a per-asset data key from a wrapped-key
//!   blob, authenticated under the master secret.
//! - [`payload`]: decryption of the protected payload under the
//!   recovered data key, and the composite entry point callers use.
//! - [`layout`]: decoding of a row-layout descriptor into an ordered
//!   sequence of strip geometries.
//! - [`error`]: the failure kinds every stage reports.

pub mod aead;
pub mod codec;
pub mod error;
pub mod keywrap;
pub mod layout;
pub mod payload;
pub mod secret;
