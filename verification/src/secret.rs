//! The process-wide master secret, stored obfuscated.
//!
//! The master key is not compiled in as cleartext: the binary carries a
//! 32-byte constant whose bytes were each rotated left by a fixed
//! amount, and the real key is recovered on demand by rotating every
//! byte back. This is deterrence against casual inspection of the
//! binary, not security against an adversary who holds it; the design
//! keeps it only for behavioural fidelity with the producing service.
//!
//! Recovery is a pure function of the two compiled-in constants, so
//! every call yields the same 32 bytes. A host that wants the
//! computation to run at most once per process can cache the result
//! behind a one-time-initialization cell; nothing here ever mutates it.

use crate::codec::rotate_byte_right;
use crate::codec::rotr_byte;
use vstd::prelude::*;

verus! {

/// The shift constant shared by the byte rotation that obfuscates the
/// master key and the additive transport shift: a deployment artifact
/// baked into the binary.
pub const SHIFT_KEY: u8 = 5;

/// The compiled-in obfuscated master-key constant, as a mathematical
/// sequence. Its fixed 32-byte size is part of the configuration
/// contract: a constant of any other size would not typecheck.
pub open spec fn obfuscated_master_seq() -> Seq<u8> {
    seq![
        0x58u8, 0x08, 0x3e, 0xdb, 0x61, 0x98, 0xf0, 0xd0, 0xd9, 0xa8, 0x52, 0xd8, 0xde, 0x9c,
        0x32, 0xb1, 0x3a, 0xaf, 0x4e, 0x7f, 0xdb, 0x23, 0x44, 0x66, 0xc0, 0xf4, 0xdf, 0x5f, 0x5b,
        0x94, 0x0f, 0x23,
    ]
}

/// The de-rotated master key: every byte of the obfuscated constant
/// rotated right by the shift constant.
pub open spec fn master_key_seq() -> Seq<u8> {
    Seq::new(32, |i: int| rotr_byte(obfuscated_master_seq()[i], SHIFT_KEY))
}

/// The compiled-in obfuscated master-key constant.
fn obfuscated_master_constant() -> (r: [u8; 32])
    ensures
        r@ == obfuscated_master_seq(),
{
    let a: [u8; 32] = [
        0x58, 0x08, 0x3e, 0xdb, 0x61, 0x98, 0xf0, 0xd0, 0xd9, 0xa8, 0x52, 0xd8, 0xde, 0x9c, 0x32,
        0xb1, 0x3a, 0xaf, 0x4e, 0x7f, 0xdb, 0x23, 0x44, 0x66, 0xc0, 0xf4, 0xdf, 0x5f, 0x5b, 0x94,
        0x0f, 0x23,
    ];
    proof {
        assert(a@ =~= obfuscated_master_seq());
    }
    a
}

/// Rotate-right of one byte, as the de-obfuscation step uses it.
pub fn ror_byte(byte: u8, shift: u8) -> (r: u8)
    ensures
        r == rotr_byte(byte, shift),
{
    rotate_byte_right(byte, shift)
}

/// Recovers the 32-byte master secret from the compiled-in constants.
/// The result is the same on every call: the computation reads nothing
/// but the two constants.
pub fn get_master_key_bytes() -> (r: [u8; 32])
    ensures
        r@ == master_key_seq(),
{
    let obf = obfuscated_master_constant();
    let mut arr: [u8; 32] = [0; 32];
    let mut i: usize = 0;
    while i < 32
        invariant
            i <= 32,
            obf@ == obfuscated_master_seq(),
            arr@.len() == 32,
            forall|j: int| 0 <= j < i ==> arr@[j] == rotr_byte(obfuscated_master_seq()[j], SHIFT_KEY),
        decreases 32 - i,
    {
        arr[i] = ror_byte(obf[i], SHIFT_KEY);
        i += 1;
    }
    proof {
        assert(arr@ =~= master_key_seq());
    }
    arr
}

/// The shared shift constant, as the transport stages use it.
pub fn get_shift_value() -> (r: u8)
    ensures
        r == SHIFT_KEY,
{
    SHIFT_KEY
}

} // verus!
