//! Byte-level transforms shared by the decryption and layout pipelines.
//!
//! None of these are cryptography: the base64 stage is transport
//! encoding, the XOR and additive-shift stages are casual obfuscation,
//! and the single-byte rotation is used only to de-obfuscate the
//! compiled-in master secret. All of them are stateless functions over
//! byte sequences.

use crate::error::DrmError;
use vstd::arithmetic::div_mod::lemma_fundamental_div_mod;
use vstd::arithmetic::div_mod::lemma_fundamental_div_mod_converse;
use vstd::prelude::*;

verus! {

// ---------------------------------------------------------------------
// Single-byte circular rotation
// ---------------------------------------------------------------------

/// The byte `b` rotated right by `shift` bit positions (`shift` taken
/// modulo the 8-bit width).
pub open spec fn rotr_byte(b: u8, shift: u8) -> u8 {
    let k = (shift % 8) as u8;
    if k == 0 {
        b
    } else {
        (b >> k) | (b << (8 - k) as u8)
    }
}

/// The byte `b` rotated left by `shift` bit positions (`shift` taken
/// modulo the 8-bit width).
pub open spec fn rotl_byte(b: u8, shift: u8) -> u8 {
    let k = (shift % 8) as u8;
    if k == 0 {
        b
    } else {
        (b << k) | (b >> (8 - k) as u8)
    }
}

/// Circular right rotation within a single byte.
pub fn rotate_byte_right(b: u8, shift: u8) -> (r: u8)
    ensures
        r == rotr_byte(b, shift),
{
    let k: u8 = shift % 8;
    if k == 0 {
        b
    } else {
        (b >> k) | (b << (8 - k))
    }
}

/// Circular left rotation within a single byte; the inverse of
/// [`rotate_byte_right`].
pub fn rotate_byte_left(b: u8, shift: u8) -> (r: u8)
    ensures
        r == rotl_byte(b, shift),
{
    let k: u8 = shift % 8;
    if k == 0 {
        b
    } else {
        (b << k) | (b >> (8 - k))
    }
}

/// Rotating a byte right and then left by the same amount gives the
/// byte back, and likewise in the other order.
pub proof fn lemma_rotate_inverse(b: u8, shift: u8)
    ensures
        rotl_byte(rotr_byte(b, shift), shift) == b,
        rotr_byte(rotl_byte(b, shift), shift) == b,
{
    let k = (shift % 8) as u8;
    assert(k < 8);
    if k != 0 {
        assert(((((b >> k) | (b << (8 - k) as u8)) << k) | (((b >> k) | (b << (8 - k) as u8))
            >> (8 - k) as u8)) == b && ((((b << k) | (b >> (8 - k) as u8)) >> k) | (((b << k) | (b
            >> (8 - k) as u8)) << (8 - k) as u8)) == b) by (bit_vector)
            requires
                0 < k < 8,
        ;
    }
}

// ---------------------------------------------------------------------
// Additive shift obfuscation
// ---------------------------------------------------------------------

/// One byte with the transport shift removed: `shift` subtracted with
/// wraparound modulo 256.
pub open spec fn sub_shift_byte(x: u8, shift: u8) -> u8 {
    if x - shift < 0 {
        (x - shift + 256) as u8
    } else {
        (x - shift) as u8
    }
}

/// One byte with the transport shift applied: `shift` added with
/// wraparound modulo 256.
pub open spec fn add_shift_byte(x: u8, shift: u8) -> u8 {
    if x + shift > 255 {
        (x + shift - 256) as u8
    } else {
        (x + shift) as u8
    }
}

/// A whole buffer with the transport shift removed bytewise.
pub open spec fn sub_shift_seq(s: Seq<u8>, shift: u8) -> Seq<u8> {
    Seq::new(s.len(), |i: int| sub_shift_byte(s[i], shift))
}

/// A whole buffer with the transport shift applied bytewise.
pub open spec fn add_shift_seq(s: Seq<u8>, shift: u8) -> Seq<u8> {
    Seq::new(s.len(), |i: int| add_shift_byte(s[i], shift))
}

/// Removes the additive transport shift from every byte of `buf`, in
/// place: the inverse of whatever shift the producing service applied.
/// A shift of zero leaves the buffer unchanged.
pub fn unshift_inplace(buf: &mut Vec<u8>, shift: u8)
    ensures
        final(buf)@ == sub_shift_seq(old(buf)@, shift),
{
    let n = buf.len();
    let mut i: usize = 0;
    while i < n
        invariant
            i <= n,
            buf@.len() == n,
            n == old(buf)@.len(),
            forall|j: int| 0 <= j < i ==> buf@[j] == sub_shift_byte(old(buf)@[j], shift),
            forall|j: int| i <= j < n ==> buf@[j] == old(buf)@[j],
        decreases n - i,
    {
        let b = buf[i];
        buf[i] = b.wrapping_sub(shift);
        i += 1;
    }
    proof {
        assert(buf@ =~= sub_shift_seq(old(buf)@, shift));
    }
}

/// Applies the additive transport shift to every byte of `buf`, in
/// place: the inverse of [`unshift_inplace`].
pub fn shift_inplace(buf: &mut Vec<u8>, shift: u8)
    ensures
        final(buf)@ == add_shift_seq(old(buf)@, shift),
{
    let n = buf.len();
    let mut i: usize = 0;
    while i < n
        invariant
            i <= n,
            buf@.len() == n,
            n == old(buf)@.len(),
            forall|j: int| 0 <= j < i ==> buf@[j] == add_shift_byte(old(buf)@[j], shift),
            forall|j: int| i <= j < n ==> buf@[j] == old(buf)@[j],
        decreases n - i,
    {
        let b = buf[i];
        buf[i] = b.wrapping_add(shift);
        i += 1;
    }
    proof {
        assert(buf@ =~= add_shift_seq(old(buf)@, shift));
    }
}

/// Adding the shift back after subtracting it restores every byte
/// sequence, for every shift value.
pub proof fn lemma_shift_round_trip(s: Seq<u8>, shift: u8)
    ensures
        add_shift_seq(sub_shift_seq(s, shift), shift) == s,
{
    assert forall|i: int| 0 <= i < s.len() implies add_shift_byte(
        sub_shift_byte(s[i], shift),
        shift,
    ) == s[i] by {}
    assert(add_shift_seq(sub_shift_seq(s, shift), shift) =~= s);
}

// ---------------------------------------------------------------------
// Repeating-key XOR
// ---------------------------------------------------------------------

/// `data` combined bytewise with a repeating key: byte `i` of the
/// result is `data[i] ^ key[i % key.len()]`.
pub open spec fn xor_repeat_seq(data: Seq<u8>, key: Seq<u8>) -> Seq<u8>
    recommends
        key.len() > 0,
{
    Seq::new(data.len(), |i: int| data[i] ^ key[i % (key.len() as int)])
}

/// Combines `data` with a fixed 16-byte key by repeating-key XOR. The
/// transform is its own inverse, so the same function serves encoding
/// and decoding.
pub fn xor_with_repeating_key(data: &[u8], key: &[u8; 16]) -> (r: Vec<u8>)
    ensures
        r@ == xor_repeat_seq(data@, key@),
{
    let n = data.len();
    let mut out: Vec<u8> = Vec::with_capacity(n);
    let mut i: usize = 0;
    while i < n
        invariant
            i <= n,
            n == data@.len(),
            out@.len() == i,
            forall|j: int| 0 <= j < i ==> out@[j] == data@[j] ^ key@[j % 16],
        decreases n - i,
    {
        let kb = key[i % 16];
        out.push(data[i] ^ kb);
        i += 1;
    }
    proof {
        assert(out@ =~= xor_repeat_seq(data@, key@));
    }
    out
}

/// Applying the repeating-key XOR twice with the same key restores
/// every byte sequence, for every non-empty key.
pub proof fn lemma_xor_self_inverse(data: Seq<u8>, key: Seq<u8>)
    requires
        key.len() > 0,
    ensures
        xor_repeat_seq(xor_repeat_seq(data, key), key) == data,
{
    assert forall|i: int| 0 <= i < data.len() implies (data[i] ^ key[i % (key.len() as int)]) ^ key[
        i % (key.len() as int)
    ] == data[i] by {
        let d = data[i];
        let k = key[i % (key.len() as int)];
        assert((d ^ k) ^ k == d) by (bit_vector);
    }
    assert(xor_repeat_seq(xor_repeat_seq(data, key), key) =~= data);
}

// ---------------------------------------------------------------------
// Base64 transport encoding
// ---------------------------------------------------------------------

/// True for the 64 payload characters of the base64 alphabet.
pub open spec fn is_b64_symbol(c: u8) -> bool {
    (65 <= c <= 90)  // 'A'..='Z'
    || (97 <= c <= 122)  // 'a'..='z'
    || (48 <= c <= 57)  // '0'..='9'
    || c == 43  // '+'
    || c == 47  // '/'
}

/// True for the bytes the decoder passes over without decoding: the
/// whitespace characters a transport may embed, and the `=` padding
/// placeholder, which contributes no output bits.
pub open spec fn is_b64_skip(c: u8) -> bool {
    c == 10 || c == 13 || c == 9 || c == 32 || c == 61
}

/// True when every byte of `s` is either a base64 symbol or one of the
/// skipped bytes; anything else is a hard decode failure.
pub open spec fn b64_text_valid(s: Seq<u8>) -> bool {
    forall|i: int| 0 <= i < s.len() ==> is_b64_symbol(s[i]) || is_b64_skip(s[i])
}

/// The 6-bit value of a base64 symbol.
pub open spec fn b64_sym_val(c: u8) -> u8 {
    if 65 <= c <= 90 {
        (c - 65) as u8
    } else if 97 <= c <= 122 {
        (c - 97 + 26) as u8
    } else if 48 <= c <= 57 {
        (c - 48 + 52) as u8
    } else if c == 43 {
        62
    } else {
        63
    }
}

/// The base64 symbol carrying a 6-bit value.
pub open spec fn b64_char_of(v: u8) -> u8 {
    if v < 26 {
        (65 + v) as u8
    } else if v < 52 {
        (97 + v - 26) as u8
    } else if v < 62 {
        (48 + v - 52) as u8
    } else if v == 62 {
        43
    } else {
        47
    }
}

/// The 6-bit values of the symbols of `s`, in order, with whitespace
/// and padding passed over.
pub open spec fn b64_sym_vals(s: Seq<u8>) -> Seq<u8>
    decreases s.len(),
{
    if s.len() == 0 {
        seq![]
    } else if is_b64_symbol(s[0]) {
        seq![b64_sym_val(s[0])] + b64_sym_vals(s.drop_first())
    } else {
        b64_sym_vals(s.drop_first())
    }
}

/// The scale of the bits still buffered: one of 1, 4 and 16 in any
/// reachable accumulator state.
pub open spec fn b64_scale(bits: nat) -> nat {
    if bits == 0 {
        1
    } else if bits == 2 {
        4
    } else if bits == 4 {
        16
    } else {
        64
    }
}

/// The bytes the bit accumulator emits over the 6-bit values `vals`,
/// starting from `buf` buffered bits of weight `bits`: each value is
/// shifted in, and whenever at least 8 bits are buffered the top 8 are
/// emitted as one output byte.
pub open spec fn b64_dec_vals(vals: Seq<u8>, buf: nat, bits: nat) -> Seq<u8>
    decreases vals.len(),
{
    if vals.len() == 0 {
        seq![]
    } else {
        let nbuf = (buf * 64 + vals[0]) as nat;
        if bits + 6 >= 8 {
            let rem = (bits + 6 - 8) as nat;
            let d = b64_scale(rem);
            seq![((nbuf / d) % 256) as u8] + b64_dec_vals(vals.drop_first(), nbuf % d, rem)
        } else {
            b64_dec_vals(vals.drop_first(), nbuf, (bits + 6) as nat)
        }
    }
}

/// The 6-bit values that encoding a byte sequence produces, without
/// the `=` padding: three input bytes make four values, a trailing
/// byte makes two and a trailing pair makes three.
pub open spec fn b64_enc_vals(data: Seq<u8>) -> Seq<u8>
    decreases data.len(),
{
    if data.len() == 0 {
        seq![]
    } else if data.len() == 1 {
        let x0 = data[0] as nat;
        seq![((x0 / 4) as u8), (((x0 % 4) * 16) as u8)]
    } else if data.len() == 2 {
        let x0 = data[0] as nat;
        let x1 = data[1] as nat;
        seq![((x0 / 4) as u8), (((x0 % 4) * 16 + x1 / 16) as u8), (((x1 % 16) * 4) as u8)]
    } else {
        let x0 = data[0] as nat;
        let x1 = data[1] as nat;
        let x2 = data[2] as nat;
        seq![
            ((x0 / 4) as u8),
            (((x0 % 4) * 16 + x1 / 16) as u8),
            (((x1 % 16) * 4 + x2 / 64) as u8),
            ((x2 % 64) as u8),
        ] + b64_enc_vals(data.skip(3))
    }
}

/// The base64 text encoding a byte sequence: the symbols for
/// [`b64_enc_vals`], with `=` padding up to a four-character group.
pub open spec fn b64_encode_spec(data: Seq<u8>) -> Seq<u8>
    decreases data.len(),
{
    if data.len() == 0 {
        seq![]
    } else if data.len() == 1 {
        let x0 = data[0] as nat;
        seq![b64_char_of((x0 / 4) as u8), b64_char_of(((x0 % 4) * 16) as u8), 61u8, 61u8]
    } else if data.len() == 2 {
        let x0 = data[0] as nat;
        let x1 = data[1] as nat;
        seq![
            b64_char_of((x0 / 4) as u8),
            b64_char_of(((x0 % 4) * 16 + x1 / 16) as u8),
            b64_char_of(((x1 % 16) * 4) as u8),
            61u8,
        ]
    } else {
        let x0 = data[0] as nat;
        let x1 = data[1] as nat;
        let x2 = data[2] as nat;
        seq![
            b64_char_of((x0 / 4) as u8),
            b64_char_of(((x0 % 4) * 16 + x1 / 16) as u8),
            b64_char_of(((x1 % 16) * 4 + x2 / 64) as u8),
            b64_char_of((x2 % 64) as u8),
        ] + b64_encode_spec(data.skip(3))
    }
}

/// What decoding a base64 text yields: `None` on a byte outside the
/// alphabet, otherwise the accumulator run over the symbol values.
pub open spec fn b64_decode_spec(s: Seq<u8>) -> Option<Seq<u8>> {
    if b64_text_valid(s) {
        Some(b64_dec_vals(b64_sym_vals(s), 0, 0))
    } else {
        None
    }
}

/// Decodes a base64-alphabet text to raw bytes. Embedded newline,
/// carriage-return, tab and space characters are skipped wherever they
/// appear, and `=` padding contributes nothing to the output; any other
/// byte outside the alphabet is a hard failure.
pub fn decode_base64(input: &[u8]) -> (r: Result<Vec<u8>, DrmError>)
    ensures
        match r {
            Ok(v) => b64_decode_spec(input@) matches Some(d) && v@ == d,
            Err(e) => b64_decode_spec(input@) is None && e == DrmError::MalformedEncoding,
        },
{
    let ghost s = input@;
    let n = input.len();
    let mut out: Vec<u8> = Vec::with_capacity(n / 4 * 3 + 3);
    let mut buffer: u32 = 0;
    let mut bits: u32 = 0;
    let mut i: usize = 0;
    proof {
        assert(s.skip(0) =~= s);
        assert(out@ + b64_dec_vals(b64_sym_vals(s), 0, 0) =~= b64_dec_vals(b64_sym_vals(s), 0, 0));
    }
    while i < n
        invariant
            i <= n,
            n == s.len(),
            s == input@,
            bits == 0 || bits == 2 || bits == 4 || bits == 6,
            buffer < b64_scale(bits as nat),
            forall|j: int| 0 <= j < i ==> is_b64_symbol(s[j]) || is_b64_skip(s[j]),
            b64_dec_vals(b64_sym_vals(s), 0, 0) == out@ + b64_dec_vals(
                b64_sym_vals(s.skip(i as int)),
                buffer as nat,
                bits as nat,
            ),
        decreases n - i,
    {
        let c = input[i];
        let ghost pre_vals = b64_sym_vals(s.skip(i as int));
        proof {
            assert(s.skip(i as int).len() > 0);
            assert(s.skip(i as int)[0] == s[i as int]);
            assert(s.skip(i as int).drop_first() =~= s.skip(i + 1));
        }
        let val: u8 = if 65 <= c && c <= 90 {
            c - 65
        } else if 97 <= c && c <= 122 {
            c - 97 + 26
        } else if 48 <= c && c <= 57 {
            c - 48 + 52
        } else if c == 43 {
            62
        } else if c == 47 {
            63
        } else if c == 10 || c == 13 || c == 9 || c == 32 || c == 61 {
            proof {
                assert(is_b64_skip(s[i as int]));
                assert(pre_vals == b64_sym_vals(s.skip(i + 1)));
            }
            i += 1;
            continue ;
        } else {
            assert(!(is_b64_symbol(s[i as int]) || is_b64_skip(s[i as int])));
            return Err(DrmError::MalformedEncoding);
        };
        proof {
            assert(is_b64_symbol(s[i as int]) && val == b64_sym_val(s[i as int]));
            assert(pre_vals == seq![val] + b64_sym_vals(s.skip(i + 1)));
            assert(pre_vals.len() > 0 && pre_vals[0] == val);
            assert(pre_vals.drop_first() =~= b64_sym_vals(s.skip(i + 1)));
        }
        let ghost pre_out = out@;
        let ghost pre_buf = buffer as nat;
        let ghost pre_bits = bits as nat;
        let nbuf: u32 = buffer * 64 + val as u32;
        if bits + 6 >= 8 {
            let rem: u32 = bits + 6 - 8;
            let d: u32 = if rem == 0 {
                1
            } else if rem == 2 {
                4
            } else {
                16
            };
            assert(d == b64_scale(rem as nat));
            proof {
                if bits == 2 {
                    assert(buffer <= 3 && nbuf <= 255 && d == 1);
                    assert(nbuf / d <= 255u32) by (nonlinear_arith)
                        requires
                            nbuf <= 255 && d == 1,
                    ;
                } else if bits == 4 {
                    assert(buffer <= 15 && nbuf <= 1023 && d == 4);
                    assert(nbuf / d <= 255u32) by (nonlinear_arith)
                        requires
                            nbuf <= 1023 && d == 4,
                    ;
                } else {
                    assert(buffer <= 63 && nbuf <= 4095 && d == 16);
                    assert(nbuf / d <= 255u32) by (nonlinear_arith)
                        requires
                            nbuf <= 4095 && d == 16,
                    ;
                }
            }
            assert(nbuf / d < 256);
            out.push((nbuf / d) as u8);
            buffer = nbuf % d;
            bits = rem;
            proof {
                assert(b64_dec_vals(pre_vals, pre_buf, pre_bits) == seq![(nbuf / d) as u8]
                    + b64_dec_vals(b64_sym_vals(s.skip(i + 1)), buffer as nat, bits as nat));
                assert(out@ =~= pre_out + seq![(nbuf / d) as u8]);
                assert(pre_out + (seq![(nbuf / d) as u8] + b64_dec_vals(
                    b64_sym_vals(s.skip(i + 1)),
                    buffer as nat,
                    bits as nat,
                )) =~= out@ + b64_dec_vals(b64_sym_vals(s.skip(i + 1)), buffer as nat, bits as nat));
            }
        } else {
            buffer = nbuf;
            bits = bits + 6;
            proof {
                assert(b64_dec_vals(pre_vals, pre_buf, pre_bits) == b64_dec_vals(
                    b64_sym_vals(s.skip(i + 1)),
                    buffer as nat,
                    bits as nat,
                ));
            }
        }
        i += 1;
    }
    proof {
        assert(s.skip(n as int) =~= Seq::<u8>::empty());
        assert(b64_sym_vals(s.skip(n as int)) =~= Seq::<u8>::empty());
        assert(out@ + Seq::<u8>::empty() =~= out@);
    }
    Ok(out)
}

/// A symbol carries back the 6-bit value it was chosen for, and is
/// neither whitespace nor padding.
proof fn lemma_char_val_inverse(v: u8)
    requires
        v < 64,
    ensures
        is_b64_symbol(b64_char_of(v)),
        b64_sym_val(b64_char_of(v)) == v,
{
}

/// Symbol extraction distributes over concatenation.
proof fn lemma_sym_vals_concat(a: Seq<u8>, b: Seq<u8>)
    ensures
        b64_sym_vals(a + b) == b64_sym_vals(a) + b64_sym_vals(b),
    decreases a.len(),
{
    if a.len() == 0 {
        assert(a + b =~= b);
        assert(b64_sym_vals(a) + b64_sym_vals(b) =~= b64_sym_vals(b));
    } else {
        assert((a + b).len() > 0);
        assert((a + b)[0] == a[0]);
        assert((a + b).drop_first() =~= a.drop_first() + b);
        lemma_sym_vals_concat(a.drop_first(), b);
        if is_b64_symbol(a[0]) {
            assert(seq![b64_sym_val(a[0])] + (b64_sym_vals(a.drop_first()) + b64_sym_vals(b))
                =~= (seq![b64_sym_val(a[0])] + b64_sym_vals(a.drop_first())) + b64_sym_vals(b));
        }
    }
}

/// The encoded text of any byte sequence is valid base64 text, and its
/// symbols carry exactly the encoder's 6-bit values.
proof fn lemma_enc_vals_symbols(data: Seq<u8>)
    ensures
        b64_text_valid(b64_encode_spec(data)),
        b64_sym_vals(b64_encode_spec(data)) == b64_enc_vals(data),
    decreases data.len(),
{
    reveal_with_fuel(b64_sym_vals, 6);
    let e = b64_encode_spec(data);
    if data.len() == 0 {
        assert(b64_sym_vals(e) =~= b64_enc_vals(data));
    } else if data.len() == 1 {
        let x0 = data[0] as nat;
        let v0 = (x0 / 4) as u8;
        let v1 = ((x0 % 4) * 16) as u8;
        lemma_char_val_inverse(v0);
        lemma_char_val_inverse(v1);
        let c0 = b64_char_of(v0);
        let c1 = b64_char_of(v1);
        assert(e == seq![c0, c1, 61u8, 61u8]);
        assert(e.drop_first() =~= seq![c1, 61u8, 61u8]);
        assert(seq![c1, 61u8, 61u8].drop_first() =~= seq![61u8, 61u8]);
        assert(seq![61u8, 61u8].drop_first() =~= seq![61u8]);
        assert(seq![61u8].drop_first() =~= Seq::<u8>::empty());
        assert(b64_sym_vals(e) =~= seq![v0, v1]);
        assert(b64_enc_vals(data) == seq![v0, v1]);
    } else if data.len() == 2 {
        let x0 = data[0] as nat;
        let x1 = data[1] as nat;
        let v0 = (x0 / 4) as u8;
        let v1 = ((x0 % 4) * 16 + x1 / 16) as u8;
        let v2 = ((x1 % 16) * 4) as u8;
        lemma_char_val_inverse(v0);
        lemma_char_val_inverse(v1);
        lemma_char_val_inverse(v2);
        let c0 = b64_char_of(v0);
        let c1 = b64_char_of(v1);
        let c2 = b64_char_of(v2);
        assert(e == seq![c0, c1, c2, 61u8]);
        assert(e.drop_first() =~= seq![c1, c2, 61u8]);
        assert(seq![c1, c2, 61u8].drop_first() =~= seq![c2, 61u8]);
        assert(seq![c2, 61u8].drop_first() =~= seq![61u8]);
        assert(seq![61u8].drop_first() =~= Seq::<u8>::empty());
        assert(b64_sym_vals(e) =~= seq![v0, v1, v2]);
        assert(b64_enc_vals(data) == seq![v0, v1, v2]);
    } else {
        let x0 = data[0] as nat;
        let x1 = data[1] as nat;
        let x2 = data[2] as nat;
        let v0 = (x0 / 4) as u8;
        let v1 = ((x0 % 4) * 16 + x1 / 16) as u8;
        let v2 = ((x1 % 16) * 4 + x2 / 64) as u8;
        let v3 = ((x2 % 64) as u8);
        lemma_char_val_inverse(v0);
        lemma_char_val_inverse(v1);
        lemma_char_val_inverse(v2);
        lemma_char_val_inverse(v3);
        let c0 = b64_char_of(v0);
        let c1 = b64_char_of(v1);
        let c2 = b64_char_of(v2);
        let c3 = b64_char_of(v3);
        let head = seq![c0, c1, c2, c3];
        let rest = b64_encode_spec(data.skip(3));
        assert(e == head + rest);
        lemma_enc_vals_symbols(data.skip(3));
        lemma_sym_vals_concat(head, rest);
        assert(head.drop_first() =~= seq![c1, c2, c3]);
        assert(seq![c1, c2, c3].drop_first() =~= seq![c2, c3]);
        assert(seq![c2, c3].drop_first() =~= seq![c3]);
        assert(seq![c3].drop_first() =~= Seq::<u8>::empty());
        assert(b64_sym_vals(head) =~= seq![v0, v1, v2, v3]);
        assert(b64_sym_vals(e) == seq![v0, v1, v2, v3] + b64_enc_vals(data.skip(3)));
        assert(b64_enc_vals(data) == seq![v0, v1, v2, v3] + b64_enc_vals(data.skip(3)));
        assert forall|i: int| 0 <= i < e.len() implies is_b64_symbol(e[i]) || is_b64_skip(
            e[i],
        ) by {
            if i < 4 {
                assert(e[i] == head[i]);
            } else {
                assert(e[i] == rest[i - 4]);
            }
        }
    }
}

/// Decoding the two values of a lone trailing byte emits that byte.
#[verifier::spinoff_prover]
proof fn lemma_dec_enc_tail1(b0: u8)
    ensures
        b64_dec_vals(seq![(((b0 as nat) / 4) as u8), ((((b0 as nat) % 4) * 16) as u8)], 0, 0)
            == seq![b0],
{
    reveal_with_fuel(b64_dec_vals, 3);
    let x0 = b0 as nat;
    let v0 = (x0 / 4) as u8;
    let v1 = ((x0 % 4) * 16) as u8;
    let vals = seq![v0, v1];
    lemma_fundamental_div_mod(x0 as int, 4);
    // First value: six bits buffered, nothing emitted.
    assert(vals.drop_first() =~= seq![v1]);
    // Second value: twelve bits buffered, the top eight are the byte.
    let nbuf = (v0 * 64 + v1) as nat;
    assert(nbuf == 16 * x0);
    lemma_fundamental_div_mod_converse(nbuf as int, 16, x0 as int, 0);
    assert(nbuf / 16 == x0 && nbuf % 16 == 0);
    assert(seq![v1].drop_first() =~= Seq::<u8>::empty());
    assert(b64_dec_vals(vals, 0, 0) =~= seq![b0]);
}

/// Decoding the three values of a trailing pair emits those two bytes.
#[verifier::spinoff_prover]
proof fn lemma_dec_enc_tail2(b0: u8, b1: u8)
    ensures
        b64_dec_vals(
            seq![
                (((b0 as nat) / 4) as u8),
                ((((b0 as nat) % 4) * 16 + (b1 as nat) / 16) as u8),
                ((((b1 as nat) % 16) * 4) as u8),
            ],
            0,
            0,
        ) == seq![b0, b1],
{
    reveal_with_fuel(b64_dec_vals, 4);
    let x0 = b0 as nat;
    let x1 = b1 as nat;
    let v0 = (x0 / 4) as u8;
    let v1 = ((x0 % 4) * 16 + x1 / 16) as u8;
    let v2 = ((x1 % 16) * 4) as u8;
    let vals = seq![v0, v1, v2];
    lemma_fundamental_div_mod(x0 as int, 4);
    lemma_fundamental_div_mod(x1 as int, 16);
    assert(vals.drop_first() =~= seq![v1, v2]);
    let nbuf1 = (v0 * 64 + v1) as nat;
    assert(nbuf1 == 16 * x0 + x1 / 16);
    lemma_fundamental_div_mod_converse(nbuf1 as int, 16, x0 as int, (x1 / 16) as int);
    assert(nbuf1 / 16 == x0 && nbuf1 % 16 == x1 / 16);
    assert(seq![v1, v2].drop_first() =~= seq![v2]);
    let nbuf2 = ((x1 / 16) * 64 + v2) as nat;
    assert(nbuf2 == 4 * x1);
    lemma_fundamental_div_mod_converse(nbuf2 as int, 4, x1 as int, 0);
    assert(nbuf2 / 4 == x1 && nbuf2 % 4 == 0);
    assert(seq![v2].drop_first() =~= Seq::<u8>::empty());
    assert(b64_dec_vals(vals, 0, 0) =~= seq![b0, b1]);
}

/// Decoding the four values of a full three-byte group emits those
/// bytes and hands the accumulator on empty to the remaining values.
#[verifier::spinoff_prover]
proof fn lemma_dec_enc_head3(b0: u8, b1: u8, b2: u8, rest: Seq<u8>)
    ensures
        b64_dec_vals(
            seq![
                (((b0 as nat) / 4) as u8),
                ((((b0 as nat) % 4) * 16 + (b1 as nat) / 16) as u8),
                ((((b1 as nat) % 16) * 4 + (b2 as nat) / 64) as u8),
                (((b2 as nat) % 64) as u8),
            ] + rest,
            0,
            0,
        ) == seq![b0, b1, b2] + b64_dec_vals(rest, 0, 0),
{
    reveal_with_fuel(b64_dec_vals, 5);
    let x0 = b0 as nat;
    let x1 = b1 as nat;
    let x2 = b2 as nat;
    let v0 = (x0 / 4) as u8;
    let v1 = ((x0 % 4) * 16 + x1 / 16) as u8;
    let v2 = ((x1 % 16) * 4 + x2 / 64) as u8;
    let v3 = ((x2 % 64) as u8);
    let vals = seq![v0, v1, v2, v3] + rest;
    lemma_fundamental_div_mod(x0 as int, 4);
    lemma_fundamental_div_mod(x1 as int, 16);
    lemma_fundamental_div_mod(x2 as int, 64);
    assert(vals[0] == v0 && vals.drop_first() =~= seq![v1, v2, v3] + rest);
    let s1 = seq![v1, v2, v3] + rest;
    assert(s1[0] == v1 && s1.drop_first() =~= seq![v2, v3] + rest);
    let nbuf1 = (v0 * 64 + v1) as nat;
    assert(nbuf1 == 16 * x0 + x1 / 16);
    lemma_fundamental_div_mod_converse(nbuf1 as int, 16, x0 as int, (x1 / 16) as int);
    assert(nbuf1 / 16 == x0 && nbuf1 % 16 == x1 / 16);
    let s2 = seq![v2, v3] + rest;
    assert(s2[0] == v2 && s2.drop_first() =~= seq![v3] + rest);
    let nbuf2 = ((x1 / 16) * 64 + v2) as nat;
    assert(nbuf2 == 4 * x1 + x2 / 64);
    lemma_fundamental_div_mod_converse(nbuf2 as int, 4, x1 as int, (x2 / 64) as int);
    assert(nbuf2 / 4 == x1 && nbuf2 % 4 == x2 / 64);
    let s3 = seq![v3] + rest;
    assert(s3[0] == v3 && s3.drop_first() =~= rest);
    let nbuf3 = ((x2 / 64) * 64 + v3) as nat;
    assert(nbuf3 == x2);
    lemma_fundamental_div_mod_converse(nbuf3 as int, 1, x2 as int, 0);
    assert(nbuf3 / 1 == x2 && nbuf3 % 1 == 0);
    assert(b64_dec_vals(vals, 0, 0) =~= seq![b0, b1, b2] + b64_dec_vals(rest, 0, 0));
}

/// Running the decoding accumulator over the encoder's 6-bit values
/// yields the original bytes.
proof fn lemma_dec_enc_vals(data: Seq<u8>)
    ensures
        b64_dec_vals(b64_enc_vals(data), 0, 0) == data,
    decreases data.len(),
{
    let vals = b64_enc_vals(data);
    if data.len() == 0 {
        assert(b64_dec_vals(vals, 0, 0) =~= data);
    } else if data.len() == 1 {
        lemma_dec_enc_tail1(data[0]);
        assert(seq![data[0]] =~= data);
    } else if data.len() == 2 {
        lemma_dec_enc_tail2(data[0], data[1]);
        assert(seq![data[0], data[1]] =~= data);
    } else {
        let rest = b64_enc_vals(data.skip(3));
        lemma_dec_enc_head3(data[0], data[1], data[2], rest);
        lemma_dec_enc_vals(data.skip(3));
        assert(b64_dec_vals(vals, 0, 0) == seq![data[0], data[1], data[2]] + data.skip(3));
        assert(seq![data[0], data[1], data[2]] + data.skip(3) =~= data);
    }
}

/// Decoding the encoding of any byte sequence gives the sequence back:
/// the decoder is a left inverse of the encoder.
pub proof fn lemma_base64_round_trip(data: Seq<u8>)
    ensures
        b64_decode_spec(b64_encode_spec(data)) == Some(data),
{
    lemma_enc_vals_symbols(data);
    lemma_dec_enc_vals(data);
}

/// The base64 symbol for a 6-bit value.
fn b64_char(v: u8) -> (c: u8)
    requires
        v < 64,
    ensures
        c == b64_char_of(v),
{
    if v < 26 {
        65 + v
    } else if v < 52 {
        97 + v - 26
    } else if v < 62 {
        48 + v - 52
    } else if v == 62 {
        43
    } else {
        47
    }
}

/// Encodes raw bytes as base64 text with `=` padding: the mathematical
/// inverse of [`decode_base64`].
pub fn encode_base64(data: &[u8]) -> (r: Vec<u8>)
    ensures
        r@ == b64_encode_spec(data@),
{
    let ghost s = data@;
    let n = data.len();
    let mut out: Vec<u8> = Vec::new();
    let mut i: usize = 0;
    proof {
        assert(s.skip(0) =~= s);
        assert(out@ + b64_encode_spec(s) =~= b64_encode_spec(s));
    }
    while n - i >= 3
        invariant
            i <= n,
            n == s.len(),
            s == data@,
            out@ + b64_encode_spec(s.skip(i as int)) == b64_encode_spec(s),
        decreases n - i,
    {
        let b0 = data[i];
        let b1 = data[i + 1];
        let b2 = data[i + 2];
        let ghost pre_out = out@;
        let c0 = b64_char(b0 / 4);
        let c1 = b64_char((b0 % 4) * 16 + b1 / 16);
        let c2 = b64_char((b1 % 16) * 4 + b2 / 64);
        let c3 = b64_char(b2 % 64);
        out.push(c0);
        out.push(c1);
        out.push(c2);
        out.push(c3);
        proof {
            assert(s.skip(i as int).len() >= 3);
            assert(s.skip(i as int)[0] == s[i as int]);
            assert(s.skip(i as int)[1] == s[i + 1]);
            assert(s.skip(i as int)[2] == s[i + 2]);
            assert(s.skip(i as int).skip(3) =~= s.skip(i + 3));
            assert(b64_encode_spec(s.skip(i as int)) == seq![c0, c1, c2, c3] + b64_encode_spec(
                s.skip(i + 3),
            ));
            assert(out@ =~= pre_out + seq![c0, c1, c2, c3]);
            assert(pre_out + (seq![c0, c1, c2, c3] + b64_encode_spec(s.skip(i + 3))) =~= out@
                + b64_encode_spec(s.skip(i + 3)));
        }
        i += 3;
    }
    let ghost pre_out = out@;
    if n - i == 1 {
        let b0 = data[i];
        let c0 = b64_char(b0 / 4);
        let c1 = b64_char((b0 % 4) * 16);
        out.push(c0);
        out.push(c1);
        out.push(61);
        out.push(61);
        proof {
            assert(s.skip(i as int).len() == 1);
            assert(s.skip(i as int)[0] == s[i as int]);
            assert(b64_encode_spec(s.skip(i as int)) == seq![c0, c1, 61u8, 61u8]);
            assert(out@ =~= pre_out + seq![c0, c1, 61u8, 61u8]);
        }
    } else if n - i == 2 {
        let b0 = data[i];
        let b1 = data[i + 1];
        let c0 = b64_char(b0 / 4);
        let c1 = b64_char((b0 % 4) * 16 + b1 / 16);
        let c2 = b64_char((b1 % 16) * 4);
        out.push(c0);
        out.push(c1);
        out.push(c2);
        out.push(61);
        proof {
            assert(s.skip(i as int).len() == 2);
            assert(s.skip(i as int)[0] == s[i as int]);
            assert(s.skip(i as int)[1] == s[i + 1]);
            assert(b64_encode_spec(s.skip(i as int)) == seq![c0, c1, c2, 61u8]);
            assert(out@ =~= pre_out + seq![c0, c1, c2, 61u8]);
        }
    } else {
        proof {
            assert(s.skip(i as int) =~= Seq::<u8>::empty());
            assert(b64_encode_spec(s.skip(i as int)) == Seq::<u8>::empty());
            assert(out@ + Seq::<u8>::empty() =~= out@);
        }
    }
    out
}

/// Decodes a base64 transport token. Tokens arrive both padded and
/// unpadded; the decoder treats `=` as a placeholder either way, so no
/// padding needs to be restored first.
pub fn decode_b64(s: &[u8]) -> (r: Result<Vec<u8>, DrmError>)
    ensures
        match r {
            Ok(v) => b64_decode_spec(s@) matches Some(d) && v@ == d,
            Err(e) => b64_decode_spec(s@) is None && e == DrmError::MalformedEncoding,
        },
{
    decode_base64(s)
}

/// Relies on `core::str::from_utf8`: it succeeds exactly on bytes
/// that are valid UTF-8.
#[verifier::external_body]
pub(crate) fn utf8_valid_check(v: &[u8]) -> (r: bool)
    ensures
        r == vstd::utf8::valid_utf8(v@),
{
    match core::str::from_utf8(v) {
        Ok(_) => true,
        Err(_) => false,
    }
}

/// Relies on `String::from_utf8`: it succeeds exactly on bytes that
/// are valid UTF-8, and the text it returns is their decoding.
#[verifier::external_body]
pub(crate) fn bytes_to_utf8_string(v: Vec<u8>) -> (r: Option<String>)
    ensures
        r is Some <==> vstd::utf8::valid_utf8(v@),
        r matches Some(s) ==> s@ == vstd::utf8::decode_utf8(v@),
{
    match String::from_utf8(v) {
        Ok(s) => Some(s),
        Err(_) => None,
    }
}

} // verus!
