//! Decoding of row-layout descriptors into strip geometry.
//!
//! A scrambled page image is delivered together with a descriptor that
//! says how to stack its horizontal strips back into reading order.
//! The descriptor travels base64-encoded and XOR-obfuscated with a
//! fixed 16-byte key; underneath it is text of the form
//! `#v4|off-height|off-height|...`. Field order is load-bearing: it is
//! the top-to-bottom stacking order of the strips.

use crate::codec::b64_decode_spec;
use crate::codec::utf8_valid_check;
use crate::codec::decode_base64;
use crate::codec::xor_repeat_seq;
use crate::codec::xor_with_repeating_key;
use crate::error::DrmError;
use vstd::prelude::*;
use vstd::slice::slice_subrange;
use vstd::utf8::valid_utf8;

verus! {

/// The fixed repeating key the service XORs descriptors with. It is a
/// published literal, not a secret: obfuscation, not cryptography.
pub open spec fn drm_xor_key_seq() -> Seq<u8> {
    seq![51u8, 49, 52, 49, 53, 57, 50, 54, 53, 51, 53, 56, 57, 55, 57, 51]
}

/// The fixed descriptor XOR key as a byte array.
pub fn drm_xor_key() -> (r: [u8; 16])
    ensures
        r@ == drm_xor_key_seq(),
{
    let a: [u8; 16] = [51, 49, 52, 49, 53, 57, 50, 54, 53, 51, 53, 56, 57, 55, 57, 51];
    proof {
        assert(a@ =~= drm_xor_key_seq());
    }
    a
}

/// Undoes the descriptor obfuscation: XOR with the fixed repeating
/// key. Applying it to already-clear text produces the obfuscated
/// form, since the transform is its own inverse.
pub fn decode_xor_cipher(data: &[u8]) -> (r: Vec<u8>)
    ensures
        r@ == xor_repeat_seq(data@, drm_xor_key_seq()),
{
    let key = drm_xor_key();
    xor_with_repeating_key(data, &key)
}

/// One horizontal strip of a descrambled image: a vertical offset and
/// a height. A descriptor yields an ordered sequence of these, and the
/// order is the stacking order.
#[derive(Clone, Copy, Debug, PartialEq, Eq, Structural)]
pub struct RowBlock {
    /// Vertical offset of the strip in the scrambled source image.
    pub dy: i32,
    /// Height of the strip.
    pub height: i32,
}

/// True when the clear descriptor text begins with the required
/// `#v4|` marker.
pub open spec fn has_magic(t: Seq<u8>) -> bool {
    t.len() >= 4 && t[0] == 35 && t[1] == 118 && t[2] == 52 && t[3] == 124
}

/// The index of the first occurrence of `b` in `s`, or `-1` when `s`
/// does not contain it.
pub open spec fn find_byte(s: Seq<u8>, b: u8) -> int
    decreases s.len(),
{
    if s.len() == 0 {
        -1
    } else if s[0] == b {
        0
    } else {
        let k = find_byte(s.drop_first(), b);
        if k < 0 {
            -1
        } else {
            k + 1
        }
    }
}

/// `find_byte` returns either `-1` with no occurrence at all, or the
/// position of the first occurrence.
pub proof fn lemma_find_byte(s: Seq<u8>, b: u8)
    ensures
        find_byte(s, b) == -1 ==> forall|j: int| 0 <= j < s.len() ==> s[j] != b,
        find_byte(s, b) != -1 ==> 0 <= find_byte(s, b) < s.len() && s[find_byte(s, b)] == b
            && forall|j: int| 0 <= j < find_byte(s, b) ==> s[j] != b,
    decreases s.len(),
{
    if s.len() == 0 {
    } else if s[0] == b {
    } else {
        lemma_find_byte(s.drop_first(), b);
        let k = find_byte(s.drop_first(), b);
        if k == -1 {
            assert forall|j: int| 0 <= j < s.len() implies s[j] != b by {
                if j > 0 {
                    assert(s[j] == s.drop_first()[j - 1]);
                }
            }
        } else {
            assert(s[k + 1] == s.drop_first()[k]);
            assert forall|j: int| 0 <= j < k + 1 implies s[j] != b by {
                if j > 0 {
                    assert(s[j] == s.drop_first()[j - 1]);
                }
            }
        }
    }
}

/// Scans `s` for the first occurrence of `b` at or after `from`.
fn find_byte_from(s: &[u8], from: usize, b: u8) -> (r: Option<usize>)
    requires
        from <= s@.len(),
    ensures
        match r {
            Some(i) => from <= i < s@.len() && s@[i as int] == b && forall|j: int|
                from <= j < i ==> s@[j] != b,
            None => forall|j: int| from <= j < s@.len() ==> s@[j] != b,
        },
{
    let n = s.len();
    let mut i: usize = from;
    while i < n
        invariant
            from <= i <= n,
            n == s@.len(),
            forall|j: int| from <= j < i ==> s@[j] != b,
        decreases n - i,
    {
        if s[i] == b {
            return Some(i);
        }
        i += 1;
    }
    None
}

/// The first occurrence that `find_byte_from` reports, translated to
/// the suffix starting at `from`, is exactly `find_byte` of that
/// suffix.
proof fn lemma_find_byte_from_spec(s: Seq<u8>, from: int, b: u8, r: Option<usize>)
    requires
        0 <= from <= s.len(),
        match r {
            Some(i) => from <= i < s.len() && s[i as int] == b && forall|j: int|
                from <= j < i ==> s[j] != b,
            None => forall|j: int| from <= j < s.len() ==> s[j] != b,
        },
    ensures
        match r {
            Some(i) => find_byte(s.skip(from), b) == i - from,
            None => find_byte(s.skip(from), b) == -1,
        },
{
    let t = s.skip(from);
    lemma_find_byte(t, b);
    let k = find_byte(t, b);
    match r {
        Some(i) => {
            assert(t[i - from] == s[i as int]);
            if k == -1 {
                assert(false);
            } else {
                assert(s[k + from] == t[k]);
                if k < i - from {
                    assert(false);
                } else if k > i - from {
                    assert(t[i - from] != b);
                    assert(false);
                }
            }
        },
        None => {
            if k != -1 {
                assert(s[k + from] == t[k]);
                assert(false);
            }
        },
    }
}

/// True for an ASCII decimal digit.
pub open spec fn is_digit(c: u8) -> bool {
    48 <= c <= 57
}

/// The value of a run of decimal digits, most significant first.
pub open spec fn digits_value(s: Seq<u8>) -> nat
    recommends
        forall|i: int| 0 <= i < s.len() ==> is_digit(s[i]),
    decreases s.len(),
{
    if s.len() == 0 {
        0
    } else {
        (digits_value(s.drop_last()) * 10 + (s.last() - 48)) as nat
    }
}

/// The digit run of an integer token: everything after an optional
/// leading `+` or `-` sign.
pub open spec fn token_body(s: Seq<u8>) -> Seq<u8> {
    if s.len() > 0 && (s[0] == 43 || s[0] == 45) {
        s.skip(1)
    } else {
        s
    }
}

/// True when `s` has the shape of a decimal integer: an optional `+`
/// or `-` sign followed by at least one digit and nothing else.
pub open spec fn int_token_ok(s: Seq<u8>) -> bool {
    token_body(s).len() > 0 && forall|i: int|
        0 <= i < token_body(s).len() ==> is_digit(#[trigger] token_body(s)[i])
}

/// The value a well-shaped decimal integer token denotes.
pub open spec fn int_token_value(s: Seq<u8>) -> int
    recommends
        int_token_ok(s),
{
    if s.len() > 0 && s[0] == 45 {
        -(digits_value(s.skip(1)) as int)
    } else if s.len() > 0 && s[0] == 43 {
        digits_value(s.skip(1)) as int
    } else {
        digits_value(s) as int
    }
}

/// A digit run is worth at least as much as any of its prefixes.
proof fn lemma_digits_value_prefix(s: Seq<u8>, i: int)
    requires
        0 <= i <= s.len(),
        forall|j: int| 0 <= j < s.len() ==> is_digit(s[j]),
    ensures
        digits_value(s.take(i)) <= digits_value(s),
    decreases s.len() - i,
{
    if i == s.len() {
        assert(s.take(i) =~= s);
    } else {
        lemma_digits_value_prefix(s, i + 1);
        assert(s.take(i + 1).drop_last() =~= s.take(i));
        assert(digits_value(s.take(i + 1)) == digits_value(s.take(i)) * 10 + (s.take(i + 1).last()
            - 48));
        assert(digits_value(s.take(i)) <= digits_value(s.take(i + 1)));
    }
}

/// Checks whether a byte run has the shape of a decimal integer.
fn int_token_shape(s: &[u8]) -> (b: bool)
    ensures
        b == int_token_ok(s@),
{
    let n = s.len();
    let start: usize = if n > 0 && (s[0] == 43 || s[0] == 45) {
        1
    } else {
        0
    };
    let ghost body = token_body(s@);
    proof {
        assert(body.len() == n - start);
        assert(forall|j: int| 0 <= j < body.len() ==> body[j] == s@[j + start]);
    }
    if n == start {
        return false;
    }
    let mut i: usize = start;
    while i < n
        invariant
            start <= i <= n,
            n == s@.len(),
            start <= 1,
            body == token_body(s@),
            body.len() == n - start,
            forall|j: int| 0 <= j < body.len() ==> body[j] == s@[j + start],
            forall|j: int| start <= j < i ==> is_digit(s@[j]),
        decreases n - i,
    {
        let c = s[i];
        if c < 48 || c > 57 {
            proof {
                assert(body[i - start] == s@[i as int]);
                assert(!is_digit(token_body(s@)[i - start]));
            }
            return false;
        }
        i += 1;
    }
    assert forall|j: int| 0 <= j < body.len() implies is_digit(body[j]) by {
        assert(body[j] == s@[j + start]);
    }
    true
}

/// Parses a well-shaped decimal integer token into an `i32`, rejecting
/// exactly the values outside the 32-bit range instead of wrapping or
/// coercing them.
#[verifier::rlimit(80)]
fn parse_i32_token(s: &[u8]) -> (r: Option<i32>)
    requires
        int_token_ok(s@),
    ensures
        match r {
            Some(v) => i32::MIN <= int_token_value(s@) <= i32::MAX && v as int == int_token_value(
                s@,
            ),
            None => !(i32::MIN <= int_token_value(s@) <= i32::MAX),
        },
{
    let n = s.len();
    assert(n > 0);
    let neg = s[0] == 45;
    let start: usize = if s[0] == 43 || s[0] == 45 {
        1
    } else {
        0
    };
    let ghost body = token_body(s@);
    proof {
        assert(body.len() == n - start);
        assert(forall|j: int| 0 <= j < body.len() ==> body[j] == s@[j + start]);
        assert(forall|j: int| 0 <= j < body.len() ==> is_digit(body[j]));
        assert(body.take(0) =~= Seq::<u8>::empty());
    }
    let mut acc: u64 = 0;
    let mut i: usize = start;
    while i < n
        invariant
            start <= i <= n,
            n == s@.len(),
            start <= 1,
            int_token_ok(s@),
            body == token_body(s@),
            forall|j: int| 0 <= j < body.len() ==> is_digit(body[j]),
            body.len() == n - start,
            forall|j: int| 0 <= j < body.len() ==> body[j] == s@[j + start],
            acc == digits_value(body.take(i - start)),
            acc <= 0x8000_0000,
        decreases n - i,
    {
        let c = s[i];
        proof {
            assert(is_digit(body[i - start]));
            assert(body[i - start] == s@[i as int]);
        }
        let d: u8 = c - 48;
        acc = acc * 10 + d as u64;
        proof {
            let t = body.take(i - start + 1);
            assert(t.drop_last() =~= body.take(i - start));
            assert(t.last() == body[i - start]);
            assert(acc == digits_value(body.take(i - start + 1)));
        }
        if acc > 0x8000_0000 {
            proof {
                lemma_digits_value_prefix(body, i - start + 1);
                assert(digits_value(body) > 0x8000_0000);
            }
            return None;
        }
        i += 1;
    }
    proof {
        assert(body.take(n - start) =~= body);
        assert(acc == digits_value(body));
    }
    if neg {
        if acc == 0x8000_0000 {
            Some(i32::MIN)
        } else {
            Some(-(acc as i32))
        }
    } else {
        if acc > 0x7FFF_FFFF {
            None
        } else {
            Some(acc as i32)
        }
    }
}

/// The fields of the descriptor remainder: the runs between `|`
/// separators, in order. An empty remainder is one empty field, as
/// splitting text on a separator always yields at least one piece.
pub open spec fn split_fields(s: Seq<u8>) -> Seq<Seq<u8>>
    decreases s.len(),
{
    let k = find_byte(s, 124);
    if !(0 <= k < s.len()) {
        seq![s]
    } else {
        seq![s.take(k)] + split_fields(s.skip(k + 1))
    }
}

/// True when `v` fits a signed 32-bit integer.
pub open spec fn in_i32_range(v: int) -> bool {
    i32::MIN <= v <= i32::MAX
}

/// The two halves of a field that splits on `-` into exactly two
/// pieces, or nothing for any other shape.
pub open spec fn field_parts(f: Seq<u8>) -> Option<(Seq<u8>, Seq<u8>)> {
    let j = find_byte(f, 45);
    if 0 <= j < f.len() && find_byte(f.skip(j + 1), 45) == -1 {
        Some((f.take(j), f.skip(j + 1)))
    } else {
        None
    }
}

/// True when a field contributes a block: exactly two `-`-separated
/// pieces, both shaped as integers, both within 32-bit range.
pub open spec fn field_is_block(f: Seq<u8>) -> bool {
    match field_parts(f) {
        Some((a, b)) => int_token_ok(a) && int_token_ok(b) && in_i32_range(int_token_value(a))
            && in_i32_range(int_token_value(b)),
        None => false,
    }
}

/// True when a field is a hard error: both pieces are shaped as
/// integers, but at least one denotes a value outside the 32-bit
/// range. Such a value is never coerced or skipped silently.
pub open spec fn field_is_bad(f: Seq<u8>) -> bool {
    match field_parts(f) {
        Some((a, b)) => int_token_ok(a) && int_token_ok(b) && !(in_i32_range(int_token_value(a))
            && in_i32_range(int_token_value(b))),
        None => false,
    }
}

/// The offset and height a block field denotes.
pub open spec fn field_block(f: Seq<u8>) -> (int, int)
    recommends
        field_is_block(f),
{
    match field_parts(f) {
        Some((a, b)) => (int_token_value(a), int_token_value(b)),
        None => (0, 0),
    }
}

/// The blocks a field list yields, in field order: block fields
/// contribute, unshaped fields are passed over, and the first
/// out-of-range numeric field aborts the whole list.
pub open spec fn blocks_of_fields(fs: Seq<Seq<u8>>) -> Result<Seq<(int, int)>, DrmError>
    decreases fs.len(),
{
    if fs.len() == 0 {
        Ok(seq![])
    } else if field_is_bad(fs[0]) {
        Err(DrmError::IntegerParseFailure)
    } else {
        let rest = blocks_of_fields(fs.drop_first());
        if field_is_block(fs[0]) {
            match rest {
                Ok(bs) => Ok(seq![field_block(fs[0])] + bs),
                Err(e) => Err(e),
            }
        } else {
            rest
        }
    }
}

/// The sequence of offset-height pairs a block vector stands for.
pub open spec fn blocks_view(v: Seq<RowBlock>) -> Seq<(int, int)> {
    Seq::new(v.len(), |i: int| (v[i].dy as int, v[i].height as int))
}

/// What decoding a descriptor yields, end to end: base64 decode, XOR
/// de-obfuscation, a UTF-8 gate, the `#v4|` marker, then the field
/// list; a descriptor that yields no blocks at all is rejected.
pub open spec fn decode_drm_spec(input: Seq<u8>) -> Result<Seq<(int, int)>, DrmError> {
    match b64_decode_spec(input) {
        None => Err(DrmError::MalformedEncoding),
        Some(d) => {
            let x = xor_repeat_seq(d, drm_xor_key_seq());
            if !valid_utf8(x) {
                Err(DrmError::MalformedEncoding)
            } else if !has_magic(x) {
                Err(DrmError::BadMagic)
            } else {
                match blocks_of_fields(split_fields(x.skip(4))) {
                    Err(e) => Err(e),
                    Ok(bs) => if bs.len() == 0 {
                        Err(DrmError::TruncatedInput)
                    } else {
                        Ok(bs)
                    },
                }
            }
        },
    }
}

/// Decides what one field contributes: a block, nothing, or the hard
/// out-of-range error.
fn parse_field(f: &[u8]) -> (r: Result<Option<RowBlock>, DrmError>)
    ensures
        match r {
            Ok(opt) => match opt {
                Some(rb) => field_is_block(f@) && (rb.dy as int, rb.height as int) == field_block(
                    f@,
                ),
                None => !field_is_block(f@) && !field_is_bad(f@),
            },
            Err(e) => field_is_bad(f@) && e == DrmError::IntegerParseFailure,
        },
{
    let n = f.len();
    let first = find_byte_from(f, 0, 45);
    proof {
        lemma_find_byte_from_spec(f@, 0, 45, first);
        assert(f@.skip(0) =~= f@);
    }
    let j = match first {
        Some(j) => j,
        None => {
            return Ok(None);
        },
    };
    let second = find_byte_from(f, j + 1, 45);
    proof {
        lemma_find_byte_from_spec(f@, j + 1, 45, second);
    }
    if second.is_some() {
        return Ok(None);
    }
    let a = slice_subrange(f, 0, j);
    let b = slice_subrange(f, j + 1, n);
    proof {
        assert(field_parts(f@) == Some((f@.take(j as int), f@.skip(j + 1))));
        assert(a@ =~= f@.take(j as int));
        assert(b@ =~= f@.skip(j + 1));
    }
    if !int_token_shape(a) {
        return Ok(None);
    }
    if !int_token_shape(b) {
        return Ok(None);
    }
    let va = match parse_i32_token(a) {
        Some(v) => v,
        None => {
            return Err(DrmError::IntegerParseFailure);
        },
    };
    let vb = match parse_i32_token(b) {
        Some(v) => v,
        None => {
            return Err(DrmError::IntegerParseFailure);
        },
    };
    Ok(Some(RowBlock { dy: va, height: vb }))
}

/// Decodes a row-layout descriptor into its ordered strip geometry.
/// The blocks come back in the descriptor's field order, which is the
/// stacking order for redrawing the image.
pub fn decode_drm(drm_data: &[u8]) -> (r: Result<Vec<RowBlock>, DrmError>)
    ensures
        match r {
            Ok(v) => decode_drm_spec(drm_data@) matches Ok(bs) && blocks_view(v@) == bs
                && v@.len() > 0,
            Err(e) => decode_drm_spec(drm_data@) matches Err(e2) && e == e2,
        },
{
    let decoded = match decode_base64(drm_data) {
        Ok(v) => v,
        Err(e) => {
            return Err(e);
        },
    };
    let x = decode_xor_cipher(decoded.as_slice());
    if !utf8_valid_check(x.as_slice()) {
        return Err(DrmError::MalformedEncoding);
    }
    let n = x.len();
    if n < 4 || x[0] != 35 || x[1] != 118 || x[2] != 52 || x[3] != 124 {
        return Err(DrmError::BadMagic);
    }
    let ghost t = x@.skip(4);
    let mut out: Vec<RowBlock> = Vec::new();
    let mut pos: usize = 4;
    proof {
        assert(blocks_view(out@) =~= Seq::<(int, int)>::empty());
        assert(has_magic(x@));
    }
    let mut done = false;
    while !done
        invariant
            4 <= pos <= n,
            n == x@.len(),
            t == x@.skip(4),
            decode_drm_spec(drm_data@) == (match blocks_of_fields(split_fields(t)) {
                Err(e) => Err::<Seq<(int, int)>, DrmError>(e),
                Ok(bs) => if bs.len() == 0 {
                    Err(DrmError::TruncatedInput)
                } else {
                    Ok(bs)
                },
            }),
            !done ==> blocks_of_fields(split_fields(t)) == (match blocks_of_fields(
                split_fields(x@.skip(pos as int)),
            ) {
                Ok(bs) => Ok::<Seq<(int, int)>, DrmError>(blocks_view(out@) + bs),
                Err(e) => Err(e),
            }),
            done ==> blocks_of_fields(split_fields(t)) == Ok::<Seq<(int, int)>, DrmError>(
                blocks_view(out@),
            ),
        decreases
                n - pos,
                (if done {
                    0int
                } else {
                    1int
                }),
    {
        let ghost suffix = x@.skip(pos as int);
        let sep = find_byte_from(x.as_slice(), pos, 124);
        proof {
            lemma_find_byte_from_spec(x@, pos as int, 124, sep);
        }
        let (field, next_pos) = match sep {
            Some(q) => (slice_subrange(x.as_slice(), pos, q), q + 1),
            None => (slice_subrange(x.as_slice(), pos, n), pos),
        };
        let ghost rest_fields = match sep {
            Some(q) => split_fields(x@.skip(q + 1)),
            None => Seq::<Seq<u8>>::empty(),
        };
        proof {
            match sep {
                Some(q) => {
                    let k = find_byte(suffix, 124);
                    assert(k == q - pos);
                    assert(0 <= k < suffix.len());
                    assert(suffix.take(k) =~= field@);
                    assert(suffix.skip(k + 1) =~= x@.skip(q + 1));
                    assert(split_fields(suffix) == seq![field@] + split_fields(x@.skip(q + 1)));
                },
                None => {
                    assert(find_byte(suffix, 124) == -1);
                    assert(suffix =~= field@);
                    assert(split_fields(suffix) == seq![field@]);
                },
            }
            assert((seq![field@] + rest_fields)[0] == field@);
            assert((seq![field@] + rest_fields).drop_first() =~= rest_fields);
            assert(split_fields(suffix) == seq![field@] + rest_fields);
        }
        let ghost pre_out = out@;
        match parse_field(field) {
            Err(e) => {
                proof {
                    assert(blocks_of_fields(split_fields(suffix)) == Err::<
                        Seq<(int, int)>,
                        DrmError,
                    >(DrmError::IntegerParseFailure));
                }
                return Err(e);
            },
            Ok(Some(rb)) => {
                out.push(rb);
                proof {
                    assert(blocks_view(out@) =~= blocks_view(pre_out) + seq![
                        (rb.dy as int, rb.height as int),
                    ]);
                    match blocks_of_fields(rest_fields) {
                        Ok(bs) => {
                            assert(blocks_of_fields(split_fields(suffix)) == Ok::<
                                Seq<(int, int)>,
                                DrmError,
                            >(seq![field_block(field@)] + bs));
                            assert(blocks_view(pre_out) + (seq![field_block(field@)] + bs)
                                =~= blocks_view(out@) + bs);
                        },
                        Err(e) => {
                            assert(blocks_of_fields(split_fields(suffix)) == Err::<
                                Seq<(int, int)>,
                                DrmError,
                            >(e));
                        },
                    }
                }
            },
            Ok(None) => {
                proof {
                    assert(blocks_of_fields(split_fields(suffix)) == blocks_of_fields(rest_fields));
                }
            },
        }
        proof {
            if sep is None {
                assert(blocks_of_fields(Seq::<Seq<u8>>::empty()) == Ok::<
                    Seq<(int, int)>,
                    DrmError,
                >(seq![]));
                match blocks_of_fields(rest_fields) {
                    Ok(bs) => {
                        assert(blocks_view(out@) + Seq::<(int, int)>::empty() =~= blocks_view(
                            out@,
                        ));
                    },
                    Err(_) => {},
                }
            }
        }
        pos = next_pos;
        if sep.is_none() {
            done = true;
        }
    }
    if out.len() == 0 {
        return Err(DrmError::TruncatedInput);
    }
    Ok(out)
}

} // verus!
