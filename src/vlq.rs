//! Base64 VLQ: signed integers as runs of 6-bit digits, least significant
//! group first, bit 5 of each digit a continuation flag and bit 0 of the
//! assembled magnitude the sign.
use vstd::prelude::*;

use crate::error::SourceMapError;

verus! {

/// Most digits one value may take; seven hold every `i32`.
pub const MAX_DIGITS: usize = 7;

/// `32` to the power `k`: the weight of the `k`-th digit group.
pub open spec fn pow32(k: nat) -> int
    decreases k,
{
    if k == 0 {
        1
    } else {
        32 * pow32((k - 1) as nat)
    }
}

/// `,` and `;`, which end a segment and a line.
pub open spec fn is_separator(c: u8) -> bool {
    c == 44u8 || c == 59u8
}

/// The value of a digit of the alphabet `A-Z a-z 0-9 + /`, if `c` is one.
pub open spec fn digit_value(c: u8) -> Option<int> {
    if 65 <= c <= 90 {
        Some(c - 65)
    } else if 97 <= c <= 122 {
        Some(c - 97 + 26)
    } else if 48 <= c <= 57 {
        Some(c - 48 + 52)
    } else if c == 43 {
        Some(62)
    } else if c == 47 {
        Some(63)
    } else {
        None
    }
}

/// The digit of the alphabet that stands for `d`, for `0 <= d < 64`.
pub open spec fn digit_char(d: int) -> u8 {
    if d < 26 {
        (65 + d) as u8
    } else if d < 52 {
        (97 + d - 26) as u8
    } else if d < 62 {
        (48 + d - 52) as u8
    } else if d == 62 {
        43u8
    } else {
        47u8
    }
}

/// The sign convention: an even magnitude is `m / 2`, an odd one `-(m / 2)`.
pub open spec fn signed_of(raw: int) -> int {
    if raw % 2 == 0 {
        raw / 2
    } else {
        -(raw / 2)
    }
}

/// The magnitude that carries `v`: twice its absolute value, plus one if negative.
pub open spec fn zigzag(v: int) -> nat {
    if v >= 0 {
        (2 * v) as nat
    } else {
        (2 * (-v) + 1) as nat
    }
}

/// Reads the digits of one value from `b[i]` on, `k` of its groups being
/// already read: the magnitude they assemble and the index after the last.
pub open spec fn decode_raw(b: Seq<u8>, i: int, k: nat) -> Result<(int, int), SourceMapError>
    decreases MAX_DIGITS - k,
{
    if i < 0 || i >= b.len() || is_separator(b[i]) {
        Err(SourceMapError::TruncatedVlq(i as usize))
    } else {
        match digit_value(b[i]) {
            None => Err(SourceMapError::InvalidVlqCharacter(b[i], i as usize)),
            Some(d) => if d < 32 {
                Ok((d, i + 1))
            } else if k + 1 >= MAX_DIGITS {
                Err(SourceMapError::VlqTooLong(i as usize))
            } else {
                match decode_raw(b, i + 1, k + 1) {
                    Ok((r, e)) => Ok((d - 32 + 32 * r, e)),
                    Err(x) => Err(x),
                }
            },
        }
    }
}

/// The value encoded from `b[i]` on, and the index just after it.
pub open spec fn decode_value_spec(b: Seq<u8>, i: int) -> Result<(int, int), SourceMapError> {
    match decode_raw(b, i, 0) {
        Ok((r, e)) => Ok((signed_of(r), e)),
        Err(x) => Err(x),
    }
}

/// The digits that encode the magnitude `raw`.
pub open spec fn encode_raw(raw: nat) -> Seq<u8>
    decreases raw,
{
    if raw < 32 {
        seq![digit_char(raw as int)]
    } else {
        seq![digit_char((raw % 32 + 32) as int)] + encode_raw(raw / 32)
    }
}

/// The VLQ encoding of `v`.
pub open spec fn encode_spec(v: int) -> Seq<u8> {
    encode_raw(zigzag(v))
}

/// The digit value of `c`, if it belongs to the alphabet.
pub fn digit_of(c: u8) -> (r: Option<u8>)
    ensures
        match digit_value(c) {
            Some(d) => r == Some(d as u8),
            None => r is None,
        },
{
    if 65 <= c && c <= 90 {
        Some(c - 65)
    } else if 97 <= c && c <= 122 {
        Some(c - 97 + 26)
    } else if 48 <= c && c <= 57 {
        Some(c - 48 + 52)
    } else if c == 43 {
        Some(62)
    } else if c == 47 {
        Some(63)
    } else {
        None
    }
}

/// The digit of the alphabet that stands for `d`.
pub fn char_of(d: u8) -> (c: u8)
    requires
        d < 64,
    ensures
        c == digit_char(d as int),
{
    if d < 26 {
        65 + d
    } else if d < 52 {
        97 + d - 26
    } else if d < 62 {
        48 + d - 52
    } else if d == 62 {
        43
    } else {
        47
    }
}

pub(crate) proof fn lemma_pow32_values()
    ensures
        pow32(0) == 1,
        pow32(1) == 32,
        pow32(6) == 1073741824,
        pow32(7) == 34359738368,
{
    assert(pow32(0) == 1);
    assert(pow32(1) == 32);
    assert(pow32(2) == 1024);
    assert(pow32(3) == 32768);
    assert(pow32(4) == 1048576);
    assert(pow32(5) == 33554432);
    assert(pow32(6) == 1073741824);
    assert(pow32(7) == 34359738368);
}

proof fn lemma_pow32_positive(k: nat)
    ensures
        pow32(k) >= 1,
    decreases k,
{
    if k > 0 {
        lemma_pow32_positive((k - 1) as nat);
    }
}

/// Every successful read from `k` groups on assembles less than `32^(7-k)`.
pub(crate) proof fn lemma_decode_raw_bounds(b: Seq<u8>, i: int, k: nat)
    requires
        k < MAX_DIGITS,
    ensures
        decode_raw(b, i, k) matches Ok((r, e)) ==> 0 <= r < pow32((MAX_DIGITS - k) as nat) && i
            < e <= b.len(),
    decreases MAX_DIGITS - k,
{
    lemma_pow32_values();
    if 0 <= i < b.len() && !is_separator(b[i]) {
        if let Some(d) = digit_value(b[i]) {
            if d >= 32 && k + 1 < MAX_DIGITS {
                lemma_decode_raw_bounds(b, i + 1, k + 1);
                if let Ok((r, e)) = decode_raw(b, i + 1, k + 1) {
                    let p = pow32((MAX_DIGITS - k - 1) as nat);
                    assert(pow32((MAX_DIGITS - k) as nat) == 32 * p);
                    assert(0 <= d - 32 + 32 * r < 32 * p) by (nonlinear_arith)
                        requires
                            0 <= r < p,
                            32 <= d < 64,
                    ;
                }
            } else if d < 32 {
                lemma_pow32_positive((MAX_DIGITS - k - 1) as nat);
                assert(pow32((MAX_DIGITS - k) as nat) == 32 * pow32((MAX_DIGITS - k - 1) as nat));
            }
        }
    }
}

/// Decodes one value from `b[start]` on; returns it and the index just after
/// its last digit, so that the rest can be read by the next call.
pub fn decode_value(b: &[u8], start: usize) -> (r: Result<(i64, usize), SourceMapError>)
    ensures
        match decode_value_spec(b@, start as int) {
            Ok((v, e)) => r == Ok::<(i64, usize), SourceMapError>((v as i64, e as usize)),
            Err(x) => r == Err::<(i64, usize), SourceMapError>(x),
        },
        r matches Ok((v, e)) ==> -pow32(7) < v < pow32(7) && start < e <= b@.len(),
{
    proof {
        lemma_pow32_values();
        lemma_decode_raw_bounds(b@, start as int, 0);
    }
    let mut raw: i64 = 0;
    let mut mult: i64 = 1;
    let mut i: usize = start;
    let mut k: usize = 0;
    loop
        invariant
            start <= i,
            k < MAX_DIGITS,
            i - start == k,
            mult == pow32(k as nat),
            0 <= raw < mult,
            decode_raw(b@, start as int, 0) == match decode_raw(b@, i as int, k as nat) {
                Ok((r, e)) => Ok::<(int, int), SourceMapError>((raw + mult * r, e)),
                Err(x) => Err(x),
            },
        decreases MAX_DIGITS - k,
    {
        proof {
            lemma_pow32_values();
            lemma_pow32_positive(k as nat);
        }
        if i >= b.len() || b[i] == 44 || b[i] == 59 {
            return Err(SourceMapError::TruncatedVlq(i));
        }
        let c = b[i];
        match digit_of(c) {
            None => {
                return Err(SourceMapError::InvalidVlqCharacter(c, i));
            },
            Some(d) => {
                if d < 32 {
                    assert(mult <= pow32(6)) by {
                        if k < 6 {
                            lemma_pow32_monotone(k as nat, 6);
                        }
                    }
                    assert(0 <= raw + mult * (d as int) < 32 * mult) by (nonlinear_arith)
                        requires
                            0 <= raw < mult,
                            0 <= d < 32,
                    ;
                    let total: i64 = raw + mult * (d as i64);
                    let v: i64 = if total % 2 == 0 {
                        total / 2
                    } else {
                        -(total / 2)
                    };
                    return Ok((v, i + 1));
                } else if k + 1 >= MAX_DIGITS {
                    return Err(SourceMapError::VlqTooLong(i));
                } else {
                    assert(mult <= pow32(5)) by {
                        if k < 5 {
                            lemma_pow32_monotone(k as nat, 5);
                        }
                    }
                    let dd = (d - 32) as i64;
                    proof {
                        if let Ok((r, e)) = decode_raw(b@, i as int + 1, (k + 1) as nat) {
                            let ri = raw as int;
                            let mi = mult as int;
                            let di = dd as int;
                            assert(ri + mi * (di + 32 * r) == (ri + mi * di) + (mi * 32) * r)
                                by (nonlinear_arith);
                        }
                    }
                    assert(0 <= raw + mult * dd < mult * 32) by (nonlinear_arith)
                        requires
                            0 <= raw < mult,
                            0 <= dd < 32,
                    ;
                    raw = raw + mult * dd;
                    mult = mult * 32;
                    k = k + 1;
                    i = i + 1;
                }
            },
        }
    }
}

proof fn lemma_pow32_monotone(j: nat, k: nat)
    requires
        j <= k,
    ensures
        pow32(j) <= pow32(k),
    decreases k - j,
{
    if j < k {
        lemma_pow32_monotone(j, (k - 1) as nat);
        lemma_pow32_positive((k - 1) as nat);
    }
}

/// Encodes `value` as VLQ digits.
pub fn encode_value(value: i32) -> (r: Vec<u8>)
    ensures
        r@ == encode_spec(value as int),
{
    let mut raw: u64 = if value >= 0 {
        2 * (value as u64)
    } else {
        2 * ((-(value as i64)) as u64) + 1
    };
    let mut out: Vec<u8> = Vec::new();
    loop
        invariant
            out@ + encode_raw(raw as nat) == encode_spec(value as int),
        decreases raw,
    {
        if raw < 32 {
            out.push(char_of(raw as u8));
            assert(out@ =~= out@.drop_last() + encode_raw(raw as nat));
            return out;
        }
        let d = (raw % 32 + 32) as u8;
        let ghost prev = out@;
        out.push(char_of(d));
        assert(prev + encode_raw(raw as nat) =~= out@ + encode_raw((raw / 32) as nat));
        raw = raw / 32;
    }
}

/// Reads `raw`'s digits back from `b[i]` on, when `k` groups are taken already.
proof fn lemma_decode_encoded(b: Seq<u8>, i: int, raw: nat, k: nat)
    requires
        k < MAX_DIGITS,
        raw < pow32((MAX_DIGITS - k) as nat),
        0 <= i,
        i + encode_raw(raw).len() <= b.len(),
        b.subrange(i, i + encode_raw(raw).len()) == encode_raw(raw),
    ensures
        decode_raw(b, i, k) == Ok::<(int, int), SourceMapError>((raw as int, i + encode_raw(raw).len())),
    decreases raw,
{
    lemma_pow32_values();
    let e = encode_raw(raw);
    assert(b[i] == e[0]);
    if raw < 32 {
        assert(digit_value(digit_char(raw as int)) == Some(raw as int));
    } else {
        let d: int = (raw % 32 + 32) as int;
        assert(digit_value(digit_char(d)) == Some(d));
        let p = pow32((MAX_DIGITS - k - 1) as nat);
        assert(pow32((MAX_DIGITS - k) as nat) == 32 * p);
        if k + 1 >= MAX_DIGITS {
            assert(raw < 32);
        }
        assert(raw / 32 < p) by (nonlinear_arith)
            requires
                raw < 32 * p,
        ;
        let t = encode_raw(raw / 32);
        assert(e == seq![digit_char(d)] + t);
        assert(b.subrange(i + 1, i + 1 + t.len()) =~= t) by {
            assert forall|j: int| 0 <= j < t.len() implies b.subrange(i + 1, i + 1 + t.len())[j]
                == t[j] by {
                assert(b.subrange(i, i + e.len())[j + 1] == e[j + 1]);
            }
        }
        lemma_decode_encoded(b, i + 1, raw / 32, k + 1);
        assert(d - 32 + 32 * (raw / 32) == raw);
    }
}

/// Encoding a value and decoding it back yields the value, and the decoder
/// consumes exactly the encoded digits, leaving whatever follows them.
pub proof fn lemma_vlq_round_trip(value: i32, rest: Seq<u8>)
    ensures
        decode_value_spec(encode_spec(value as int) + rest, 0) == Ok::<(int, int), SourceMapError>(
            (value as int, encode_spec(value as int).len() as int),
        ),
{
    lemma_pow32_values();
    let raw: nat = zigzag(value as int);
    let e = encode_raw(raw);
    let b = e + rest;
    assert(b.subrange(0, e.len() as int) =~= e);
    lemma_decode_encoded(b, 0, raw, 0);
    assert(signed_of(raw as int) == value as int);
}

} // verus!
