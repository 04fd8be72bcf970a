use vstd::prelude::*;
use vstd::arithmetic::power2::{pow2, lemma_pow2_pos, lemma_pow2_unfold, lemma_pow2_strictly_increases, lemma2_to64};

verus! {

/// Width of the fraction field of an IEEE-754 single: `2^23`.
pub open spec fn frac_span() -> int {
    0x80_0000
}

/// Magnitude of the single-precision number whose bits without the sign
/// are `mag_bits`, times `2^149` so that every finite value is an integer:
/// subnormals are their fraction, normals `(2^23 + fraction) * 2^(exponent - 1)`.
/// The infinity pattern lands above every finite magnitude.
pub open spec fn scaled_magnitude(mag_bits: int) -> int {
    let e = mag_bits / frac_span();
    let m = mag_bits % frac_span();
    if e == 0 {
        m
    } else {
        (frac_span() + m) * pow2((e - 1) as nat)
    }
}

/// Whether `bits` is the sign bit of a single-precision pattern.
pub open spec fn is_negative_bits(bits: u32) -> bool {
    bits >= 0x8000_0000
}

/// The pattern without its sign bit.
pub open spec fn magnitude_bits(bits: u32) -> int {
    if is_negative_bits(bits) {
        bits - 0x8000_0000
    } else {
        bits as int
    }
}

/// A NaN pattern: all exponent bits set and a nonzero fraction.
pub open spec fn is_nan_bits(bits: u32) -> bool {
    magnitude_bits(bits) > 0x7F80_0000
}

/// The value of a non-NaN single-precision pattern times `2^149`.
pub open spec fn scaled_value(bits: u32) -> int {
    if is_negative_bits(bits) {
        -scaled_magnitude(magnitude_bits(bits))
    } else {
        scaled_magnitude(magnitude_bits(bits))
    }
}

/// The order key of a pattern: both zeros map to `2^31`, positive values
/// above it by magnitude, negative values below it by magnitude. Every NaN
/// maps to `0`, a key no number has, which marks the score as not a number
/// (the ranking treats such a score as equal to every score).
pub open spec fn order_key(bits: u32) -> u32 {
    if is_nan_bits(bits) {
        0
    } else if is_negative_bits(bits) {
        if magnitude_bits(bits) == 0 {
            0x8000_0000
        } else {
            (0x8000_0000 - magnitude_bits(bits)) as u32
        }
    } else {
        (0x8000_0000 + bits) as u32
    }
}

/// The order key of a single-precision score given by its bit pattern
/// (`f32::to_bits`): keys of numbers compare as the numbers do, `-0.0` and
/// `0.0` get the same key (see [`law_order_key_matches_value`]), and every
/// NaN gets key `0`, which no number has (see [`law_nan_key`]).
pub fn score_key(bits: u32) -> (k: u32)
    ensures
        k == order_key(bits),
{
    let mag = if bits >= 0x8000_0000 { bits - 0x8000_0000 } else { bits };
    if mag > 0x7F80_0000 {
        0
    } else if bits >= 0x8000_0000 {
        let mag = bits - 0x8000_0000;
        if mag == 0 {
            0x8000_0000
        } else {
            0x8000_0000 - mag
        }
    } else {
        0x8000_0000 + bits
    }
}

proof fn lemma_scaled_magnitude_bounds(x: int)
    requires
        0 <= x,
    ensures
        0 <= scaled_magnitude(x),
        scaled_magnitude(x) < frac_span() * pow2((x / frac_span()) as nat),
        x / frac_span() > 0 ==> frac_span() * pow2((x / frac_span() - 1) as nat) <= scaled_magnitude(x),
{
    let e = x / frac_span();
    let m = x % frac_span();
    lemma2_to64();
    if e > 0 {
        lemma_pow2_unfold(e as nat);
        let p = pow2((e - 1) as nat);
        lemma_pow2_pos((e - 1) as nat);
        assert(frac_span() * p <= (frac_span() + m) * p) by (nonlinear_arith)
            requires
                0 <= m,
                p > 0,
        ;
        assert((frac_span() + m) * p < frac_span() * (2 * p)) by (nonlinear_arith)
            requires
                m < frac_span(),
                p > 0,
        ;
    }
}

proof fn lemma_scaled_magnitude_increases(x: int, y: int)
    requires
        0 <= x < y,
    ensures
        scaled_magnitude(x) < scaled_magnitude(y),
{
    let ex = x / frac_span();
    let ey = y / frac_span();
    lemma_scaled_magnitude_bounds(x);
    lemma_scaled_magnitude_bounds(y);
    if ex == ey {
        let mx = x % frac_span();
        let my = y % frac_span();
        assert(mx < my);
        if ex > 0 {
            let p = pow2((ex - 1) as nat);
            lemma_pow2_pos((ex - 1) as nat);
            assert((frac_span() + mx) * p < (frac_span() + my) * p) by (nonlinear_arith)
                requires
                    mx < my,
                    p > 0,
            ;
        }
    } else {
        assert(ex < ey);
        let a = pow2(ex as nat);
        let b = pow2((ey - 1) as nat);
        if ex < ey - 1 {
            lemma_pow2_strictly_increases(ex as nat, (ey - 1) as nat);
        }
        assert(frac_span() * a <= frac_span() * b) by (nonlinear_arith)
            requires
                a <= b,
        ;
    }
}

/// For patterns that are not NaN, keys are ordered exactly as the values
/// they encode: the smaller key belongs to the smaller value, and equal keys
/// to equal values (the two zeros).
pub proof fn law_order_key_matches_value(a: u32, b: u32)
    requires
        !is_nan_bits(a),
        !is_nan_bits(b),
    ensures
        order_key(a) <= order_key(b) <==> scaled_value(a) <= scaled_value(b),
        order_key(a) == order_key(b) <==> scaled_value(a) == scaled_value(b),
{
    lemma_number_keys(a);
    lemma_number_keys(b);
    let xa = magnitude_bits(a);
    let xb = magnitude_bits(b);
    lemma_scaled_magnitude_bounds(xa);
    lemma_scaled_magnitude_bounds(xb);
    if xa < xb {
        lemma_scaled_magnitude_increases(xa, xb);
    } else if xb < xa {
        lemma_scaled_magnitude_increases(xb, xa);
    }
    if xa > 0 {
        lemma_scaled_magnitude_increases(0, xa);
    }
    if xb > 0 {
        lemma_scaled_magnitude_increases(0, xb);
    }
    assert(scaled_magnitude(0) == 0);
}

/// Keys of numbers lie above the NaN key.
pub proof fn lemma_number_keys(a: u32)
    requires
        !is_nan_bits(a),
    ensures
        order_key(a) > 0,
{
}

/// Every NaN has key `0` and every number a larger key, so key `0` tells
/// exactly which scores are not numbers.
pub proof fn law_nan_key(a: u32, b: u32)
    requires
        is_nan_bits(a),
    ensures
        !is_nan_bits(b) ==> order_key(a) < order_key(b),
        is_nan_bits(b) ==> order_key(a) == order_key(b),
{
    if !is_nan_bits(b) {
        lemma_number_keys(b);
    }
}

} // verus!
