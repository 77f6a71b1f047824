use vstd::arithmetic::div_mod::*;
use vstd::arithmetic::mul::*;
use vstd::arithmetic::power2::*;
use vstd::prelude::*;

use crate::codec::{
    decode_spec, encode_spec, exponent_field, infinity_magnitude, lemma_layout_sizes, mantissa_field,
    placement_exponent, rounded_magnitude, sign_field, sign_part, Decoded,
};
use crate::convert::{double_layout, f64_outcome, hex_is_valid, hex_outcome, hex_pattern};
use crate::hex::{hex_string, lemma_hex_string_value, unsigned_digits, window};
use crate::hex::hex_digit_value;
use crate::layout::{CodecError, Layout};
use crate::rounding::{
    lemma_log2_floor_bounds, lemma_log2_floor_unique, lemma_pow2_le, lemma_round_scaled_bound,
    lemma_round_scaled_lower, lemma_round_scaled_nearest, log2_floor, round_scaled,
};

verus! {

/// A pattern that fits its layout is the sum of its three fields, each in
/// place.
pub proof fn lemma_fields_compose(l: Layout, b: nat)
    requires
        l.wf(),
        b < pow2(l.total()),
    ensures
        sign_field(l, b) < 2,
        exponent_field(l, b) < pow2(l.exponent_bits as nat),
        mantissa_field(l, b) < pow2(l.mantissa_bits as nat),
        b == sign_field(l, b) * pow2((l.total() - 1) as nat) + exponent_field(l, b) * pow2(
            l.mantissa_bits as nat,
        ) + mantissa_field(l, b),
{
    let mu = pow2(l.mantissa_bits as nat) as int;
    let eu = pow2(l.exponent_bits as nat) as int;
    let top = pow2((l.total() - 1) as nat) as int;
    lemma_pow2_pos(l.mantissa_bits as nat);
    lemma_pow2_pos(l.exponent_bits as nat);
    lemma_pow2_adds(l.mantissa_bits as nat, l.exponent_bits as nat);
    lemma_pow2_unfold(l.total());
    lemma_fundamental_div_mod(b as int, mu);
    lemma_fundamental_div_mod(b as int / mu, eu);
    lemma_div_denominator(b as int, mu, eu);
    lemma_mod_bound(b as int, mu);
    lemma_mod_bound(b as int / mu, eu);
    let s = b as int / top;
    lemma_div_is_ordered(b as int, 2 * top - 1, top);
    lemma_div_multiples_vanish_fancy(1, top - 1, top);
    lemma_div_pos_is_pos(b as int, top);
    lemma_small_mod(s as nat, 2);
    let e = (b as int / mu) % eu;
    assert(b == mu * (eu * s + e) + b as int % mu);
    assert(mu * (eu * s + e) == s * top + e * mu) by (nonlinear_arith)
        requires
            top == mu * eu,
    ;
}

proof fn lemma_sign_part(l: Layout, b: nat)
    requires
        sign_field(l, b) < 2,
    ensures
        sign_part(l, sign_field(l, b) == 1) == sign_field(l, b) * pow2((l.total() - 1) as nat),
{
    lemma_mul_basics(pow2((l.total() - 1) as nat) as int);
}

proof fn lemma_round_trip_subnormal(l: Layout, b: nat)
    requires
        l.wf(),
        b < pow2(l.total()),
        exponent_field(l, b) == 0,
    ensures
        encode_spec(l, decode_spec(l, b)) == Some(b),
{
    lemma_fields_compose(l, b);
    lemma_layout_sizes(l);
    lemma_sign_part(l, b);
    let m = l.mantissa_bits as nat;
    let f = mantissa_field(l, b);
    let negative = sign_field(l, b) == 1;
    lemma_mul_basics(pow2(m) as int);
    assert(b == sign_part(l, negative) + f);
    let x = (l.min_exponent() - m) as i64;
    assert(x as int == l.min_exponent() - m);
    assert(decode_spec(l, b) == Decoded::Number { negative, significand: f as u64, exponent: x });
    assert(f as u64 as nat == f);
    if f != 0 {
        lemma_log2_floor_bounds(f);
        let p = log2_floor(f);
        if p >= m {
            lemma_pow2_le(m, p);
        }
        lemma_mul_inequality(1, l.exponent_mask() as int, pow2(m) as int);
        assert(x + p <= l.max_exponent());
        assert(placement_exponent(l, f, x as int) == l.min_exponent());
        lemma2_to64();
        lemma_mul_basics(f as int);
        assert(round_scaled(f, 0) == f);
        assert(rounded_magnitude(l, f, x as int) == f);
    }
}

proof fn lemma_round_trip_normal(l: Layout, b: nat)
    requires
        l.wf(),
        b < pow2(l.total()),
        exponent_field(l, b) != 0,
        exponent_field(l, b) != l.exponent_mask(),
    ensures
        encode_spec(l, decode_spec(l, b)) == Some(b),
{
    lemma_fields_compose(l, b);
    lemma_layout_sizes(l);
    lemma_sign_part(l, b);
    let m = l.mantissa_bits as nat;
    let mu = pow2(m) as int;
    let e = exponent_field(l, b) as int;
    let f = mantissa_field(l, b);
    lemma_pow2_unfold(m + 1);
    lemma_log2_floor_unique((mu + f) as nat, m);
    lemma_mul_basics(mu);
    lemma2_to64();
    let negative = sign_field(l, b) == 1;
    let sig = (mu + f) as nat;
    let x = (e - l.bias() - m) as i64;
    assert(x as int == e - l.bias() - m);
    assert(sig as u64 as nat == sig);
    assert(decode_spec(l, b) == Decoded::Number { negative, significand: sig as u64, exponent: x });
    assert(placement_exponent(l, sig, x as int) == x + m);
    lemma_mul_basics(sig as int);
    assert(round_scaled(sig, 0) == sig);
    assert((e - 1) * mu + (mu + f) == e * mu + f) by (nonlinear_arith);
    assert(rounded_magnitude(l, sig, x as int) == e * mu + f);
    lemma_mul_inequality(e, l.exponent_mask() as int - 1, mu);
    assert((l.exponent_mask() - 1) * mu + mu == l.exponent_mask() * mu) by (nonlinear_arith);
    assert(e * mu + f < infinity_magnitude(l));
}

proof fn lemma_nan_encoding(l: Layout)
    requires
        l.wf(),
        l.mantissa_bits > 0,
    ensures
        encode_spec(l, Decoded::NaN) is Some,
        decode_spec(l, encode_spec(l, Decoded::NaN)->0) == Decoded::NaN,
{
    lemma_layout_sizes(l);
    let m = l.mantissa_bits as nat;
    let mu = pow2(m) as int;
    let half = pow2((m - 1) as nat) as int;
    let mask = l.exponent_mask() as int;
    let c = infinity_magnitude(l) as int + half;
    lemma_pow2_unfold(m);
    lemma_pow2_pos((m - 1) as nat);
    lemma_basic_div(c, pow2((l.total() - 1) as nat) as int);
    lemma_mul_is_commutative(mask, mu);
    lemma_div_multiples_vanish_fancy(mask, half, mu);
    lemma_fundamental_div_mod_converse_mod(c, mu, mask, half);
    lemma_small_mod(l.exponent_mask(), pow2(l.exponent_bits as nat));
    lemma_small_mod(0, 2);
}

/// Encoding what a pattern decodes to gives the pattern back, for every
/// pattern that is not a NaN; a NaN encodes to a pattern that decodes to NaN.
pub proof fn lemma_round_trip(l: Layout, b: nat)
    requires
        l.wf(),
        b < pow2(l.total()),
    ensures
        decode_spec(l, b) != Decoded::NaN ==> encode_spec(l, decode_spec(l, b)) == Some(b),
        decode_spec(l, b) == Decoded::NaN && l.mantissa_bits > 0 ==> {
            &&& encode_spec(l, Decoded::NaN) is Some
            &&& decode_spec(l, encode_spec(l, Decoded::NaN)->0) == Decoded::NaN
        },
{
    let e = exponent_field(l, b);
    if e == 0 {
        lemma_round_trip_subnormal(l, b);
    } else if e != l.exponent_mask() {
        lemma_round_trip_normal(l, b);
    } else {
        lemma_fields_compose(l, b);
        lemma_layout_sizes(l);
        lemma_sign_part(l, b);
        lemma_mul_is_commutative(l.exponent_mask() as int, pow2(l.mantissa_bits as nat) as int);
        if l.mantissa_bits > 0 {
            lemma_nan_encoding(l);
        }
    }
}

/// A pattern built from three fields in range reads them back.
pub proof fn lemma_fields_read_back(l: Layout, s: nat, e: nat, f: nat)
    requires
        l.wf(),
        s < 2,
        e < pow2(l.exponent_bits as nat),
        f < pow2(l.mantissa_bits as nat),
    ensures
        sign_field(l, s * pow2((l.total() - 1) as nat) + e * pow2(l.mantissa_bits as nat) + f) == s,
        exponent_field(l, s * pow2((l.total() - 1) as nat) + e * pow2(l.mantissa_bits as nat) + f)
            == e,
        mantissa_field(l, s * pow2((l.total() - 1) as nat) + e * pow2(l.mantissa_bits as nat) + f)
            == f,
        s * pow2((l.total() - 1) as nat) + e * pow2(l.mantissa_bits as nat) + f < pow2(l.total()),
{
    let mu = pow2(l.mantissa_bits as nat) as int;
    let eu = pow2(l.exponent_bits as nat) as int;
    let top = pow2((l.total() - 1) as nat) as int;
    let b = s * top + e * mu + f;
    lemma_pow2_pos(l.mantissa_bits as nat);
    lemma_pow2_pos(l.exponent_bits as nat);
    lemma_pow2_adds(l.mantissa_bits as nat, l.exponent_bits as nat);
    lemma_pow2_unfold(l.total());
    assert(b == (s * eu + e) * mu + f) by (nonlinear_arith)
        requires
            top == mu * eu,
            b == s * top + e * mu + f,
    ;
    lemma_fundamental_div_mod_converse(b, mu, s * eu + e, f as int);
    lemma_fundamental_div_mod_converse(s * eu + e, eu, s as int, e as int);
    lemma_div_denominator(b, mu, eu);
    lemma_small_mod(s, 2);
    assert(b < 2 * top) by (nonlinear_arith)
        requires
            top == mu * eu,
            b == (s * eu + e) * mu + f,
            s <= 1,
            e + 1 <= eu,
            f + 1 <= mu,
    ;
}

/// Under every layout, the all-ones exponent with a zero mantissa and the
/// sign bit set decodes to negative infinity.
pub proof fn lemma_negative_infinity(l: Layout)
    requires
        l.wf(),
    ensures
        decode_spec(l, pow2((l.total() - 1) as nat) + infinity_magnitude(l))
            == (Decoded::Infinity { negative: true }),
{
    lemma_layout_sizes(l);
    lemma_fields_read_back(l, 1, l.exponent_mask(), 0);
    lemma_mul_basics(pow2((l.total() - 1) as nat) as int);
}

/// Under every layout, the all-ones exponent with a nonzero mantissa
/// decodes to NaN, whatever the sign bit.
pub proof fn lemma_nan_patterns(l: Layout, s: nat, f: nat)
    requires
        l.wf(),
        s < 2,
        0 < f < pow2(l.mantissa_bits as nat),
    ensures
        decode_spec(l, s * pow2((l.total() - 1) as nat) + infinity_magnitude(l) + f)
            == Decoded::NaN,
{
    lemma_layout_sizes(l);
    lemma_fields_read_back(l, s, l.exponent_mask(), f);
}

/// Under every layout, the all-zero pattern decodes to positive zero and the
/// lone sign bit to negative zero; both zeros encode back to those patterns.
pub proof fn lemma_signed_zeros(l: Layout)
    requires
        l.wf(),
    ensures
        decode_spec(l, 0) matches Decoded::Number { negative: false, significand: 0, .. },
        decode_spec(l, pow2((l.total() - 1) as nat)) matches Decoded::Number {
            negative: true,
            significand: 0,
            ..
        },
        encode_spec(l, decode_spec(l, 0)) == Some(0nat),
        encode_spec(l, decode_spec(l, pow2((l.total() - 1) as nat))) == Some(
            pow2((l.total() - 1) as nat),
        ),
{
    lemma_layout_sizes(l);
    lemma_mul_basics(pow2((l.total() - 1) as nat) as int);
    lemma_mul_basics(pow2(l.mantissa_bits as nat) as int);
    lemma_fields_read_back(l, 0, 0, 0);
    lemma_fields_read_back(l, 1, 0, 0);
}

/// The zero-padded hexadecimal text of a pattern reads back as that
/// pattern, so decoding what encoding wrote gives what was encoded.
pub proof fn lemma_hex_text_round_trip(l: Layout, b: nat)
    requires
        l.wf(),
        b < pow2(l.total()),
    ensures
        hex_is_valid(hex_string(b, l.hex_digits()), l),
        hex_pattern(hex_string(b, l.hex_digits()), l) == b,
        hex_outcome(hex_string(b, l.hex_digits()), l.exponent_bits, l.mantissa_bits) == Ok::<
            Decoded,
            CodecError,
        >(decode_spec(l, b)),
{
    let w = l.hex_digits();
    let hs = hex_string(b, w);
    lemma_hex_string_value(b, w);
    assert(window(hs, w) == hs);
    assert(hex_digit_value(hs[0]) >= 0);
    assert(unsigned_digits(hs) == hs);
    lemma_pow2_le(l.total(), 4 * w);
    lemma_pow2_le(l.total(), 64);
    lemma2_to64_rest();
    lemma_small_mod(b, pow2(4 * w));
}

/// Negative zero, given as a double, encodes under every layout to the lone
/// sign bit.
pub proof fn lemma_negative_zero_from_double(l: Layout)
    requires
        l.wf(),
    ensures
        f64_outcome(0x8000_0000_0000_0000, l.exponent_bits, l.mantissa_bits) == Ok::<
            nat,
            CodecError,
        >(pow2((l.total() - 1) as nat)),
{
    let d = double_layout();
    lemma2_to64();
    lemma2_to64_rest();
    lemma_pow2_pos(52);
    lemma_pow2_pos(11);
    lemma_fields_read_back(d, 1, 0, 0);
    lemma_mul_basics(pow2(63) as int);
    lemma_mul_basics(pow2(52) as int);
    assert(1 * pow2(63) + 0 * pow2(52) + 0 == 0x8000_0000_0000_0000);
    assert(decode_spec(d, 0x8000_0000_0000_0000) matches Decoded::Number {
        negative: true,
        significand: 0,
        ..
    });
}

proof fn lemma_decode_composed(l: Layout, negative: bool, e: nat, f: nat)
    requires
        l.wf(),
        e < l.exponent_mask(),
        f < pow2(l.mantissa_bits as nat),
    ensures
        sign_part(l, negative) + e * pow2(l.mantissa_bits as nat) + f < pow2(l.total()),
        decode_spec(l, sign_part(l, negative) + e * pow2(l.mantissa_bits as nat) + f) == (if e
            == 0 {
            Decoded::Number {
                negative,
                significand: f as u64,
                exponent: (l.min_exponent() - l.mantissa_bits) as i64,
            }
        } else {
            Decoded::Number {
                negative,
                significand: (pow2(l.mantissa_bits as nat) + f) as u64,
                exponent: (e - l.bias() - l.mantissa_bits) as i64,
            }
        }),
{
    lemma_layout_sizes(l);
    let s: nat = if negative { 1 } else { 0 };
    lemma_fields_read_back(l, s, e, f);
    lemma_mul_basics(pow2((l.total() - 1) as nat) as int);
}

/// Encoding a nonzero finite value `sig * 2^exp` that stays below the
/// overflow threshold gives a pattern whose value is `q * 2^t`: `t` is the
/// exponent the value is stored at less the mantissa width (the spacing of
/// neighbouring patterns there), and `q` is the value in steps of `2^t`,
/// rounded to nearest with ties away from zero. So the decoded value is
/// exact when no bits are dropped, and otherwise within half a step of the
/// value encoded.
pub proof fn lemma_encode_nearest(l: Layout, negative: bool, sig: u64, exp: i64)
    requires
        l.wf(),
        sig > 0,
        exp + log2_floor(sig as nat) <= l.max_exponent(),
        rounded_magnitude(l, sig as nat, exp as int) < infinity_magnitude(l),
    ensures
        ({
            let t = placement_exponent(l, sig as nat, exp as int) - l.mantissa_bits;
            let q = round_scaled(sig as nat, exp - t);
            let v = Decoded::Number { negative, significand: sig, exponent: exp };
            &&& encode_spec(l, v) is Some
            &&& encode_spec(l, v)->0 < pow2(l.total())
            &&& decode_spec(l, encode_spec(l, v)->0) == (Decoded::Number {
                negative,
                significand: q as u64,
                exponent: t as i64,
            }) || (decode_spec(l, encode_spec(l, v)->0) == (Decoded::Number {
                negative,
                significand: (q / 2) as u64,
                exponent: (t + 1) as i64,
            }) && q % 2 == 0)
            &&& exp >= t ==> q == sig * pow2((exp - t) as nat)
            &&& exp < t ==> q * pow2((t - exp) as nat) <= sig + pow2((t - exp - 1) as nat)
            &&& exp < t ==> sig + pow2((t - exp - 1) as nat) < q * pow2((t - exp) as nat) + pow2(
                (t - exp) as nat,
            )
        }),
{
    lemma_layout_sizes(l);
    let m = l.mantissa_bits as nat;
    let mu = pow2(m);
    let mask = l.exponent_mask();
    let min = l.min_exponent();
    let place = placement_exponent(l, sig as nat, exp as int);
    let t = place - m;
    let k = exp - t;
    let q = round_scaled(sig as nat, k);
    let p = log2_floor(sig as nat);
    lemma_round_scaled_nearest(sig as nat, k);
    lemma_log2_floor_bounds(sig as nat);
    lemma_mul_basics(mu as int);
    lemma_mul_is_commutative(mask as int, mu as int);
    if place == min && exp + p < min {
        lemma_round_scaled_bound(sig as nat, k, p + 1, m);
        if q < mu {
            lemma_decode_composed(l, negative, 0, q);
        } else {
            lemma_mul_strict_inequality(1, mask as int, mu as int);
            lemma_decode_composed(l, negative, 1, 0);
        }
    } else {
        let e = (place - min + 1) as nat;
        lemma_round_scaled_bound(sig as nat, k, p + 1, m + 1);
        lemma_round_scaled_lower(sig as nat, k, p, m);
        lemma_pow2_unfold(m + 1);
        assert((place - min) * mu + q == e * mu + (q - mu)) by (nonlinear_arith)
            requires
                e == place - min + 1,
        ;
        if q < 2 * mu {
            if e >= mask {
                lemma_mul_inequality(mask as int, e as int, mu as int);
            }
            lemma_decode_composed(l, negative, e, (q - mu) as nat);
        } else {
            assert(e * mu + (q - mu) == (e + 1) * mu + 0) by (nonlinear_arith)
                requires
                    q == 2 * mu,
            ;
            if e + 1 >= mask {
                lemma_mul_inequality(mask as int, (e + 1) as int, mu as int);
            }
            lemma_decode_composed(l, negative, e + 1, 0);
        }
    }
}

} // verus!

