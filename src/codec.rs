use vstd::arithmetic::mul::*;
use vstd::arithmetic::power2::*;
use vstd::prelude::*;

use crate::layout::{pow2_u64, CodecError, Layout};
use crate::rounding::{
    floor_log2, lemma_pow2_le, lemma_round_scaled_bound, log2_floor, round_scaled,
    round_scaled_u64,
};

verus! {

/// What a bit pattern stands for. A number is
/// `(-1)^negative * significand * 2^exponent`, exactly.
#[derive(Clone, Copy, Debug, PartialEq, Eq, Structural)]
pub enum Decoded {
    Number { negative: bool, significand: u64, exponent: i64 },
    Infinity { negative: bool },
    NaN,
}

/// The sign bit of `b`.
pub open spec fn sign_field(l: Layout, b: nat) -> nat {
    (b / pow2((l.total() - 1) as nat)) % 2
}

/// The exponent field of `b`, as stored (biased).
pub open spec fn exponent_field(l: Layout, b: nat) -> nat {
    (b / pow2(l.mantissa_bits as nat)) % pow2(l.exponent_bits as nat)
}

/// The mantissa field of `b`.
pub open spec fn mantissa_field(l: Layout, b: nat) -> nat {
    b % pow2(l.mantissa_bits as nat)
}

/// The value of `b` under `l`: an all-ones exponent marks infinity (zero
/// mantissa) or NaN, a zero exponent a subnormal without implicit leading
/// one, anything else a normal number with one.
pub open spec fn decode_spec(l: Layout, b: nat) -> Decoded {
    let negative = sign_field(l, b) == 1;
    let e = exponent_field(l, b);
    let m = mantissa_field(l, b);
    if e == l.exponent_mask() {
        if m == 0 {
            Decoded::Infinity { negative }
        } else {
            Decoded::NaN
        }
    } else if e == 0 {
        Decoded::Number {
            negative,
            significand: m as u64,
            exponent: (l.min_exponent() - l.mantissa_bits) as i64,
        }
    } else {
        Decoded::Number {
            negative,
            significand: (pow2(l.mantissa_bits as nat) + m) as u64,
            exponent: (e - l.bias() - l.mantissa_bits) as i64,
        }
    }
}

/// Bit `i` of a pattern of `l`, counting from the sign bit.
pub open spec fn bit_at(l: Layout, b: nat, i: int) -> nat {
    (b / pow2((l.total() - 1 - i) as nat)) % 2
}

/// The bits of `b` under `l`, one per element, sign bit first.
pub open spec fn markers(l: Layout, b: nat) -> Seq<u8> {
    Seq::new(l.total(), |i: int| bit_at(l, b, i) as u8)
}

proof fn lemma_pow2_le_63(k: nat)
    requires
        k <= 63,
    ensures
        0 < pow2(k) <= 0x8000_0000_0000_0000,
{
    lemma_pow2_pos(k);
    lemma2_to64();
    lemma2_to64_rest();
    if k < 63 {
        lemma_pow2_strictly_increases(k, 63);
    }
}

/// Decodes the low `total` bits of `bits` under `layout`.
pub fn decode(layout: &Layout, bits: u64) -> (r: Decoded)
    requires
        layout.wf(),
    ensures
        r == decode_spec(*layout, bits as nat),
{
    let m = layout.mantissa_bits as u32;
    let e = layout.exponent_bits as u32;
    let total = layout.total_bits();
    proof {
        lemma_pow2_le_63(m as nat);
        lemma_pow2_le_63(e as nat);
        lemma_pow2_le_63((e - 1) as nat);
    }
    let sign_unit = pow2_u64(total - 1);
    let mant_unit = pow2_u64(m);
    let exp_unit = pow2_u64(e);
    let negative = (bits / sign_unit) % 2 == 1;
    let exponent_val = (bits / mant_unit) % exp_unit;
    let mantissa_val = bits % mant_unit;
    let bias = layout.bias_value();
    if exponent_val == exp_unit - 1 {
        if mantissa_val == 0 {
            Decoded::Infinity { negative }
        } else {
            Decoded::NaN
        }
    } else if exponent_val == 0 {
        Decoded::Number { negative, significand: mantissa_val, exponent: 1 - bias - m as i64 }
    } else {
        Decoded::Number {
            negative,
            significand: mant_unit + mantissa_val,
            exponent: exponent_val as i64 - bias - m as i64,
        }
    }
}

/// One marker per bit of the pattern, sign bit first.
pub fn bit_markers(layout: &Layout, bits: u64) -> (r: Vec<u8>)
    requires
        layout.wf(),
    ensures
        r@ == markers(*layout, bits as nat),
{
    let total = layout.total_bits();
    let mut r: Vec<u8> = Vec::new();
    let mut i: u32 = 0;
    while i < total
        invariant
            layout.wf(),
            total == layout.total(),
            i <= total,
            r@.len() == i,
            forall|j: int| 0 <= j < i ==> r@[j] == bit_at(*layout, bits as nat, j),
        decreases total - i,
    {
        let unit = pow2_u64(total - 1 - i);
        r.push(((bits / unit) % 2) as u8);
        i = i + 1;
    }
    assert(r@ =~= markers(*layout, bits as nat));
    r
}

/// The sign bit in place.
pub open spec fn sign_part(l: Layout, negative: bool) -> nat {
    if negative {
        pow2((l.total() - 1) as nat)
    } else {
        0
    }
}

/// Exponent and mantissa fields of an infinity: all-ones exponent, zero
/// mantissa.
pub open spec fn infinity_magnitude(l: Layout) -> nat {
    l.exponent_mask() * pow2(l.mantissa_bits as nat)
}

/// The exponent at which `sig * 2^exp` is stored: its own, or that of the
/// subnormals where it is smaller.
pub open spec fn placement_exponent(l: Layout, sig: nat, exp: int) -> int {
    let own = exp + log2_floor(sig);
    if own < l.min_exponent() {
        l.min_exponent()
    } else {
        own
    }
}

/// Exponent and mantissa fields, read together as one number, of the pattern
/// nearest to `sig * 2^exp` (ties away from zero). A mantissa that rounds up
/// to the next power of two carries into the exponent.
pub open spec fn rounded_magnitude(l: Layout, sig: nat, exp: int) -> int {
    let place = placement_exponent(l, sig, exp);
    (place - l.min_exponent()) * pow2(l.mantissa_bits as nat) + round_scaled(
        sig,
        exp - (place - l.mantissa_bits),
    )
}

/// The pattern that encodes `v` under `l`; `None` where `l` has no NaN.
/// NaN is the all-ones exponent with the top mantissa bit set; a magnitude
/// beyond the largest finite one becomes an infinity of the same sign.
pub open spec fn encode_spec(l: Layout, v: Decoded) -> Option<nat> {
    match v {
        Decoded::NaN => {
            if l.mantissa_bits == 0 {
                None
            } else {
                Some(infinity_magnitude(l) + pow2((l.mantissa_bits - 1) as nat))
            }
        },
        Decoded::Infinity { negative } => Some(sign_part(l, negative) + infinity_magnitude(l)),
        Decoded::Number { negative, significand, exponent } => {
            if significand == 0 {
                Some(sign_part(l, negative))
            } else if exponent + log2_floor(significand as nat) > l.max_exponent()
                || rounded_magnitude(l, significand as nat, exponent as int)
                >= infinity_magnitude(l) {
                Some(sign_part(l, negative) + infinity_magnitude(l))
            } else {
                Some(
                    (sign_part(l, negative) + rounded_magnitude(
                        l,
                        significand as nat,
                        exponent as int,
                    )) as nat,
                )
            }
        },
    }
}

/// Sizes of the fields of a well-formed layout.
pub proof fn lemma_layout_sizes(l: Layout)
    requires
        l.wf(),
    ensures
        pow2(l.mantissa_bits as nat) * pow2(l.exponent_bits as nat) == pow2((l.total() - 1) as nat),
        infinity_magnitude(l) + pow2(l.mantissa_bits as nat) == pow2((l.total() - 1) as nat),
        pow2((l.total() - 1) as nat) * 2 == pow2(l.total()),
        pow2(l.total()) <= 0x1_0000_0000_0000_0000,
        0 < pow2(l.mantissa_bits as nat) <= 0x4000_0000_0000_0000,
        2 <= pow2(l.exponent_bits as nat) <= 0x8000_0000_0000_0000,
        0 <= l.bias() < 0x4000_0000_0000_0000,
{
    let m = l.mantissa_bits as nat;
    let e = l.exponent_bits as nat;
    lemma_pow2_adds(m, e);
    lemma_pow2_unfold(l.total());
    lemma_pow2_pos(m);
    lemma_pow2_pos((e - 1) as nat);
    lemma2_to64();
    lemma2_to64_rest();
    lemma_pow2_le(l.total(), 64);
    lemma_pow2_le(m, 62);
    lemma_pow2_le(1, e);
    lemma_pow2_le(e, 63);
    lemma_pow2_le((e - 1) as nat, 62);
    lemma_mul_is_distributive_sub_other_way(pow2(m) as int, pow2(e) as int, 1);
    lemma_mul_is_commutative(pow2(m) as int, pow2(e) as int);
}

/// Encodes `value` under `layout`.
pub fn encode(layout: &Layout, value: Decoded) -> (r: Result<u64, CodecError>)
    requires
        layout.wf(),
    ensures
        match encode_spec(*layout, value) {
            Some(b) => r == Ok::<u64, CodecError>(b as u64) && b < pow2(layout.total()),
            None => r == Err::<u64, CodecError>(CodecError::NanUnrepresentable),
        },
{
    let m = layout.mantissa_bits as u32;
    let e = layout.exponent_bits as u32;
    let total = layout.total_bits();
    proof {
        lemma_layout_sizes(*layout);
        lemma_pow2_le(e as nat, 63);
        lemma2_to64_rest();
    }
    let mant_unit = pow2_u64(m);
    let exp_unit = pow2_u64(e);
    let sign_unit = pow2_u64(total - 1);
    proof {
        lemma_mul_is_commutative((exp_unit - 1) as int, mant_unit as int);
    }
    let inf_mag = (exp_unit - 1) * mant_unit;
    match value {
        Decoded::NaN => {
            if m == 0 {
                Err(CodecError::NanUnrepresentable)
            } else {
                proof {
                    lemma_pow2_unfold(m as nat);
                }
                Ok(inf_mag + pow2_u64(m - 1))
            }
        },
        Decoded::Infinity { negative } => {
            let sign_bits: u64 = if negative { sign_unit } else { 0 };
            Ok(sign_bits + inf_mag)
        },
        Decoded::Number { negative, significand, exponent } => {
            let sign_bits: u64 = if negative { sign_unit } else { 0 };
            if significand == 0 {
                return Ok(sign_bits);
            }
            let p = floor_log2(significand);
            let own: i128 = exponent as i128 + p as i128;
            let bias = layout.bias_value() as i128;
            let min_exp: i128 = 1 - bias;
            let max_exp: i128 = exp_unit as i128 - 2 - bias;
            if own > max_exp {
                return Ok(sign_bits + inf_mag);
            }
            let place: i128 = if own < min_exp { min_exp } else { own };
            let k: i128 = exponent as i128 - (place - m as i128);
            proof {
                if k >= 0 {
                    lemma_pow2_le(k as nat, 62);
                    lemma_pow2_pos(k as nat);
                }
                lemma_round_scaled_bound(significand as nat, k as int, p as nat + 1, m as nat + 1);
                if k >= 0 {
                    lemma_round_scaled_bound(significand as nat, k as int, p as nat + 1, 63);
                }
                lemma_pow2_unfold(m as nat + 1);
                if own < min_exp {
                    lemma_round_scaled_bound(significand as nat, k as int, p as nat + 1, m as nat);
                    assert(place == min_exp);
                    assert(((place - min_exp) as u64) == 0);
                    lemma_mul_basics(mant_unit as int);
                    lemma_mul_inequality(1, (exp_unit - 1) as int, mant_unit as int);
                } else {
                    lemma_mul_inequality(
                        (place - min_exp) as int,
                        (exp_unit - 3) as int,
                        mant_unit as int,
                    );
                    let eu = exp_unit as int;
                    let mu = mant_unit as int;
                    assert((eu - 3) * mu + 2 * mu == (eu - 1) * mu) by (nonlinear_arith);
                }
                assert(((place - min_exp) as u64) as int * mant_unit + round_scaled(
                    significand as nat,
                    k as int,
                ) <= inf_mag);
                lemma_mul_is_distributive_sub_other_way(mant_unit as int, exp_unit as int, 3);
                lemma_mul_is_commutative(mant_unit as int, exp_unit as int);
            }
            let q = round_scaled_u64(significand, k);
            let mag = ((place - min_exp) as u64) * mant_unit + q;
            if mag >= inf_mag {
                Ok(sign_bits + inf_mag)
            } else {
                Ok(sign_bits + mag)
            }
        },
    }
}

} // verus!

