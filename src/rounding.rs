use vstd::arithmetic::div_mod::*;
use vstd::arithmetic::mul::*;
use vstd::arithmetic::power2::*;
use vstd::prelude::*;

use crate::layout::pow2_u64;

verus! {

/// `floor(log2(n))` for a positive `n`.
pub open spec fn log2_floor(n: nat) -> nat
    decreases n,
{
    if n < 2 {
        0
    } else {
        1 + log2_floor(n / 2)
    }
}

/// `sig * 2^k` rounded to the nearest integer, halves upward.
pub open spec fn round_scaled(sig: nat, k: int) -> nat {
    if k >= 0 {
        sig * pow2(k as nat)
    } else {
        (sig + pow2((-k - 1) as nat)) / pow2((-k) as nat)
    }
}

/// `pow2` is monotone.
pub proof fn lemma_pow2_le(a: nat, b: nat)
    requires
        a <= b,
    ensures
        pow2(a) <= pow2(b),
{
    if a < b {
        lemma_pow2_strictly_increases(a, b);
    }
}

/// `log2_floor(n)` brackets `n` between two consecutive powers of two.
pub proof fn lemma_log2_floor_bounds(n: nat)
    requires
        n >= 1,
    ensures
        pow2(log2_floor(n)) <= n < pow2(log2_floor(n) + 1),
    decreases n,
{
    reveal(pow2);
    if n >= 2 {
        lemma_log2_floor_bounds(n / 2);
        let k = log2_floor(n / 2);
        lemma_pow2_unfold(k + 1);
        lemma_pow2_unfold(k + 2);
    } else {
        lemma2_to64();
    }
}

/// A power-of-two bracket determines `log2_floor`.
pub proof fn lemma_log2_floor_unique(n: nat, k: nat)
    requires
        pow2(k) <= n < pow2(k + 1),
    ensures
        log2_floor(n) == k,
{
    lemma_pow2_pos(k);
    lemma_log2_floor_bounds(n);
    let l = log2_floor(n);
    if l < k {
        lemma_pow2_le(l + 1, k);
    } else if l > k {
        lemma_pow2_le(k + 1, l);
    }
}

/// Position of the highest set bit of `n`.
pub fn floor_log2(n: u64) -> (r: u32)
    requires
        n >= 1,
    ensures
        r == log2_floor(n as nat),
        r < 64,
        pow2(r as nat) <= n < pow2(r as nat + 1),
{
    proof {
        lemma_log2_floor_bounds(n as nat);
        lemma2_to64_rest();
        if log2_floor(n as nat) >= 64 {
            lemma_pow2_le(64, log2_floor(n as nat));
        }
    }
    let mut x: u64 = n;
    let mut r: u32 = 0;
    while x >= 2
        invariant
            x >= 1,
            r + log2_floor(x as nat) == log2_floor(n as nat),
            log2_floor(n as nat) < 64,
        decreases x,
    {
        x = x / 2;
        r = r + 1;
    }
    r
}

/// `sig * 2^k` rounded to the nearest integer, halves upward.
pub fn round_scaled_u64(sig: u64, k: i128) -> (r: u64)
    requires
        k < 64,
        k >= 0 ==> sig * pow2(k as nat) <= u64::MAX,
    ensures
        r == round_scaled(sig as nat, k as int),
{
    if k >= 0 {
        let unit = pow2_u64(k as u32);
        sig * unit
    } else if k < -64 {
        proof {
            let s = (-k) as nat;
            lemma2_to64_rest();
            lemma_pow2_le(64, (s - 1) as nat);
            lemma_pow2_unfold(s);
            lemma_basic_div(sig + pow2((s - 1) as nat), pow2(s) as int);
        }
        0
    } else {
        let half = pow2_u64((-k - 1) as u32);
        let t = sig / half;
        proof {
            let s = (-k) as nat;
            let d = pow2((s - 1) as nat);
            lemma_pow2_unfold(s);
            lemma_hoist_over_denominator(sig as int, 1, d);
            lemma_div_denominator(sig + d, d as int, 2);
            assert((t + 1) / 2 == t / 2 + t % 2) by (nonlinear_arith);
        }
        t / 2 + t % 2
    }
}

/// A value below `2^b`, scaled by `2^k` and rounded, stays at most `2^n`
/// when `b + k <= n`.
pub proof fn lemma_round_scaled_bound(sig: nat, k: int, b: nat, n: nat)
    requires
        sig < pow2(b),
        b + k <= n,
    ensures
        round_scaled(sig, k) <= pow2(n),
{
    if k >= 0 {
        lemma_pow2_pos(k as nat);
        lemma_mul_strict_inequality(sig as int, pow2(b) as int, pow2(k as nat) as int);
        lemma_pow2_adds(b, k as nat);
        lemma_pow2_le(b + k as nat, n);
    } else {
        let s = (-k) as nat;
        let unit = pow2(s);
        let half = pow2((s - 1) as nat);
        lemma_pow2_pos(s);
        lemma_pow2_unfold(s);
        lemma_pow2_le(b, n + s);
        lemma_pow2_adds(n, s);
        let top: int = pow2(n) * unit + (unit - 1);
        assert(sig + half <= top);
        lemma_div_is_ordered((sig + half) as int, top as int, unit as int);
        lemma_mul_is_commutative(pow2(n) as int, unit as int);
        lemma_div_multiples_vanish_fancy(pow2(n) as int, unit - 1, unit as int);
    }
}

/// Rounding is exact when scaling up, and otherwise lands within half a
/// step of the exact quotient, a tie going up:
/// `q * 2^s - 2^(s-1) <= sig < q * 2^s + 2^(s-1)` for `s = -k`.
pub proof fn lemma_round_scaled_nearest(sig: nat, k: int)
    ensures
        k >= 0 ==> round_scaled(sig, k) == sig * pow2(k as nat),
        k < 0 ==> {
            let step = pow2((-k) as nat);
            let half = pow2((-k - 1) as nat);
            &&& round_scaled(sig, k) * step <= sig + half
            &&& sig + half < round_scaled(sig, k) * step + step
        },
{
    if k < 0 {
        let s = (-k) as nat;
        let step = pow2(s);
        let half = pow2((s - 1) as nat);
        lemma_pow2_pos(s);
        lemma_fundamental_div_mod((sig + half) as int, step as int);
        lemma_mod_bound((sig + half) as int, step as int);
        lemma_mul_is_commutative(step as int, ((sig + half) / step) as int);
    }
}

/// A value at least `2^b`, scaled by `2^k` and rounded, is at least `2^n`
/// when `b + k == n`.
pub proof fn lemma_round_scaled_lower(sig: nat, k: int, b: nat, n: nat)
    requires
        pow2(b) <= sig,
        b + k == n,
    ensures
        pow2(n) <= round_scaled(sig, k),
{
    if k >= 0 {
        lemma_pow2_pos(k as nat);
        lemma_mul_inequality(pow2(b) as int, sig as int, pow2(k as nat) as int);
        lemma_pow2_adds(b, k as nat);
    } else {
        let s = (-k) as nat;
        lemma_pow2_pos(s);
        lemma_pow2_adds(n, s);
        lemma_div_is_ordered(pow2(b) as int, (sig + pow2((s - 1) as nat)) as int, pow2(s) as int);
        lemma_div_multiples_vanish_fancy(pow2(n) as int, 0, pow2(s) as int);
        lemma_mul_is_commutative(pow2(n) as int, pow2(s) as int);
    }
}

} // verus!

