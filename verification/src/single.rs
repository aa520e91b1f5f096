//! IEEE-754 single precision numbers, read from their 32-bit encoding.
//!
//! Nothing here computes with floating point: a number is taken apart into
//! integers, and the fraction it stands for is stated over those.

use crate::math::{gcd_of, lemma_gcd_halve_right, lemma_gcd_one, lemma_gcd_positive, lemma_gcd_scales};
use crate::ratio::{lemma_normalized, magnitude, Ratio};
use crate::sign::Sign;
use vstd::arithmetic::power2::{
    lemma2_to64, lemma2_to64_rest, lemma_pow2_pos, lemma_pow2_strictly_increases,
    lemma_pow2_unfold, pow2,
};
use vstd::prelude::*;

verus! {

/// The low 23 bits: the stored part of the significand.
pub open spec fn fraction_field(bits: u32) -> nat {
    (bits % 0x80_0000) as nat
}

/// The 8 bits above the fraction: the biased exponent.
pub open spec fn exponent_field(bits: u32) -> nat {
    ((bits / 0x80_0000) % 0x100) as nat
}

/// The top bit: set for a negative number.
pub open spec fn sign_field(bits: u32) -> nat {
    (bits / 0x8000_0000) as nat
}

/// The encoding stands for a number, not for an infinity or a NaN.
pub open spec fn is_finite(bits: u32) -> bool {
    exponent_field(bits) != 0xff
}

/// The integer significand: the fraction with its implicit leading bit, or
/// twice the fraction for a subnormal number.
pub open spec fn mantissa(bits: u32) -> nat {
    if exponent_field(bits) == 0 {
        2 * fraction_field(bits)
    } else {
        fraction_field(bits) + 0x80_0000
    }
}

/// The power of two that the mantissa is scaled by.
pub open spec fn exponent(bits: u32) -> int {
    exponent_field(bits) - 150
}

/// The sign that the top bit encodes.
pub open spec fn sign_of(bits: u32) -> Sign {
    if sign_field(bits) == 0 {
        Sign::Positive
    } else {
        Sign::Negative
    }
}

/// The fraction `mantissa * 2^exponent` under `sign`, in lowest terms; zero
/// is `+0/1` under either sign.
pub open spec fn scaled(sign: Sign, mantissa: nat, exponent: int) -> Ratio {
    if mantissa == 0 {
        Ratio::zero()
    } else if exponent >= 0 {
        Ratio::normalized(sign, mantissa * pow2(exponent as nat), 1)
    } else {
        Ratio::normalized(sign, mantissa, pow2((-exponent) as nat))
    }
}

/// The number that a finite encoding stands for, exactly.
pub open spec fn value(bits: u32) -> Ratio {
    scaled(sign_of(bits), mantissa(bits), exponent(bits))
}

/// An odd number has no factor in common with a power of two.
pub proof fn lemma_odd_and_power_of_two(m: nat, k: nat)
    requires
        m % 2 == 1,
    ensures
        gcd_of(m, pow2(k)) == 1,
    decreases k,
{
    if k == 0 {
        lemma2_to64();
        lemma_gcd_one(m);
    } else {
        lemma_pow2_unfold(k);
        lemma_odd_and_power_of_two(m, (k - 1) as nat);
        lemma_gcd_halve_right(m, pow2((k - 1) as nat));
    }
}

/// An even mantissa under a negative exponent can be halved, the exponent
/// going up by one: the number stays the same.
pub proof fn lemma_scaled_halve(sign: Sign, m: nat, e: int)
    requires
        m > 0,
        m % 2 == 0,
        e < 0,
    ensures
        scaled(sign, m, e) == scaled(sign, m / 2, e + 1),
{
    let k = (-e) as nat;
    let h = m / 2;
    let p = pow2((k - 1) as nat);
    lemma_pow2_unfold(k);
    lemma_pow2_pos((k - 1) as nat);
    let g = gcd_of(h, p);
    lemma_gcd_scales(2, h, p);
    lemma_gcd_positive(h, p);
    assert((2 * h) / (2 * g) == h / g && (2 * p) / (2 * g) == p / g) by (nonlinear_arith)
        requires
            g > 0,
    ;
    if e + 1 == 0 {
        lemma2_to64();
        lemma_scaled_whole(sign, h, 0);
        lemma_gcd_one(h);
        assert(h * pow2(0) == h) by (nonlinear_arith)
            requires
                pow2(0) == 1,
        ;
        assert(h / 1 == h && p / 1 == p);
    }
}

/// A whole number is left as it is when it is brought to lowest terms.
pub proof fn lemma_scaled_whole(sign: Sign, m: nat, e: int)
    requires
        m > 0,
        e >= 0,
    ensures
        scaled(sign, m, e) == (Ratio { sign, num: m * pow2(e as nat), den: 1 }),
{
    let n = m * pow2(e as nat);
    lemma_gcd_one(n);
    assert(n / 1 == n);
}

/// An odd mantissa over a power of two is in lowest terms.
pub proof fn lemma_scaled_odd(sign: Sign, m: nat, e: int)
    requires
        m % 2 == 1,
        e < 0,
    ensures
        scaled(sign, m, e) == (Ratio { sign, num: m, den: pow2((-e) as nat) }),
{
    let p = pow2((-e) as nat);
    lemma_odd_and_power_of_two(m, (-e) as nat);
    assert(m / 1 == m && p / 1 == p);
}

/// A power of two fits in 64 bits exactly when its exponent is below 64.
pub proof fn lemma_pow2_fits(k: nat)
    ensures
        pow2(k) <= u64::MAX <==> k < 64,
{
    lemma2_to64();
    lemma2_to64_rest();
    if k < 63 {
        lemma_pow2_strictly_increases(k, 63);
    } else if k > 64 {
        lemma_pow2_strictly_increases(64, k);
    }
}

/// The value of an encoding is well formed, in lowest terms, and stands for
/// the mantissa times two to the power of the exponent, under the sign.
pub proof fn lemma_value_is_exact(bits: u32)
    ensures
        value(bits).wf(),
        value(bits).reduced(),
        exponent(bits) >= 0 ==> value(bits).same_value(
            Ratio {
                sign: sign_of(bits),
                num: mantissa(bits) * pow2(exponent(bits) as nat),
                den: 1,
            },
        ),
        exponent(bits) < 0 ==> value(bits).same_value(
            Ratio {
                sign: sign_of(bits),
                num: mantissa(bits),
                den: pow2((-exponent(bits)) as nat),
            },
        ),
{
    let m = mantissa(bits);
    let e = exponent(bits);
    if m == 0 {
        let p = pow2(magnitude(e));
        assert(m * p == 0 && 0 * p == 0) by (nonlinear_arith)
            requires
                m == 0,
        ;
    } else if e >= 0 {
        lemma_normalized(sign_of(bits), m * pow2(e as nat), 1);
    } else {
        lemma_pow2_pos((-e) as nat);
        lemma_normalized(sign_of(bits), m, pow2((-e) as nat));
    }
}

/// Whether `bits` encodes a number.
pub fn finite(bits: u32) -> (r: bool)
    ensures
        r == is_finite(bits),
{
    assert((bits >> 23) & 0xff == (bits / 0x80_0000) % 0x100) by (bit_vector);
    (bits >> 23) & 0xff != 0xff
}

/// Takes `bits` apart into mantissa, exponent and sign (`1` or `-1`), so
/// that the number encoded is `sign * mantissa * 2^exponent`.
pub fn decode(bits: u32) -> (r: (u64, i16, i8))
    ensures
        r.0 == mantissa(bits),
        r.0 < 0x100_0000,
        r.1 == exponent(bits),
        -150 <= r.1 <= 105,
        r.2 == 1 || r.2 == -1,
        (r.2 == 1) == (sign_of(bits) == Sign::Positive),
{
    assert(bits >> 31 == bits / 0x8000_0000) by (bit_vector);
    assert((bits >> 23) & 0xff == (bits / 0x80_0000) % 0x100) by (bit_vector);
    assert(bits & 0x7f_ffff == bits % 0x80_0000) by (bit_vector);
    let sign: i8 = if bits >> 31 == 0 {
        1
    } else {
        -1
    };
    let field: u32 = (bits >> 23) & 0xff;
    let fraction: u32 = bits & 0x7f_ffff;
    assert(fraction << 1 == 2 * fraction) by (bit_vector)
        requires
            fraction < 0x80_0000,
    ;
    assert(fraction | 0x80_0000 == fraction + 0x80_0000) by (bit_vector)
        requires
            fraction < 0x80_0000,
    ;
    let mantissa: u32 = if field == 0 {
        fraction << 1
    } else {
        fraction | 0x80_0000
    };
    let exponent: i16 = field as i16 - 150;
    (mantissa as u64, exponent, sign)
}

} // verus!
