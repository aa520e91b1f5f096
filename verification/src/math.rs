//! The integer kernel: greatest common divisor and decimal digit count.

use vstd::arithmetic::div_mod::lemma_mod_multiples_basic;
use vstd::arithmetic::power2::{
    lemma2_to64, lemma2_to64_rest, lemma_pow2_strictly_increases, lemma_pow2_unfold, pow2,
};
use vstd::bits::lemma_u64_shl_is_mul;
use vstd::prelude::*;

verus! {

/// The greatest common divisor of two naturals, by repeated subtraction.
/// `gcd_of(x, 0) == x` and `gcd_of(0, x) == x`, so `gcd_of(0, 0) == 0`.
pub open spec fn gcd_of(a: nat, b: nat) -> nat
    decreases a + b,
{
    if a == 0 {
        b
    } else if b == 0 {
        a
    } else if a >= b {
        gcd_of((a - b) as nat, b)
    } else {
        gcd_of(a, (b - a) as nat)
    }
}

/// `d` is a positive divisor of `n`.
pub open spec fn divides(d: nat, n: nat) -> bool {
    d > 0 && n % d == 0
}

/// The number of decimal digits of `n`; zero has one digit.
pub open spec fn decimal_len(n: nat) -> nat
    decreases n,
{
    if n < 10 {
        1
    } else {
        1 + decimal_len(n / 10)
    }
}

/// The largest value that can remain after `len - 1` divisions of a `u64` by
/// ten.
spec fn remainder_cap(len: nat) -> nat
    decreases len,
{
    if len <= 1 {
        u64::MAX as nat
    } else {
        remainder_cap((len - 1) as nat) / 10
    }
}

/// A positive `d` divides each of its multiples.
proof fn lemma_divides_multiple(d: nat, k: nat)
    requires
        d > 0,
    ensures
        divides(d, d * k),
{
    lemma_mod_multiples_basic(k as int, d as int);
    assert(d * k == k * d) by (nonlinear_arith);
}

/// What a positive divisor `d` of `n` is multiplied by to give `n`.
proof fn lemma_divides_witness(d: nat, n: nat) -> (k: nat)
    requires
        divides(d, n),
    ensures
        n == d * k,
{
    let k = n / d;
    assert(n == d * k) by (nonlinear_arith)
        requires
            d > 0,
            n % d == 0,
            k == n / d,
    ;
    k
}

/// A common divisor of two numbers divides their difference.
proof fn lemma_divides_difference(d: nat, a: nat, b: nat)
    requires
        divides(d, a),
        divides(d, b),
        a >= b,
    ensures
        divides(d, (a - b) as nat),
{
    let p = lemma_divides_witness(d, a);
    let q = lemma_divides_witness(d, b);
    assert(p >= q && a - b == d * (p - q)) by (nonlinear_arith)
        requires
            d > 0,
            a == d * p,
            b == d * q,
            a >= b,
    ;
    lemma_divides_multiple(d, (p - q) as nat);
}

/// A common divisor of two numbers divides their sum.
proof fn lemma_divides_sum(d: nat, a: nat, b: nat)
    requires
        divides(d, a),
        divides(d, b),
    ensures
        divides(d, a + b),
{
    let p = lemma_divides_witness(d, a);
    let q = lemma_divides_witness(d, b);
    assert(a + b == d * (p + q)) by (nonlinear_arith)
        requires
            a == d * p,
            b == d * q,
    ;
    lemma_divides_multiple(d, p + q);
}

/// A divisor of a number divides its double.
proof fn lemma_divides_double(d: nat, a: nat)
    requires
        divides(d, a),
    ensures
        divides(d, 2 * a),
{
    lemma_divides_sum(d, a, a);
}

/// An odd divisor of `2 * a` divides `a`.
proof fn lemma_odd_divisor_of_double(d: nat, a: nat)
    requires
        divides(d, 2 * a),
        d % 2 == 1,
    ensures
        divides(d, a),
{
    let k = lemma_divides_witness(d, 2 * a);
    let h = d / 2;
    let j = k / 2;
    assert(d == 2 * h + 1);
    if k % 2 == 1 {
        assert(k == 2 * j + 1);
        assert(d * k == 2 * (2 * h * j + h + j) + 1) by (nonlinear_arith)
            requires
                d == 2 * h + 1,
                k == 2 * j + 1,
        ;
        assert(false);
    }
    assert(k == 2 * j);
    assert(a == d * j) by (nonlinear_arith)
        requires
            2 * a == d * k,
            k == 2 * j,
    ;
    lemma_divides_multiple(d, j);
}

/// Two positive naturals that divide each other are equal.
proof fn lemma_mutual_divisors(a: nat, b: nat)
    requires
        divides(a, b),
        divides(b, a),
    ensures
        a == b,
{
    assert(a <= b) by (nonlinear_arith)
        requires
            a > 0,
            b > 0,
            b % a == 0,
    ;
    assert(b <= a) by (nonlinear_arith)
        requires
            a > 0,
            b > 0,
            a % b == 0,
    ;
}

/// The greatest common divisor is positive unless both arguments are zero.
pub proof fn lemma_gcd_positive(a: nat, b: nat)
    requires
        a > 0 || b > 0,
    ensures
        gcd_of(a, b) > 0,
    decreases a + b,
{
    if a == 0 || b == 0 {
    } else if a >= b {
        lemma_gcd_positive((a - b) as nat, b);
    } else {
        lemma_gcd_positive(a, (b - a) as nat);
    }
}

/// The greatest common divisor divides both arguments.
pub proof fn lemma_gcd_divides(a: nat, b: nat)
    requires
        a > 0 || b > 0,
    ensures
        divides(gcd_of(a, b), a),
        divides(gcd_of(a, b), b),
    decreases a + b,
{
    let g = gcd_of(a, b);
    lemma_gcd_positive(a, b);
    if a == 0 {
        assert(b % b == 0) by (nonlinear_arith)
            requires
                b > 0,
        ;
    } else if b == 0 {
        assert(a % a == 0) by (nonlinear_arith)
            requires
                a > 0,
        ;
    } else if a >= b {
        lemma_gcd_divides((a - b) as nat, b);
        lemma_divides_sum(g, (a - b) as nat, b);
    } else {
        lemma_gcd_divides(a, (b - a) as nat);
        lemma_divides_sum(g, a, (b - a) as nat);
    }
}

/// Every common divisor of the arguments divides their greatest common
/// divisor.
pub proof fn lemma_gcd_greatest(a: nat, b: nat, d: nat)
    requires
        divides(d, a),
        divides(d, b),
        a > 0 || b > 0,
    ensures
        divides(d, gcd_of(a, b)),
    decreases a + b,
{
    if a == 0 || b == 0 {
    } else if a >= b {
        lemma_divides_difference(d, a, b);
        lemma_gcd_greatest((a - b) as nat, b, d);
    } else {
        lemma_divides_difference(d, b, a);
        lemma_gcd_greatest(a, (b - a) as nat, d);
    }
}

/// The greatest common divisor does not depend on the order of its
/// arguments.
pub proof fn lemma_gcd_symmetric(a: nat, b: nat)
    ensures
        gcd_of(a, b) == gcd_of(b, a),
    decreases a + b,
{
    if a == 0 || b == 0 {
    } else if a > b {
        lemma_gcd_symmetric((a - b) as nat, b);
    } else if a < b {
        lemma_gcd_symmetric(a, (b - a) as nat);
    }
}

/// With zero, the greatest common divisor is the other argument.
pub proof fn lemma_gcd_zero(a: nat)
    ensures
        gcd_of(a, 0) == a,
        gcd_of(0, a) == a,
{
}

/// With one, the greatest common divisor is one.
pub proof fn lemma_gcd_one(a: nat)
    ensures
        gcd_of(a, 1) == 1,
        gcd_of(1, a) == 1,
    decreases a,
{
    if a > 0 {
        lemma_gcd_one((a - 1) as nat);
    }
    lemma_gcd_symmetric(a, 1);
}

/// A common factor can be taken out of both arguments.
pub proof fn lemma_gcd_scales(k: nat, a: nat, b: nat)
    requires
        k > 0,
    ensures
        gcd_of(k * a, k * b) == k * gcd_of(a, b),
    decreases a + b,
{
    if a == 0 {
        assert(k * a == 0) by (nonlinear_arith)
            requires
                a == 0,
        ;
    } else if b == 0 {
        assert(k * b == 0) by (nonlinear_arith)
            requires
                b == 0,
        ;
        assert(k * a > 0) by (nonlinear_arith)
            requires
                k > 0,
                a > 0,
        ;
    } else {
        assert(k * a > 0 && k * b > 0) by (nonlinear_arith)
            requires
                k > 0,
                a > 0,
                b > 0,
        ;
        if a >= b {
            assert(k * a >= k * b && k * a - k * b == k * (a - b)) by (nonlinear_arith)
                requires
                    a >= b,
            ;
            lemma_gcd_scales(k, (a - b) as nat, b);
        } else {
            assert(k * a < k * b && k * b - k * a == k * (b - a)) by (nonlinear_arith)
                requires
                    k > 0,
                    a < b,
            ;
            lemma_gcd_scales(k, a, (b - a) as nat);
        }
    }
}

/// A factor of two in one argument can be dropped when the other argument
/// is odd.
pub proof fn lemma_gcd_halve_left(a: nat, b: nat)
    requires
        b % 2 == 1,
    ensures
        gcd_of(2 * a, b) == gcd_of(a, b),
{
    let g = gcd_of(2 * a, b);
    let h = gcd_of(a, b);
    lemma_gcd_divides(2 * a, b);
    lemma_gcd_divides(a, b);
    // h divides 2a and b, so h divides g
    lemma_divides_double(h, a);
    lemma_gcd_greatest(2 * a, b, h);
    // g divides the odd b, so g is odd, so g divides a
    if g % 2 == 0 {
        let q = lemma_divides_witness(g, b);
        let e = g / 2;
        assert(b == 2 * (e * q)) by (nonlinear_arith)
            requires
                b == g * q,
                g == 2 * e,
        ;
        assert(false);
    }
    lemma_odd_divisor_of_double(g, a);
    lemma_gcd_greatest(a, b, g);
    lemma_mutual_divisors(g, h);
}

/// A factor of two in the second argument can be dropped when the first
/// argument is odd.
pub proof fn lemma_gcd_halve_right(a: nat, b: nat)
    requires
        a % 2 == 1,
    ensures
        gcd_of(a, 2 * b) == gcd_of(a, b),
{
    lemma_gcd_symmetric(a, 2 * b);
    lemma_gcd_halve_left(b, a);
    lemma_gcd_symmetric(b, a);
}

/// Dividing both arguments by their greatest common divisor leaves a pair
/// with no common factor.
pub proof fn lemma_gcd_of_quotients(a: nat, b: nat)
    requires
        a > 0 || b > 0,
    ensures
        gcd_of(a / gcd_of(a, b), b / gcd_of(a, b)) == 1,
{
    let g = gcd_of(a, b);
    lemma_gcd_divides(a, b);
    let p = lemma_divides_witness(g, a);
    let q = lemma_divides_witness(g, b);
    assert(p == a / g && q == b / g) by (nonlinear_arith)
        requires
            g > 0,
            a == g * p,
            b == g * q,
    ;
    lemma_gcd_scales(g, p, q);
    let r = gcd_of(p, q);
    assert(r == 1) by (nonlinear_arith)
        requires
            g > 0,
            g == g * r,
    ;
}

/// A power of two that is no greater than a 64-bit number has an exponent
/// below 64.
proof fn lemma_small_power(k: nat)
    requires
        pow2(k) <= u64::MAX,
    ensures
        k < 64,
{
    lemma2_to64_rest();
    if k > 64 {
        lemma_pow2_strictly_increases(64, k);
    }
}

/// The greatest common divisor of `a` and `b`, by the binary method: the
/// factors of two that both share are taken out and counted, the remaining
/// factors of two are dropped from each, and the larger is reduced by the
/// smaller (and halved again) until both are equal. The result is the
/// common value times two to the power of that count.
///
/// `gcd(x, 0)` and `gcd(0, x)` are `x`; in particular `gcd(0, 0)` is `0`.
pub fn gcd(a: u64, b: u64) -> (g: u64)
    ensures
        g == gcd_of(a as nat, b as nat),
{
    if a == 0 {
        return b;
    }
    if b == 0 {
        return a;
    }
    let mut x: u64 = a;
    let mut y: u64 = b;
    let mut shared: u64 = 0;
    proof {
        lemma2_to64();
    }
    while x % 2 == 0 && y % 2 == 0
        invariant
            x > 0,
            y > 0,
            shared < 64,
            x * pow2(shared as nat) <= a,
            gcd_of(a as nat, b as nat) == pow2(shared as nat) * gcd_of(x as nat, y as nat),
        decreases x,
    {
        proof {
            let hx = (x / 2) as nat;
            let hy = (y / 2) as nat;
            let p = pow2(shared as nat);
            lemma_gcd_scales(2, hx, hy);
            lemma_pow2_unfold((shared + 1) as nat);
            assert((2 * p) * gcd_of(hx, hy) == p * (2 * gcd_of(hx, hy))) by (nonlinear_arith);
            assert((x / 2) * (2 * p) == x * p) by (nonlinear_arith)
                requires
                    x % 2 == 0,
            ;
            assert(2 * p <= a) by (nonlinear_arith)
                requires
                    (x / 2) * (2 * p) <= a,
                    x / 2 >= 1,
                    p >= 0,
            ;
            lemma_small_power((shared + 1) as nat);
        }
        x = x / 2;
        y = y / 2;
        shared = shared + 1;
    }
    let ghost p = pow2(shared as nat);
    while x % 2 == 0
        invariant
            x > 0,
            y > 0,
            x * p <= a,
            x % 2 == 1 || y % 2 == 1,
            gcd_of(a as nat, b as nat) == p * gcd_of(x as nat, y as nat),
        decreases x,
    {
        proof {
            lemma_gcd_halve_left((x / 2) as nat, y as nat);
            assert((x / 2) * p <= x * p) by (nonlinear_arith);
        }
        x = x / 2;
    }
    while y % 2 == 0
        invariant
            x > 0,
            y > 0,
            x * p <= a,
            x % 2 == 1,
            gcd_of(a as nat, b as nat) == p * gcd_of(x as nat, y as nat),
        decreases y,
    {
        proof {
            lemma_gcd_halve_right(x as nat, (y / 2) as nat);
        }
        y = y / 2;
    }
    while x != y
        invariant
            x > 0,
            y > 0,
            x * p <= a,
            x % 2 == 1,
            y % 2 == 1,
            gcd_of(a as nat, b as nat) == p * gcd_of(x as nat, y as nat),
        decreases x + y,
    {
        let ghost before = x + y;
        if x > y {
            proof {
                assert((x - y) * p <= x * p) by (nonlinear_arith)
                    requires
                        y > 0,
                        x > y,
                ;
            }
            x = x - y;
            while x % 2 == 0
                invariant
                    x > 0,
                    y > 0,
                    x * p <= a,
                    x + y < before,
                    y % 2 == 1,
                    gcd_of(a as nat, b as nat) == p * gcd_of(x as nat, y as nat),
                decreases x,
            {
                proof {
                    lemma_gcd_halve_left((x / 2) as nat, y as nat);
                    assert((x / 2) * p <= x * p) by (nonlinear_arith);
                }
                x = x / 2;
            }
        } else {
            y = y - x;
            while y % 2 == 0
                invariant
                    x > 0,
                    y > 0,
                    x * p <= a,
                    x + y < before,
                    x % 2 == 1,
                    gcd_of(a as nat, b as nat) == p * gcd_of(x as nat, y as nat),
                decreases y,
            {
                proof {
                    lemma_gcd_halve_right(x as nat, (y / 2) as nat);
                }
                y = y / 2;
            }
        }
    }
    proof {
        assert(gcd_of(x as nat, x as nat) == gcd_of(0, x as nat));
        assert(p * x == x * p) by (nonlinear_arith);
        lemma_u64_shl_is_mul(x, shared);
    }
    x << shared
}

/// The number of decimal digits of `n`: `1` for zero.
pub fn number_len(n: u64) -> (len: usize)
    ensures
        len == decimal_len(n as nat),
        1 <= len <= 20,
{
    let mut len: usize = 1;
    let mut rest: u64 = n;
    while rest >= 10
        invariant
            1 <= len <= 20,
            rest <= remainder_cap(len as nat),
            decimal_len(n as nat) == (len - 1) + decimal_len(rest as nat),
        decreases rest,
    {
        proof {
            reveal_with_fuel(remainder_cap, 21);
        }
        rest = rest / 10;
        len = len + 1;
    }
    len
}

} // verus!
