//! Greatest common divisors and exact division: the number theory that
//! the reduction of directions rests on.
use crate::bignum::{abs, trunc_div, trunc_rem};
use vstd::arithmetic::div_mod::{
    lemma_div_multiples_vanish, lemma_fundamental_div_mod, lemma_fundamental_div_mod_converse,
    lemma_mod_multiples_basic,
};
use vstd::prelude::*;

verus! {

/// Greatest common divisor by Euclid's algorithm; `gcd(0, 0) == 0`.
pub open spec fn gcd(a: nat, b: nat) -> nat
    decreases b,
{
    if b == 0 {
        a
    } else {
        gcd(b, a % b)
    }
}

/// Greatest common divisor of three numbers.
pub open spec fn gcd3(a: nat, b: nat, c: nat) -> nat {
    gcd(gcd(a, b), c)
}

/// `d` divides `x` (for a positive `d`).
pub open spec fn divides(d: nat, x: int) -> bool {
    d > 0 && x % (d as int) == 0
}

pub proof fn lemma_gcd_zero(a: nat, b: nat)
    ensures
        gcd(a, b) == 0 <==> (a == 0 && b == 0),
    decreases b,
{
    if b > 0 {
        lemma_gcd_zero(b, a % b);
    }
}

pub proof fn lemma_linear_combination_divisible(x: int, y: int, q: int, d: int)
    requires
        d > 0,
        x % d == 0,
        y % d == 0,
    ensures
        (x * q + y) % d == 0,
{
    lemma_fundamental_div_mod(x, d);
    lemma_fundamental_div_mod(y, d);
    let kx = x / d;
    let ky = y / d;
    assert(x * q + y == (kx * q + ky) * d) by (nonlinear_arith)
        requires
            x == d * kx,
            y == d * ky,
    ;
    lemma_mod_multiples_basic(kx * q + ky, d);
}

/// The gcd divides both arguments.
pub proof fn lemma_gcd_divides(a: nat, b: nat)
    requires
        gcd(a, b) > 0,
    ensures
        divides(gcd(a, b), a as int),
        divides(gcd(a, b), b as int),
    decreases b,
{
    let g = gcd(a, b);
    if b == 0 {
        lemma_mod_multiples_basic(1, a as int);
        lemma_mod_multiples_basic(0, a as int);
    } else {
        let r = a % b;
        lemma_gcd_divides(b, r);
        lemma_fundamental_div_mod(a as int, b as int);
        let q = (a / b) as int;
        assert(a as int == b as int * q + r as int);
        lemma_linear_combination_divisible(b as int, r as int, q, g as int);
    }
}

/// Scaling both dividend and divisor scales the remainder.
pub proof fn lemma_mod_scale(a: nat, b: nat, k: nat)
    requires
        b > 0,
        k > 0,
    ensures
        (k * a) % (k * b) == k * (a % b),
{
    lemma_fundamental_div_mod(a as int, b as int);
    let q = (a / b) as int;
    let r = (a % b) as int;
    assert(k * a == q * (k * b) + k * r && 0 <= k * r < k * b) by (nonlinear_arith)
        requires
            a == b * q + r,
            0 <= r < b,
            k > 0,
    ;
    lemma_fundamental_div_mod_converse((k * a) as int, (k * b) as int, q, k * r);
}

/// `gcd(k a, k b) == k gcd(a, b)`.
pub proof fn lemma_gcd_scale(a: nat, b: nat, k: nat)
    ensures
        gcd(k * a, k * b) == k * gcd(a, b),
    decreases b,
{
    if k == 0 {
        assert(k * a == 0 && k * b == 0);
        assert(k * gcd(a, b) == 0);
    } else if b == 0 {
        assert(k * b == 0);
    } else {
        assert(k * b > 0) by (nonlinear_arith)
            requires
                k > 0,
                b > 0,
        ;
        lemma_mod_scale(a, b, k);
        lemma_gcd_scale(b, a % b, k);
        assert(gcd(k * a, k * b) == gcd(k * b, (k * a) % (k * b)));
    }
}

pub proof fn lemma_gcd3_zero(a: nat, b: nat, c: nat)
    ensures
        gcd3(a, b, c) == 0 <==> (a == 0 && b == 0 && c == 0),
{
    lemma_gcd_zero(gcd(a, b), c);
    lemma_gcd_zero(a, b);
}

pub proof fn lemma_gcd3_divides(a: nat, b: nat, c: nat)
    requires
        gcd3(a, b, c) > 0,
    ensures
        divides(gcd3(a, b, c), a as int),
        divides(gcd3(a, b, c), b as int),
        divides(gcd3(a, b, c), c as int),
{
    let g = gcd3(a, b, c);
    let h = gcd(a, b);
    lemma_gcd_divides(h, c);
    if h == 0 {
        lemma_gcd_zero(a, b);
        lemma_mod_multiples_basic(0, g as int);
    } else {
        lemma_gcd_divides(a, b);
        lemma_fundamental_div_mod(h as int, g as int);
        let m = h as int / g as int;
        lemma_fundamental_div_mod(a as int, h as int);
        lemma_fundamental_div_mod(b as int, h as int);
        let qa = a as int / h as int;
        let qb = b as int / h as int;
        assert(a as int == (m * qa) * g && b as int == (m * qb) * g) by (nonlinear_arith)
            requires
                h as int == g * m,
                a as int == h * qa,
                b as int == h * qb,
        ;
        lemma_mod_multiples_basic(m * qa, g as int);
        lemma_mod_multiples_basic(m * qb, g as int);
    }
}

/// `gcd3(k a, k b, k c) == k gcd3(a, b, c)`.
pub proof fn lemma_gcd3_scale(a: nat, b: nat, c: nat, k: nat)
    ensures
        gcd3(k * a, k * b, k * c) == k * gcd3(a, b, c),
{
    lemma_gcd_scale(a, b, k);
    lemma_gcd_scale(gcd(a, b), c, k);
}

/// An integer whose absolute value a positive `d` divides is `d` times its quotient.
pub proof fn lemma_exact_quotient(x: int, d: int)
    requires
        d > 0,
        abs(x) as int % d == 0,
    ensures
        x == d * (x / d),
        abs(x / d) == abs(x) as int / d,
        abs(x) == d * abs(x / d),
        trunc_div(x, d) == x / d,
{
    lemma_fundamental_div_mod(abs(x) as int, d);
    let m = abs(x) as int / d;
    if x >= 0 {
        assert(x == d * m);
        lemma_div_multiples_vanish(m, d);
    } else {
        assert(x == d * (-m)) by (nonlinear_arith)
            requires
                -x == d * m,
        ;
        lemma_div_multiples_vanish(-m, d);
        assert(m >= 0) by (nonlinear_arith)
            requires
                d * m == -x,
                x < 0,
                d > 0,
        ;
    }
}

/// The remainder rounded toward zero has the magnitude of the Euclidean
/// remainder of the magnitudes, and the sign of the dividend.
pub proof fn lemma_trunc_rem(a: int, b: int)
    requires
        b != 0,
    ensures
        abs(trunc_rem(a, b)) == abs(a) % abs(b),
        a >= 0 ==> trunc_rem(a, b) >= 0,
{
    let aa = abs(a) as int;
    let bb = abs(b) as int;
    lemma_fundamental_div_mod(aa, bb);
    let q = aa / bb;
    let r = aa % bb;
    assert(0 <= r < bb);
    if a >= 0 && b > 0 {
        assert(trunc_rem(a, b) == a - b * q);
    } else if a >= 0 {
        assert(b * (-q) == bb * q) by (nonlinear_arith)
            requires
                bb == -b,
        ;
        assert(trunc_rem(a, b) == a - b * (-q));
    } else if b > 0 {
        assert(b * (-q) == -(bb * q)) by (nonlinear_arith)
            requires
                bb == b,
        ;
        assert(trunc_rem(a, b) == a - b * (-q));
    } else {
        assert(b * q == -(bb * q)) by (nonlinear_arith)
            requires
                bb == -b,
        ;
        assert(trunc_rem(a, b) == a - b * q);
    }
}

/// `x` is `d` times an integer exactly when `d` divides it.
pub proof fn lemma_divides_witness(d: nat, x: int, q: int)
    requires
        d > 0,
        x == d * q,
    ensures
        divides(d, x),
        x / (d as int) == q,
{
    lemma_mod_multiples_basic(q, d as int);
    assert(q * d == d * q) by (nonlinear_arith);
    lemma_div_multiples_vanish(q, d as int);
}

/// A divisor gives an exact quotient.
pub proof fn lemma_divides_quotient(d: nat, x: int)
    requires
        divides(d, x),
    ensures
        x == d * (x / (d as int)),
{
    lemma_fundamental_div_mod(x, d as int);
}

/// Divisibility is transitive.
pub proof fn lemma_divides_transitive(e: nat, d: nat, x: int)
    requires
        divides(e, d as int),
        divides(d, x),
    ensures
        divides(e, x),
{
    lemma_divides_quotient(e, d as int);
    lemma_divides_quotient(d, x);
    let q1 = d as int / e as int;
    let q2 = x / d as int;
    assert(x == e * (q1 * q2)) by (nonlinear_arith)
        requires
            d == e * q1,
            x == d * q2,
    ;
    lemma_divides_witness(e, x, q1 * q2);
}

/// A positive divisor of a positive number is at most that number.
pub proof fn lemma_divides_le(d: nat, x: nat)
    requires
        divides(d, x as int),
        x > 0,
    ensures
        d <= x,
{
    lemma_divides_quotient(d, x as int);
    let q = x as int / d as int;
    assert(d <= x) by (nonlinear_arith)
        requires
            x == d * q,
            x > 0,
            d > 0,
    ;
}

/// A common divisor of `a` and `b` divides `gcd(a, b)`.
pub proof fn lemma_common_divisor_divides_gcd(d: nat, a: nat, b: nat)
    requires
        divides(d, a as int),
        divides(d, b as int),
    ensures
        divides(d, gcd(a, b) as int),
    decreases b,
{
    if b > 0 {
        lemma_fundamental_div_mod(a as int, b as int);
        let q = a as int / b as int;
        assert(b as int * (-q) == -(b as int * q)) by (nonlinear_arith);
        assert(b as int * (-q) + a as int == (a % b) as int);
        lemma_linear_combination_divisible(b as int, a as int, -q, d as int);
        lemma_common_divisor_divides_gcd(d, b, a % b);
    }
}

/// `gcd(a, b) == gcd(b, a)`.
pub proof fn lemma_gcd_commutative(a: nat, b: nat)
    ensures
        gcd(a, b) == gcd(b, a),
{
    let g = gcd(a, b);
    let h = gcd(b, a);
    lemma_gcd_zero(a, b);
    lemma_gcd_zero(b, a);
    if g > 0 {
        lemma_gcd_divides(a, b);
        lemma_gcd_divides(b, a);
        lemma_common_divisor_divides_gcd(g, b, a);
        lemma_common_divisor_divides_gcd(h, a, b);
        lemma_divides_le(g, h);
        lemma_divides_le(h, g);
    }
}

/// A positive divisor of 1 is 1.
pub proof fn lemma_divides_one(d: nat)
    requires
        divides(d, 1),
    ensures
        d == 1,
{
    lemma_divides_le(d, 1);
}

/// Euclid's lemma: if `a` divides `b c` and shares no factor with `b`, it divides `c`.
pub proof fn lemma_euclid_coprime(a: nat, b: nat, c: nat)
    requires
        gcd(a, b) == 1,
        divides(a, (b * c) as int),
    ensures
        divides(a, c as int),
{
    lemma_gcd_scale(a, b, c);
    assert(c * a == a * c && c * b == b * c) by (nonlinear_arith);
    assert(gcd(a * c, b * c) == c);
    lemma_divides_witness(a, (a * c) as int, c as int);
    lemma_common_divisor_divides_gcd(a, a * c, b * c);
}

/// A number prime to `b` and to `c` is prime to `b c`.
pub proof fn lemma_coprime_product(a: nat, b: nat, c: nat)
    requires
        gcd(a, b) == 1,
        gcd(a, c) == 1,
    ensures
        gcd(a, b * c) == 1,
{
    let d = gcd(a, b * c);
    lemma_gcd_zero(a, b * c);
    if a == 0 {
        reveal_with_fuel(gcd, 2);
        assert(b == 1 && c == 1);
        assert(b * c == 1);
    } else {
        lemma_gcd_divides(a, b * c);
        let e = gcd(d, b);
        lemma_gcd_zero(d, b);
        lemma_gcd_divides(d, b);
        lemma_divides_transitive(e, d, a as int);
        lemma_common_divisor_divides_gcd(e, a, b);
        lemma_divides_one(e);
        lemma_euclid_coprime(d, b, c);
        lemma_common_divisor_divides_gcd(d, a, c);
        lemma_divides_one(d);
    }
}

/// If `d²` divides `x²` then `d` divides `x`.
pub proof fn lemma_square_divides(d: nat, x: nat)
    requires
        d > 0,
        divides(d * d, (x * x) as int),
    ensures
        divides(d, x as int),
{
    if x == 0 {
        lemma_divides_witness(d, 0, 0);
    } else {
        let e = gcd(d, x);
        lemma_gcd_zero(d, x);
        lemma_gcd_divides(d, x);
        lemma_divides_quotient(e, d as int);
        lemma_divides_quotient(e, x as int);
        let d1i = d as int / e as int;
        let x1i = x as int / e as int;
        assert(d1i > 0 && x1i > 0) by (nonlinear_arith)
            requires
                d as int == e * d1i,
                x as int == e * x1i,
                d > 0,
                x > 0,
                e > 0,
        ;
        let d1 = d1i as nat;
        let x1 = x1i as nat;
        lemma_gcd_scale(d1, x1, e);
        assert(e * gcd(d1, x1) == e * 1) by (nonlinear_arith)
            requires
                e * gcd(d1, x1) == e,
        ;
        assert(gcd(d1, x1) == 1) by (nonlinear_arith)
            requires
                e * gcd(d1, x1) == e * 1,
                e > 0,
        ;
        lemma_divides_quotient(d * d, (x * x) as int);
        let q = (x * x) as int / (d * d) as int;
        assert(x1 * x1 == (d1 * d1) * q) by (nonlinear_arith)
            requires
                x * x == (d * d) * q,
                d == e * d1,
                x == e * x1,
                e > 0,
        ;
        assert(x1 * x1 == d1 * (d1 * q)) by (nonlinear_arith)
            requires
                x1 * x1 == (d1 * d1) * q,
        ;
        lemma_divides_witness(d1, (x1 * x1) as int, d1 * q);
        lemma_coprime_product(d1, x1, x1);
        lemma_divides_witness(d1, d1 as int, 1);
        lemma_common_divisor_divides_gcd(d1, d1, x1 * x1);
        lemma_divides_one(d1);
        assert(d == e);
    }
}

/// Coprime factors of a square are squares: if `u v = w²` and
/// `gcd(u, v) = 1` then `u = gcd(u, w)²`.
pub proof fn lemma_coprime_square_factor(u: nat, v: nat, w: nat)
    requires
        u > 0,
        v > 0,
        gcd(u, v) == 1,
        u * v == w * w,
    ensures
        u == gcd(u, w) * gcd(u, w),
{
    let d = gcd(u, w);
    lemma_gcd_zero(u, w);
    lemma_gcd_divides(u, w);
    lemma_divides_quotient(d, u as int);
    lemma_divides_quotient(d, w as int);
    let u1i = u as int / d as int;
    let w1i = w as int / d as int;
    assert(u1i > 0 && w1i >= 0) by (nonlinear_arith)
        requires
            u as int == d * u1i,
            w as int == d * w1i,
            u > 0,
            d > 0,
    ;
    let u1 = u1i as nat;
    let w1 = w1i as nat;
    assert(w1 >= 0 && w as int == d * w1);
    lemma_gcd_scale(u1, w1, d);
    assert(gcd(u1, w1) == 1) by (nonlinear_arith)
        requires
            d * gcd(u1, w1) == d,
            d > 0,
    ;
    // u1 v = d w1²
    assert(u1 * v == (w1 * w1) * d) by (nonlinear_arith)
        requires
            u == d * u1,
            w == d * w1,
            u * v == w * w,
            d > 0,
    ;
    lemma_divides_witness(u1, (u1 * v) as int, v as int);
    lemma_coprime_product(u1, w1, w1);
    lemma_euclid_coprime(u1, w1 * w1, d);
    // d divides u1: d (d w1²) = d u1 v, so d w1² = u1 v
    assert(v * u1 == d * (w1 * w1)) by (nonlinear_arith)
        requires
            u1 * v == (w1 * w1) * d,
    ;
    lemma_divides_witness(d, (v * u1) as int, (w1 * w1) as int);
    let e = gcd(d, v);
    lemma_gcd_zero(d, v);
    lemma_gcd_divides(d, v);
    lemma_divides_transitive(e, d, u as int);
    lemma_common_divisor_divides_gcd(e, u, v);
    lemma_divides_one(e);
    lemma_euclid_coprime(d, v, u1);
    lemma_divides_le(d, u1);
    lemma_divides_le(u1, d);
}

} // verus!
