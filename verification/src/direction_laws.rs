//! What holds of every composition of directions: validity is kept (no
//! drift), composition is associative, the identity is neutral, and results
//! are in lowest terms.
use crate::arith::lemma_gcd3_scale;
use crate::bignum::abs;
use crate::direction::{
    canonical, compose_triples, content, identity_triple, is_pythagorean, is_zero_triple,
    lemma_content_divides, normalize, rotation_product,
};
use vstd::arithmetic::div_mod::{lemma_div_basics, lemma_div_multiples_vanish};
use vstd::arithmetic::mul::{
    lemma_mul_is_associative, lemma_mul_is_commutative, lemma_mul_is_distributive_add,
    lemma_mul_is_distributive_add_other_way, lemma_mul_is_distributive_sub,
    lemma_mul_is_distributive_sub_other_way,
};
use vstd::prelude::*;

verus! {

/// Every component multiplied by `k`.
pub open spec fn scale(t: (int, int, int), k: int) -> (int, int, int) {
    (k * t.0, k * t.1, k * t.2)
}

/// Every component negated.
pub open spec fn negate(t: (int, int, int)) -> (int, int, int) {
    (-t.0, -t.1, -t.2)
}

proof fn lemma_abs_scale(x: int, k: int)
    requires
        k > 0,
    ensures
        abs(k * x) == k * abs(x),
{
    if x < 0 {
        assert(k * x < 0 && -(k * x) == k * (-x)) by (nonlinear_arith)
            requires
                k > 0,
                x < 0,
        ;
    } else {
        assert(k * x >= 0) by (nonlinear_arith)
            requires
                k > 0,
                x >= 0,
        ;
    }
}

/// Scaling by a positive factor scales the content.
pub proof fn lemma_content_scale(t: (int, int, int), k: int)
    requires
        k > 0,
    ensures
        content(scale(t, k)) == k * content(t),
{
    lemma_abs_scale(t.0, k);
    lemma_abs_scale(t.1, k);
    lemma_abs_scale(t.2, k);
    lemma_gcd3_scale(abs(t.0), abs(t.1), abs(t.2), k as nat);
}

/// Scaling by a positive factor does not change the normalized triple.
pub proof fn lemma_normalize_scale(t: (int, int, int), k: int)
    requires
        k > 0,
        !is_zero_triple(t),
    ensures
        normalize(scale(t, k)) == normalize(t),
{
    lemma_content_scale(t, k);
    lemma_content_divides(t);
    let g = content(t) as int;
    let n = normalize(t);
    assert(k * g > 0) by (nonlinear_arith)
        requires
            k > 0,
            g > 0,
    ;
    assert(k * t.0 == (k * g) * n.0 && k * t.1 == (k * g) * n.1 && k * t.2 == (k * g) * n.2)
        by (nonlinear_arith)
        requires
            t.0 == g * n.0,
            t.1 == g * n.1,
            t.2 == g * n.2,
    ;
    lemma_div_multiples_vanish(n.0, k * g);
    lemma_div_multiples_vanish(n.1, k * g);
    lemma_div_multiples_vanish(n.2, k * g);
}

/// Negating a triple negates its normalized form.
pub proof fn lemma_normalize_negate(t: (int, int, int))
    requires
        !is_zero_triple(t),
    ensures
        normalize(negate(t)) == negate(normalize(t)),
{
    lemma_content_divides(t);
    assert(content(negate(t)) == content(t));
    let g = content(t) as int;
    let n = normalize(t);
    assert(-t.0 == g * (-n.0) && -t.1 == g * (-n.1) && -t.2 == g * (-n.2)) by (nonlinear_arith)
        requires
            t.0 == g * n.0,
            t.1 == g * n.1,
            t.2 == g * n.2,
    ;
    lemma_div_multiples_vanish(-n.0, g);
    lemma_div_multiples_vanish(-n.1, g);
    lemma_div_multiples_vanish(-n.2, g);
}

/// A triple with a nonzero third component has the canonical form of its negation.
pub proof fn lemma_canonical_negate(t: (int, int, int))
    requires
        t.2 != 0,
    ensures
        canonical(negate(t)) == canonical(t),
{
    lemma_normalize_negate(t);
    lemma_content_divides(t);
    let g = content(t) as int;
    let n = normalize(t);
    assert(n.2 != 0) by (nonlinear_arith)
        requires
            t.2 == g * n.2,
            t.2 != 0,
    ;
}

/// A triple is its canonical form times a nonzero factor.
pub proof fn lemma_canonical_factor(t: (int, int, int)) -> (m: int)
    requires
        !is_zero_triple(t),
    ensures
        m != 0,
        t == scale(canonical(t), m),
{
    lemma_content_divides(t);
    let g = content(t) as int;
    let n = normalize(t);
    if n.2 < 0 {
        assert(t.0 == (-g) * (-n.0) && t.1 == (-g) * (-n.1) && t.2 == (-g) * (-n.2))
            by (nonlinear_arith)
            requires
                t.0 == g * n.0,
                t.1 == g * n.1,
                t.2 == g * n.2,
        ;
        -g
    } else {
        g
    }
}

/// The rotation product is linear in its first argument.
pub proof fn lemma_product_scale_left(x: (int, int, int), y: (int, int, int), k: int)
    ensures
        rotation_product(scale(x, k), y) == scale(rotation_product(x, y), k),
{
    assert((k * x.0) * y.0 - (k * x.1) * y.1 == k * (x.0 * y.0 - x.1 * y.1)) by (nonlinear_arith);
    assert((k * x.0) * y.1 + (k * x.1) * y.0 == k * (x.0 * y.1 + x.1 * y.0)) by (nonlinear_arith);
    assert((k * x.2) * y.2 == k * (x.2 * y.2)) by (nonlinear_arith);
}

/// The rotation product is linear in its second argument.
pub proof fn lemma_product_scale_right(x: (int, int, int), y: (int, int, int), k: int)
    ensures
        rotation_product(x, scale(y, k)) == scale(rotation_product(x, y), k),
{
    assert(x.0 * (k * y.0) - x.1 * (k * y.1) == k * (x.0 * y.0 - x.1 * y.1)) by (nonlinear_arith);
    assert(x.0 * (k * y.1) + x.1 * (k * y.0) == k * (x.0 * y.1 + x.1 * y.0)) by (nonlinear_arith);
    assert(x.2 * (k * y.2) == k * (x.2 * y.2)) by (nonlinear_arith);
}

proof fn lemma_assoc_first(a0: int, a1: int, b0: int, b1: int, c0: int, c1: int)
    ensures
        (a0 * b0 - a1 * b1) * c0 - (a0 * b1 + a1 * b0) * c1 == a0 * (b0 * c0 - b1 * c1) - a1 * (
        b0 * c1 + b1 * c0),
{
    lemma_mul_is_distributive_sub_other_way(c0, a0 * b0, a1 * b1);
    lemma_mul_is_distributive_add_other_way(c1, a0 * b1, a1 * b0);
    lemma_mul_is_distributive_sub(a0, b0 * c0, b1 * c1);
    lemma_mul_is_distributive_add(a1, b0 * c1, b1 * c0);
    lemma_mul_is_associative(a0, b0, c0);
    lemma_mul_is_associative(a1, b1, c0);
    lemma_mul_is_associative(a0, b1, c1);
    lemma_mul_is_associative(a1, b0, c1);
}

proof fn lemma_assoc_second(a0: int, a1: int, b0: int, b1: int, c0: int, c1: int)
    ensures
        (a0 * b0 - a1 * b1) * c1 + (a0 * b1 + a1 * b0) * c0 == a0 * (b0 * c1 + b1 * c0) + a1 * (
        b0 * c0 - b1 * c1),
{
    lemma_mul_is_distributive_sub_other_way(c1, a0 * b0, a1 * b1);
    lemma_mul_is_distributive_add_other_way(c0, a0 * b1, a1 * b0);
    lemma_mul_is_distributive_add(a0, b0 * c1, b1 * c0);
    lemma_mul_is_distributive_sub(a1, b0 * c0, b1 * c1);
    lemma_mul_is_associative(a0, b0, c1);
    lemma_mul_is_associative(a1, b1, c1);
    lemma_mul_is_associative(a0, b1, c0);
    lemma_mul_is_associative(a1, b0, c0);
}

pub proof fn lemma_square_of_difference(p: int, q: int)
    ensures
        (p - q) * (p - q) == p * p - 2 * (p * q) + q * q,
{
    lemma_mul_is_distributive_sub_other_way(p - q, p, q);
    lemma_mul_is_distributive_sub(p, p, q);
    lemma_mul_is_distributive_sub(q, p, q);
    lemma_mul_is_commutative(p, q);
}

pub proof fn lemma_square_of_sum(p: int, q: int)
    ensures
        (p + q) * (p + q) == p * p + 2 * (p * q) + q * q,
{
    lemma_mul_is_distributive_add_other_way(p + q, p, q);
    lemma_mul_is_distributive_add(p, p, q);
    lemma_mul_is_distributive_add(q, p, q);
    lemma_mul_is_commutative(p, q);
}

pub proof fn lemma_rearrange_four(a: int, b: int, c: int, d: int)
    ensures
        (a * b) * (c * d) == (a * c) * (b * d),
{
    lemma_mul_is_associative(a, b, c * d);
    lemma_mul_is_associative(b, c, d);
    lemma_mul_is_commutative(b, c);
    lemma_mul_is_associative(c, b, d);
    lemma_mul_is_associative(a, c, b * d);
}

proof fn lemma_two_squares(a0: int, a1: int, b0: int, b1: int)
    ensures
        (a0 * b0 - a1 * b1) * (a0 * b0 - a1 * b1) + (a0 * b1 + a1 * b0) * (a0 * b1 + a1 * b0) == (
        a0 * a0 + a1 * a1) * (b0 * b0 + b1 * b1),
{
    lemma_square_of_difference(a0 * b0, a1 * b1);
    lemma_square_of_sum(a0 * b1, a1 * b0);
    lemma_rearrange_four(a0, b0, a0, b0);
    lemma_rearrange_four(a1, b1, a1, b1);
    lemma_rearrange_four(a0, b1, a0, b1);
    lemma_rearrange_four(a1, b0, a1, b0);
    lemma_rearrange_four(a0, b0, a1, b1);
    lemma_rearrange_four(a0, b1, a1, b0);
    lemma_mul_is_commutative(b1, b0);
    lemma_mul_is_distributive_add_other_way(b0 * b0 + b1 * b1, a0 * a0, a1 * a1);
    lemma_mul_is_distributive_add(a0 * a0, b0 * b0, b1 * b1);
    lemma_mul_is_distributive_add(a1 * a1, b0 * b0, b1 * b1);
}

/// The rotation product is associative.
pub proof fn lemma_product_associative(x: (int, int, int), y: (int, int, int), z: (int, int, int))
    ensures
        rotation_product(rotation_product(x, y), z) == rotation_product(x, rotation_product(y, z)),
{
    lemma_assoc_first(x.0, x.1, y.0, y.1, z.0, z.1);
    lemma_assoc_second(x.0, x.1, y.0, y.1, z.0, z.1);
    assert((x.2 * y.2) * z.2 == x.2 * (y.2 * z.2)) by (nonlinear_arith);
}


/// The rotation product of two Pythagorean triples is a Pythagorean triple.
pub proof fn lemma_product_pythagorean(x: (int, int, int), y: (int, int, int))
    requires
        is_pythagorean(x),
        is_pythagorean(y),
    ensures
        is_pythagorean(rotation_product(x, y)),
{
    lemma_two_squares(x.0, x.1, y.0, y.1);
    let c1 = x.2;
    let c2 = y.2;
    assert((c1 * c2) * (c1 * c2) == (c1 * c1) * (c2 * c2)) by (nonlinear_arith);
}

/// A Pythagorean triple with a nonzero hypotenuse has `(a, b) != (0, 0)`.
pub proof fn lemma_pythagorean_nonzero(t: (int, int, int))
    requires
        is_pythagorean(t),
        t.2 != 0,
    ensures
        !(t.0 == 0 && t.1 == 0),
{
    assert(t.2 * t.2 > 0) by (nonlinear_arith)
        requires
            t.2 != 0,
    ;
}

/// Normalizing a Pythagorean triple gives a Pythagorean triple.
pub proof fn lemma_normalize_pythagorean(t: (int, int, int))
    requires
        !is_zero_triple(t),
        is_pythagorean(t),
    ensures
        is_pythagorean(normalize(t)),
{
    lemma_content_divides(t);
    let g = content(t) as int;
    let n = normalize(t);
    assert(g * g * (n.0 * n.0 + n.1 * n.1) == g * g * (n.2 * n.2)) by (nonlinear_arith)
        requires
            t.0 == g * n.0,
            t.1 == g * n.1,
            t.2 == g * n.2,
            t.0 * t.0 + t.1 * t.1 == t.2 * t.2,
    ;
    assert(n.0 * n.0 + n.1 * n.1 == n.2 * n.2) by (nonlinear_arith)
        requires
            g * g * (n.0 * n.0 + n.1 * n.1) == g * g * (n.2 * n.2),
            g > 0,
    ;
}

/// A normalized triple is in lowest terms, and normalizing it again changes nothing.
pub proof fn lemma_normalize_idempotent(t: (int, int, int))
    requires
        !is_zero_triple(t),
    ensures
        content(normalize(t)) == 1,
        !is_zero_triple(normalize(t)),
        normalize(normalize(t)) == normalize(t),
{
    lemma_content_divides(t);
    let g = content(t) as int;
    let n = normalize(t);
    lemma_content_scale(n, g);
    assert(scale(n, g) == t) by (nonlinear_arith)
        requires
            t.0 == g * n.0,
            t.1 == g * n.1,
            t.2 == g * n.2,
    ;
    assert(content(n) == 1) by (nonlinear_arith)
        requires
            g == g * content(n),
            g > 0,
    ;
    lemma_div_basics(n.0);
    lemma_div_basics(n.1);
    lemma_div_basics(n.2);
}

/// The canonical form is in lowest terms and has a hypotenuse that is not negative.
pub proof fn lemma_canonical_reduced(t: (int, int, int))
    requires
        !is_zero_triple(t),
    ensures
        content(canonical(t)) == 1,
        canonical(t).2 >= 0,
        normalize(canonical(t)) == canonical(t),
{
    lemma_normalize_idempotent(t);
    let n = normalize(t);
    if n.2 < 0 {
        lemma_normalize_negate(n);
        assert(content(negate(n)) == content(n));
    }
}

/// Zero drift: composing two Pythagorean triples always gives a Pythagorean
/// triple, so `a² + b² = c²` holds exactly after any number of compositions.
pub proof fn lemma_compose_keeps_pythagorean(x: (int, int, int), y: (int, int, int))
    requires
        is_pythagorean(x),
        is_pythagorean(y),
    ensures
        is_pythagorean(compose_triples(x, y)),
{
    let p = rotation_product(x, y);
    lemma_product_pythagorean(x, y);
    if !(p.0 == 0 && p.1 == 0) {
        lemma_normalize_pythagorean(p);
        let n = normalize(p);
        assert((-n.0) * (-n.0) == n.0 * n.0 && (-n.1) * (-n.1) == n.1 * n.1 && (-n.2) * (-n.2)
            == n.2 * n.2) by (nonlinear_arith);
    }
}

/// Every composition is in lowest terms with a hypotenuse that is not negative.
pub proof fn lemma_compose_reduced(x: (int, int, int), y: (int, int, int))
    ensures
        content(compose_triples(x, y)) == 1,
        compose_triples(x, y).2 >= 0,
        normalize(compose_triples(x, y)) == compose_triples(x, y),
{
    let p = rotation_product(x, y);
    if p.0 == 0 && p.1 == 0 {
        reveal_with_fuel(crate::arith::gcd, 3);
        assert(content(identity_triple()) == 1);
        lemma_div_basics(1);
        lemma_div_basics(0);
    } else {
        lemma_canonical_reduced(p);
    }
}

/// Composing with a rotation product whose third component is nonzero
/// depends only on its canonical form.
proof fn lemma_compose_through_canonical_left(t: (int, int, int), z: (int, int, int))
    requires
        !(t.0 == 0 && t.1 == 0),
        (rotation_product(t, z).2 != 0),
        !(rotation_product(t, z).0 == 0 && rotation_product(t, z).1 == 0),
    ensures
        compose_triples(canonical(t), z) == canonical(rotation_product(t, z)),
{
    let u = canonical(t);
    let m = lemma_canonical_factor(t);
    lemma_product_scale_left(u, z, m);
    let w = rotation_product(u, z);
    let v = rotation_product(t, z);
    assert(v == scale(w, m));
    assert(!(w.0 == 0 && w.1 == 0)) by {
        if w.0 == 0 && w.1 == 0 {
            assert(m * w.0 == 0 && m * w.1 == 0) by (nonlinear_arith)
                requires
                    w.0 == 0,
                    w.1 == 0,
            ;
        }
    }
    if m > 0 {
        lemma_normalize_scale(w, m);
    } else {
        let s = scale(w, -m);
        assert((-m) * w.0 == -(m * w.0) && (-m) * w.1 == -(m * w.1) && (-m) * w.2 == -(m * w.2))
            by (nonlinear_arith);
        assert(v == negate(s));
        lemma_canonical_negate(s);
        lemma_normalize_scale(w, -m);
    }
}

/// The mirror image of the previous lemma, for the second argument.
proof fn lemma_compose_through_canonical_right(x: (int, int, int), t: (int, int, int))
    requires
        !(t.0 == 0 && t.1 == 0),
        (rotation_product(x, t).2 != 0),
        !(rotation_product(x, t).0 == 0 && rotation_product(x, t).1 == 0),
    ensures
        compose_triples(x, canonical(t)) == canonical(rotation_product(x, t)),
{
    let u = canonical(t);
    let m = lemma_canonical_factor(t);
    lemma_product_scale_right(x, u, m);
    let w = rotation_product(x, u);
    let v = rotation_product(x, t);
    assert(v == scale(w, m));
    assert(!(w.0 == 0 && w.1 == 0)) by {
        if w.0 == 0 && w.1 == 0 {
            assert(m * w.0 == 0 && m * w.1 == 0) by (nonlinear_arith)
                requires
                    w.0 == 0,
                    w.1 == 0,
            ;
        }
    }
    if m > 0 {
        lemma_normalize_scale(w, m);
    } else {
        let s = scale(w, -m);
        assert((-m) * w.0 == -(m * w.0) && (-m) * w.1 == -(m * w.1) && (-m) * w.2 == -(m * w.2))
            by (nonlinear_arith);
        assert(v == negate(s));
        lemma_canonical_negate(s);
        lemma_normalize_scale(w, -m);
    }
}

/// Composition is associative on Pythagorean triples with nonzero
/// hypotenuses: `(x ∘ y) ∘ z == x ∘ (y ∘ z)`, component for component.
pub proof fn lemma_compose_associative(x: (int, int, int), y: (int, int, int), z: (int, int, int))
    requires
        is_pythagorean(x),
        is_pythagorean(y),
        is_pythagorean(z),
        x.2 != 0,
        y.2 != 0,
        z.2 != 0,
    ensures
        compose_triples(compose_triples(x, y), z) == compose_triples(x, compose_triples(y, z)),
{
    let xy = rotation_product(x, y);
    let yz = rotation_product(y, z);
    lemma_product_pythagorean(x, y);
    lemma_product_pythagorean(y, z);
    lemma_product_pythagorean(xy, z);
    lemma_product_associative(x, y, z);
    let xyz = rotation_product(xy, z);
    assert(xy.2 != 0 && yz.2 != 0 && xyz.2 != 0) by (nonlinear_arith)
        requires
            x.2 != 0,
            y.2 != 0,
            z.2 != 0,
            xy.2 == x.2 * y.2,
            yz.2 == y.2 * z.2,
            xyz.2 == xy.2 * z.2,
    ;
    lemma_pythagorean_nonzero(xy);
    lemma_pythagorean_nonzero(yz);
    lemma_pythagorean_nonzero(xyz);
    lemma_compose_through_canonical_left(xy, z);
    lemma_compose_through_canonical_right(x, yz);
}

/// Composing with the identity on the right gives the direction itself in
/// lowest terms, when its hypotenuse is not negative and `(a, b) != (0, 0)`.
pub proof fn lemma_compose_identity_right(x: (int, int, int))
    requires
        !(x.0 == 0 && x.1 == 0),
        x.2 >= 0,
    ensures
        compose_triples(x, identity_triple()) == normalize(x),
        normalize(compose_triples(x, identity_triple())) == normalize(x),
{
    assert(rotation_product(x, identity_triple()) == x);
    lemma_content_divides(x);
    let g = content(x) as int;
    assert(normalize(x).2 >= 0) by (nonlinear_arith)
        requires
            x.2 == g * normalize(x).2,
            g > 0,
            x.2 >= 0,
    ;
    lemma_normalize_idempotent(x);
}

/// Composing with the identity on the left gives the direction itself in
/// lowest terms, when its hypotenuse is not negative and `(a, b) != (0, 0)`.
pub proof fn lemma_compose_identity_left(x: (int, int, int))
    requires
        !(x.0 == 0 && x.1 == 0),
        x.2 >= 0,
    ensures
        compose_triples(identity_triple(), x) == normalize(x),
        normalize(compose_triples(identity_triple(), x)) == normalize(x),
{
    assert(rotation_product(identity_triple(), x) == x);
    lemma_compose_identity_right(x);
    assert(rotation_product(x, identity_triple()) == x);
}

} // verus!
