//! Exact directions: a direction is a Pythagorean triple `(a, b, c)` with
//! `a² + b² = c²`, standing for the unit vector `(a/c, b/c)`.
use crate::arith::{gcd, gcd3, lemma_exact_quotient, lemma_gcd3_divides, lemma_gcd3_zero, lemma_trunc_rem};
use crate::bignum::{abs, BigNum};
use vstd::arithmetic::div_mod::lemma_div_basics;
use vstd::arithmetic::power::lemma_square_is_pow2;
use vstd::prelude::*;

verus! {

/// The all-zero triple `(0, 0, 0)`, which has no reduced form.
pub open spec fn is_zero_triple(t: (int, int, int)) -> bool {
    t.0 == 0 && t.1 == 0 && t.2 == 0
}

/// `a² + b² = c²`.
pub open spec fn is_pythagorean(t: (int, int, int)) -> bool {
    t.0 * t.0 + t.1 * t.1 == t.2 * t.2
}

/// The greatest common divisor of the three magnitudes.
pub open spec fn content(t: (int, int, int)) -> nat {
    gcd3(abs(t.0), abs(t.1), abs(t.2))
}

/// The triple divided by its content (meaningful when it is not all zero).
pub open spec fn normalize(t: (int, int, int)) -> (int, int, int) {
    let g = content(t) as int;
    (t.0 / g, t.1 / g, t.2 / g)
}

/// The identity direction `(1, 0, 1)`, angle 0.
pub open spec fn identity_triple() -> (int, int, int) {
    (1, 0, 1)
}

/// The rotation-matrix product of two directions, before any reduction.
pub open spec fn rotation_product(x: (int, int, int), y: (int, int, int)) -> (int, int, int) {
    (x.0 * y.0 - x.1 * y.1, x.0 * y.1 + x.1 * y.0, x.2 * y.2)
}

/// The normalized triple, negated when its third component is negative.
pub open spec fn canonical(t: (int, int, int)) -> (int, int, int) {
    let n = normalize(t);
    if n.2 < 0 {
        (-n.0, -n.1, -n.2)
    } else {
        n
    }
}

/// What `compose` returns: the rotation product in lowest terms with a
/// hypotenuse that is not negative, or the identity where the product has
/// `a = b = 0`.
pub open spec fn compose_triples(x: (int, int, int), y: (int, int, int)) -> (int, int, int) {
    let p = rotation_product(x, y);
    if p.0 == 0 && p.1 == 0 {
        identity_triple()
    } else {
        canonical(p)
    }
}

/// An `i64` holds `x`.
pub open spec fn fits_i64(x: int) -> bool {
    i64::MIN <= x <= i64::MAX
}

/// An exact direction on the unit circle: the Pythagorean triple `(a, b, c)`
/// with `a² + b² = c²` stands for the unit vector `(a/c, b/c)`.
#[derive(Debug, Clone)]
pub struct Direction48 {
    /// First component of the direction vector times c
    pub a: BigNum,
    /// Second component of the direction vector times c
    pub b: BigNum,
    /// Hypotenuse (magnitude scaling factor)
    pub c: BigNum,
}

impl View for Direction48 {
    type V = (int, int, int);

    open spec fn view(&self) -> (int, int, int) {
        (self.a@, self.b@, self.c@)
    }
}

/// A compact `i64` snapshot of a direction.
#[derive(Debug, Clone, Copy, PartialEq, Eq, Hash, Structural)]
pub struct Direction48Compact {
    pub a: i64,
    pub b: i64,
    pub c: i64,
}

impl Direction48Compact {
    pub fn new(a: i64, b: i64, c: i64) -> (r: Self)
        ensures
            r == (Direction48Compact { a, b, c }),
    {
        Direction48Compact { a, b, c }
    }
}

/// Greatest common divisor by the Euclidean algorithm on `BigNum`s.
fn gcd_big(a: &BigNum, b: &BigNum) -> (r: BigNum)
    ensures
        abs(r@) == gcd(abs(a@), abs(b@)),
        a@ >= 0 && b@ >= 0 ==> r@ >= 0,
{
    let mut x = a.duplicate();
    let mut y = b.duplicate();
    while !y.is_zero()
        invariant
            gcd(abs(x@), abs(y@)) == gcd(abs(a@), abs(b@)),
            a@ >= 0 && b@ >= 0 ==> x@ >= 0 && y@ >= 0,
        decreases abs(y@),
    {
        let t = y.duplicate();
        proof {
            lemma_trunc_rem(x@, t@);
        }
        y = x.rem(&t);
        x = t;
    }
    x
}

/// Greatest common divisor of three `BigNum`s.
fn gcd3_big(a: &BigNum, b: &BigNum, c: &BigNum) -> (r: BigNum)
    ensures
        abs(r@) == gcd3(abs(a@), abs(b@), abs(c@)),
        a@ >= 0 && b@ >= 0 && c@ >= 0 ==> r@ >= 0,
{
    let ab = gcd_big(a, b);
    gcd_big(&ab, c)
}

/// The content of a triple that is not all zero is positive and divides it exactly.
pub proof fn lemma_content_divides(t: (int, int, int))
    requires
        !is_zero_triple(t),
    ensures
        content(t) > 0,
        t.0 == content(t) * normalize(t).0,
        t.1 == content(t) * normalize(t).1,
        t.2 == content(t) * normalize(t).2,
        abs(t.0) == content(t) * abs(normalize(t).0),
        abs(t.1) == content(t) * abs(normalize(t).1),
        abs(t.2) == content(t) * abs(normalize(t).2),
        crate::bignum::trunc_div(t.0, content(t) as int) == normalize(t).0,
        crate::bignum::trunc_div(t.1, content(t) as int) == normalize(t).1,
        crate::bignum::trunc_div(t.2, content(t) as int) == normalize(t).2,
{
    let g = content(t);
    lemma_gcd3_zero(abs(t.0), abs(t.1), abs(t.2));
    lemma_gcd3_divides(abs(t.0), abs(t.1), abs(t.2));
    lemma_exact_quotient(t.0, g as int);
    lemma_exact_quotient(t.1, g as int);
    lemma_exact_quotient(t.2, g as int);
}

impl Direction48 {
    /// Create a new direction from a triple of `i64` values.
    pub fn new(a: i64, b: i64, c: i64) -> (r: Self)
        ensures
            r@ == (a as int, b as int, c as int),
    {
        Direction48 { a: BigNum::from_i64(a), b: BigNum::from_i64(b), c: BigNum::from_i64(c) }
    }

    /// Create a new direction from `BigNum` values, reduced by their gcd.
    /// The all-zero triple has no gcd to divide by.
    pub fn from_big(a: BigNum, b: BigNum, c: BigNum) -> (r: Self)
        requires
            !is_zero_triple((a@, b@, c@)),
        ensures
            r@ == normalize((a@, b@, c@)),
    {
        let d = Direction48 { a, b, c };
        d.normalized()
    }

    /// Create a direction from integers that satisfy `a² + b² = c²`; any other
    /// triple is refused by a debug assertion.
    pub fn new_checked(a: i64, b: i64, c: i64) -> (r: Self)
        requires
            is_pythagorean((a as int, b as int, c as int)),
        ensures
            r@ == (a as int, b as int, c as int),
            is_pythagorean(r@),
    {
        Self::new(a, b, c)
    }

    /// Identity direction `(1, 0, 1)`, angle 0.
    pub fn identity() -> (r: Self)
        ensures
            r@ == identity_triple(),
    {
        Direction48 { a: BigNum::from_i64(1), b: BigNum::from_i64(0), c: BigNum::from_i64(1) }
    }

    /// A second direction with the same components.
    pub fn duplicate(&self) -> (r: Self)
        ensures
            r@ == self@,
    {
        Direction48 { a: self.a.duplicate(), b: self.b.duplicate(), c: self.c.duplicate() }
    }

    /// Divide out `gcd(|a|, |b|, |c|)`.  The all-zero triple has no gcd to
    /// divide by.
    pub fn normalized(&self) -> (r: Self)
        requires
            !is_zero_triple(self@),
        ensures
            r@ == normalize(self@),
            content(r@) == 1,
            is_pythagorean(self@) ==> is_pythagorean(r@),
    {
        proof {
            crate::direction_laws::lemma_normalize_idempotent(self@);
            if is_pythagorean(self@) {
                crate::direction_laws::lemma_normalize_pythagorean(self@);
            }
        }
        let g = gcd3_big(&self.a.abs(), &self.b.abs(), &self.c.abs());
        proof {
            lemma_content_divides(self@);
        }
        if g.is_one() {
            proof {
                lemma_div_basics(self@.0);
                lemma_div_basics(self@.1);
                lemma_div_basics(self@.2);
            }
            return self.duplicate();
        }
        Direction48 { a: self.a.div(&g), b: self.b.div(&g), c: self.c.div(&g) }
    }

    /// Whether this is a Pythagorean triple: `a² + b² = c²`.
    pub fn is_valid(&self) -> (r: bool)
        ensures
            r == is_pythagorean(self@),
    {
        proof {
            lemma_square_is_pow2(self@.0);
            lemma_square_is_pow2(self@.1);
            lemma_square_is_pow2(self@.2);
        }
        let lhs = self.a.pow(2).add(&self.b.pow(2));
        let rhs = self.c.pow(2);
        lhs.equals(&rhs)
    }

    /// Compose this direction with another by exact integer arithmetic:
    /// the rotation product `(a₁a₂ − b₁b₂, a₁b₂ + b₁a₂, c₁c₂)`, reduced by
    /// its gcd and with a hypotenuse that is not negative.
    pub fn compose(&self, other: &Direction48) -> (r: Self)
        ensures
            r@ == compose_triples(self@, other@),
            is_pythagorean(self@) && is_pythagorean(other@) ==> is_pythagorean(r@),
            content(r@) == 1,
            r@.2 >= 0,
    {
        proof {
            crate::direction_laws::lemma_compose_reduced(self@, other@);
            if is_pythagorean(self@) && is_pythagorean(other@) {
                crate::direction_laws::lemma_compose_keeps_pythagorean(self@, other@);
            }
        }
        let num_a = self.a.mul(&other.a).sub(&self.b.mul(&other.b));
        let num_b = self.a.mul(&other.b).add(&self.b.mul(&other.a));
        let denom = self.c.mul(&other.c);
        let ghost p = rotation_product(self@, other@);
        assert(p == (num_a@, num_b@, denom@));

        if num_a.is_zero() && num_b.is_zero() {
            return Self::identity();
        }
        let g = gcd3_big(&num_a.abs(), &num_b.abs(), &denom.abs());
        proof {
            lemma_content_divides(p);
        }
        if g.is_zero() {
            return Self::identity();
        }
        let final_a = num_a.div(&g);
        let final_b = num_b.div(&g);
        let final_c = denom.div(&g);
        if final_c.is_negative() {
            Direction48 { a: final_a.neg(), b: final_b.neg(), c: final_c.neg() }
        } else {
            Direction48 { a: final_a, b: final_b, c: final_c }
        }
    }

    /// Whether the two directions are equal once both are normalized.
    pub fn eq_normalized(&self, other: &Direction48) -> (r: bool)
        requires
            !is_zero_triple(self@),
            !is_zero_triple(other@),
        ensures
            r == (normalize(self@) == normalize(other@)),
    {
        let sn = self.normalized();
        let on = other.normalized();
        sn.a.equals(&on.a) && sn.b.equals(&on.b) && sn.c.equals(&on.c)
    }

    /// An `i64` snapshot, when all three components fit in an `i64`.
    pub fn to_compact(&self) -> (r: Option<Direction48Compact>)
        ensures
            r is Some <==> (fits_i64(self@.0) && fits_i64(self@.1) && fits_i64(self@.2)),
            r matches Some(v) ==> v.a == self@.0 && v.b == self@.1 && v.c == self@.2,
    {
        let a = match self.a.to_i64() {
            Some(v) => v,
            None => return None,
        };
        let b = match self.b.to_i64() {
            Some(v) => v,
            None => return None,
        };
        let c = match self.c.to_i64() {
            Some(v) => v,
            None => return None,
        };
        Some(Direction48Compact { a, b, c })
    }
}

} // verus!
