//! Equality of directions: two directions are equal when they are the same
//! once reduced to lowest terms.
use crate::direction::{content, is_zero_triple, lemma_content_divides, normalize, Direction48};
use crate::direction_laws::{lemma_normalize_idempotent, lemma_normalize_scale, scale};
use vstd::prelude::*;
use vstd::std_specs::cmp::PartialEqSpec;
use vstd::std_specs::cmp::PartialEqSpecImpl;

verus! {

/// The equality of directions: equal normalized triples.  The all-zero
/// triple has no normalized form and is equal only to itself.
pub open spec fn same_direction(x: (int, int, int), y: (int, int, int)) -> bool {
    if is_zero_triple(x) || is_zero_triple(y) {
        is_zero_triple(x) && is_zero_triple(y)
    } else {
        normalize(x) == normalize(y)
    }
}

/// Equality of directions is an equivalence relation, and a direction equals
/// its own normalized form.
pub proof fn lemma_same_direction_equivalence(
    x: (int, int, int),
    y: (int, int, int),
    z: (int, int, int),
)
    ensures
        same_direction(x, x),
        same_direction(x, y) ==> same_direction(y, x),
        same_direction(x, y) && same_direction(y, z) ==> same_direction(x, z),
        !is_zero_triple(x) ==> same_direction(normalize(x), x),
{
    if !is_zero_triple(x) {
        lemma_normalize_idempotent(x);
    }
}

impl PartialEq for Direction48 {
    fn eq(&self, other: &Self) -> (r: bool) {
        let self_zero = self.a.is_zero() && self.b.is_zero() && self.c.is_zero();
        let other_zero = other.a.is_zero() && other.b.is_zero() && other.c.is_zero();
        if self_zero || other_zero {
            self_zero && other_zero
        } else {
            self.eq_normalized(other)
        }
    }
}

impl PartialEqSpecImpl for Direction48 {
    open spec fn obeys_eq_spec() -> bool {
        true
    }

    open spec fn eq_spec(&self, other: &Direction48) -> bool {
        same_direction(self@, other@)
    }
}

impl Eq for Direction48 {
}

/// What `==` on directions answers.  The all-zero triple equals only itself.
/// Two other directions are equal exactly when their triples reduced to
/// lowest terms agree in all three components, which is exactly when each
/// triple is a positive multiple of a common one: `p·x = q·y` for some
/// `p, q > 0`, the same ray from the origin.  So `(3, 4, 5) == (6, 8, 10)`,
/// while `(3, 4, 5)` and `(3, −4, 5)` (mirror images) or `(3, 4, 5)` and
/// `(−3, −4, −5)` (opposite rays) are different directions.
pub proof fn lemma_eq_is_same_ray(x: Direction48, y: Direction48)
    ensures
        is_zero_triple(x@) || is_zero_triple(y@) ==> (PartialEqSpec::eq_spec(&x, &y) <==> (is_zero_triple(x@)
            && is_zero_triple(y@))),
        !is_zero_triple(x@) && !is_zero_triple(y@) ==> (PartialEqSpec::eq_spec(&x, &y) <==> (normalize(x@).0
            == normalize(y@).0 && normalize(x@).1 == normalize(y@).1 && normalize(x@).2 == normalize(
            y@,
        ).2)),
        !is_zero_triple(x@) && !is_zero_triple(y@) ==> (PartialEqSpec::eq_spec(&x, &y) <==> exists|p: int, q: int|
            #![trigger scale(x@, p), scale(y@, q)]
            p > 0 && q > 0 && scale(x@, p) == scale(y@, q)),
{
    if !is_zero_triple(x@) && !is_zero_triple(y@) {
        let a = x@;
        let b = y@;
        if PartialEqSpec::eq_spec(&x, &y) {
            lemma_content_divides(a);
            lemma_content_divides(b);
            let n = normalize(a);
            let ca = content(a) as int;
            let cb = content(b) as int;
            assert(scale(a, cb) == scale(b, ca)) by {
                assert(cb * a.0 == ca * b.0 && cb * a.1 == ca * b.1 && cb * a.2 == ca * b.2)
                    by (nonlinear_arith)
                    requires
                        a.0 == ca * n.0,
                        a.1 == ca * n.1,
                        a.2 == ca * n.2,
                        b.0 == cb * n.0,
                        b.1 == cb * n.1,
                        b.2 == cb * n.2,
                ;
            }
        }
        if exists|p: int, q: int| #![trigger scale(a, p), scale(b, q)] p > 0 && q > 0 && scale(a, p) == scale(b, q) {
            let (p, q) = choose|p: int, q: int| #![trigger scale(a, p), scale(b, q)] p > 0 && q > 0 && scale(a, p) == scale(b, q);
            lemma_normalize_scale(a, p);
            lemma_normalize_scale(b, q);
        }
    }
}

} // verus!
