//! What the direction database holds: a direction's mirror images and the
//! reduced form of every Pythagorean triple with hypotenuse at most 100.
use crate::arith::lemma_gcd_commutative;
use crate::database::{
    database_candidate, is_database_direction, is_direction_database, symmetry, triple_ints,
    DATABASE_MAX_HYPOTENUSE,
};
use crate::direction::{content, is_zero_triple, lemma_content_divides, normalize};
use crate::triples::{is_pythagorean_triple, pythagorean_triple_set};
use vstd::arithmetic::div_mod::lemma_div_multiples_vanish;
use vstd::prelude::*;

verus! {

/// Swapping the legs keeps the content.
proof fn lemma_content_swap(t: (int, int, int))
    ensures
        content((t.1, t.0, t.2)) == content(t),
{
    lemma_gcd_commutative(crate::bignum::abs(t.0), crate::bignum::abs(t.1));
}

/// Swapping the legs commutes with reduction to lowest terms.
proof fn lemma_normalize_swap(t: (int, int, int))
    ensures
        normalize((t.1, t.0, t.2)) == (normalize(t).1, normalize(t).0, normalize(t).2),
{
    lemma_content_swap(t);
}

/// Negating the first leg commutes with reduction to lowest terms.
proof fn lemma_normalize_negate_first(t: (int, int, int))
    requires
        !is_zero_triple(t),
    ensures
        normalize((-t.0, t.1, t.2)) == (-normalize(t).0, normalize(t).1, normalize(t).2),
{
    lemma_content_divides(t);
    assert(content((-t.0, t.1, t.2)) == content(t));
    let g = content(t) as int;
    let n = normalize(t);
    assert(-t.0 == g * (-n.0)) by (nonlinear_arith)
        requires
            t.0 == g * n.0,
    ;
    lemma_div_multiples_vanish(-n.0, g);
}

/// Negating the second leg commutes with reduction to lowest terms.
proof fn lemma_normalize_negate_second(t: (int, int, int))
    requires
        !is_zero_triple(t),
    ensures
        normalize((t.0, -t.1, t.2)) == (normalize(t).0, -normalize(t).1, normalize(t).2),
{
    lemma_content_divides(t);
    assert(content((t.0, -t.1, t.2)) == content(t));
    let g = content(t) as int;
    let n = normalize(t);
    assert(-t.1 == g * (-n.1)) by (nonlinear_arith)
        requires
            t.1 == g * n.1,
    ;
    lemma_div_multiples_vanish(-n.1, g);
}

/// The database is closed under the mirror images of a direction: with
/// `(a, b, c)` it lists `(b, a, c)` (reflection in the diagonal),
/// `(−a, b, c)` and `(a, −b, c)` (reflections in the axes), and so all eight
/// sign/swap images `(±a, ±b, c)`, `(±b, ±a, c)`.
pub proof fn lemma_database_closed_under_reflections(v: Seq<(int, int, int)>, d: (int, int, int))
    requires
        is_direction_database(v),
        v.contains(d),
    ensures
        v.contains((d.1, d.0, d.2)),
        v.contains((-d.0, d.1, d.2)),
        v.contains((d.0, -d.1, d.2)),
{
    let i = choose|i: int| 0 <= i < v.len() && v[i] == d;
    assert(is_database_direction(v[i]));
    let (t, s) = choose|t: (i64, i64, i64), s: int|
        pythagorean_triple_set(DATABASE_MAX_HYPOTENUSE as int).contains(t) && 0 <= s < 8 && d
            == #[trigger] database_candidate(t, s);
    let u = triple_ints(t);
    let x = symmetry(u, s);
    assert(!is_zero_triple(x));
    lemma_normalize_swap(x);
    lemma_normalize_negate_first(x);
    lemma_normalize_negate_second(x);
    // The partner of `s` under each reflection.
    let sw: int = if s == 0 {
        4
    } else if s == 1 {
        6
    } else if s == 2 {
        5
    } else if s == 3 {
        7
    } else if s == 4 {
        0
    } else if s == 5 {
        2
    } else if s == 6 {
        1
    } else {
        3
    };
    let n0: int = if s == 0 {
        1
    } else if s == 1 {
        0
    } else if s == 2 {
        3
    } else if s == 3 {
        2
    } else if s == 4 {
        5
    } else if s == 5 {
        4
    } else if s == 6 {
        7
    } else {
        6
    };
    let n1: int = if s == 0 {
        2
    } else if s == 1 {
        3
    } else if s == 2 {
        0
    } else if s == 3 {
        1
    } else if s == 4 {
        6
    } else if s == 5 {
        7
    } else if s == 6 {
        4
    } else {
        5
    };
    assert(symmetry(u, sw) == (x.1, x.0, x.2));
    assert(symmetry(u, n0) == (-x.0, x.1, x.2));
    assert(symmetry(u, n1) == (x.0, -x.1, x.2));
    assert(v.contains(database_candidate(t, sw)));
    assert(v.contains(database_candidate(t, n0)));
    assert(v.contains(database_candidate(t, n1)));
}

/// The database holds the reduced form of every Pythagorean triple
/// `(a, b, c)` with `0 < a ≤ b` and `c ≤ 100`, and the reduced form of its
/// mirror image `(−b, −a, c)` in the anti-diagonal.
pub proof fn lemma_database_holds_every_triple(v: Seq<(int, int, int)>, t: (i64, i64, i64))
    requires
        is_direction_database(v),
        is_pythagorean_triple(t, DATABASE_MAX_HYPOTENUSE as int),
    ensures
        v.contains(normalize((t.0 as int, t.1 as int, t.2 as int))),
        v.contains(normalize((-(t.1 as int), -(t.0 as int), t.2 as int))),
{
    assert(pythagorean_triple_set(DATABASE_MAX_HYPOTENUSE as int).contains(t));
    assert(v.contains(database_candidate(t, 0)));
    assert(v.contains(database_candidate(t, 7)));
}

} // verus!
