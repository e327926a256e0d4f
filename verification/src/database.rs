//! The database of all distinct directions that the Pythagorean triples with
//! hypotenuse at most 100 give under the eight sign/swap symmetries, ordered
//! by angle; and chains of rotations drawn from it.
use crate::direction::{
    compose_triples, content, identity_triple, is_pythagorean, is_zero_triple, normalize,
    Direction48,
};
use crate::direction_laws::{
    lemma_compose_keeps_pythagorean, lemma_normalize_idempotent, lemma_normalize_pythagorean,
    lemma_rearrange_four, scale,
};
use vstd::arithmetic::mul::{lemma_mul_is_commutative, lemma_mul_is_distributive_add};
use crate::triples::{
    enumerate_pythagorean_triples, is_pythagorean_triple, lemma_pythagorean_triple_bounds,
    lemma_sorted_list_is_set, pythagorean_triple_set,
};
use vstd::prelude::*;

verus! {

/// The largest hypotenuse of the triples the database is built from.
pub const DATABASE_MAX_HYPOTENUSE: i64 = 100;

/// A triple of `i64`s read as integers.
pub open spec fn triple_ints(t: (i64, i64, i64)) -> (int, int, int) {
    (t.0 as int, t.1 as int, t.2 as int)
}

/// The `s`-th of the eight sign/swap symmetries `(±a, ±b)`, `(±b, ±a)`, in
/// the order in which the database visits them.
pub open spec fn symmetry(t: (int, int, int), s: int) -> (int, int, int) {
    if s == 0 {
        (t.0, t.1, t.2)
    } else if s == 1 {
        (-t.0, t.1, t.2)
    } else if s == 2 {
        (t.0, -t.1, t.2)
    } else if s == 3 {
        (-t.0, -t.1, t.2)
    } else if s == 4 {
        (t.1, t.0, t.2)
    } else if s == 5 {
        (-t.1, t.0, t.2)
    } else if s == 6 {
        (t.1, -t.0, t.2)
    } else {
        (-t.1, -t.0, t.2)
    }
}

/// The normalized `s`-th symmetry of the triple `t`.
pub open spec fn database_candidate(t: (i64, i64, i64), s: int) -> (int, int, int) {
    normalize(symmetry(triple_ints(t), s))
}

/// `d` is a normalized symmetry of a Pythagorean triple with hypotenuse at most 100.
pub open spec fn is_database_direction(d: (int, int, int)) -> bool {
    exists|t: (i64, i64, i64), s: int|
        pythagorean_triple_set(DATABASE_MAX_HYPOTENUSE as int).contains(t) && 0 <= s < 8 && d
            == #[trigger] database_candidate(t, s)
}

/// The set of all database directions.
pub open spec fn database_direction_set() -> Set<(int, int, int)> {
    Set::new(|d: (int, int, int)| is_database_direction(d))
}

/// Which part of the circle the angle `atan2(b, a)` falls in: 0 for
/// `(-180°, 0°)`, 1 for `[0°, 180°)`, 2 for `180°`.
pub open spec fn half_plane(t: (int, int, int)) -> int {
    if t.1 < 0 {
        0
    } else if t.1 == 0 && t.0 < 0 {
        2
    } else {
        1
    }
}

/// The cross product `x.a y.b − x.b y.a`.
pub open spec fn cross(x: (int, int, int), y: (int, int, int)) -> int {
    x.0 * y.1 - x.1 * y.0
}

/// The angle `atan2(x.b, x.a)` is smaller than `atan2(y.b, y.a)`.
pub open spec fn angle_lt(x: (int, int, int), y: (int, int, int)) -> bool {
    half_plane(x) < half_plane(y) || (half_plane(x) == half_plane(y) && cross(x, y) > 0)
}

/// The models of a list of directions.
pub open spec fn views(s: Seq<Direction48>) -> Seq<(int, int, int)> {
    Seq::new(s.len(), |i: int| s[i]@)
}

/// Sorted by angle: no later entry has a smaller angle than an earlier one.
pub open spec fn sorted_by_angle(v: Seq<(int, int, int)>) -> bool {
    forall|i: int, j: int| 0 <= i < j < v.len() ==> !angle_lt(#[trigger] v[j], #[trigger] v[i])
}

/// Strictly increasing in angle.
pub open spec fn strictly_sorted_by_angle(v: Seq<(int, int, int)>) -> bool {
    forall|i: int, j: int| 0 <= i < j < v.len() ==> angle_lt(#[trigger] v[i], #[trigger] v[j])
}

/// The database: every database direction once, in increasing angle.
pub open spec fn is_direction_database(v: Seq<(int, int, int)>) -> bool {
    &&& forall|i: int| 0 <= i < v.len() ==> is_database_direction(#[trigger] v[i])
    &&& forall|t: (i64, i64, i64), s: int|
        pythagorean_triple_set(DATABASE_MAX_HYPOTENUSE as int).contains(t) && 0 <= s < 8 ==> v.contains(
            #[trigger] database_candidate(t, s),
        )
    &&& v.no_duplicates()
    &&& strictly_sorted_by_angle(v)
}

/// Every database candidate is a normalized Pythagorean triple with a
/// positive hypotenuse.
pub proof fn lemma_candidate_facts(t: (i64, i64, i64), s: int)
    requires
        pythagorean_triple_set(DATABASE_MAX_HYPOTENUSE as int).contains(t),
        0 <= s < 8,
    ensures
        !is_zero_triple(database_candidate(t, s)),
        normalize(database_candidate(t, s)) == database_candidate(t, s),
        content(database_candidate(t, s)) == 1,
        is_pythagorean(database_candidate(t, s)),
        database_candidate(t, s).2 > 0,
{
    lemma_pythagorean_triple_bounds(t, DATABASE_MAX_HYPOTENUSE as int);
    let u = symmetry(triple_ints(t), s);
    assert(u.2 == t.2);
    assert(is_pythagorean(u)) by {
        let x = t.0 as int;
        let y = t.1 as int;
        assert((-x) * (-x) == x * x && (-y) * (-y) == y * y) by (nonlinear_arith);
    }
    lemma_normalize_idempotent(u);
    lemma_normalize_pythagorean(u);
    crate::direction::lemma_content_divides(u);
    let g = content(u) as int;
    assert(normalize(u).2 > 0) by (nonlinear_arith)
        requires
            u.2 == g * normalize(u).2,
            g > 0,
            u.2 > 0,
    ;
}

/// The database is not empty: it holds the direction of (3, 4, 5).
pub proof fn lemma_database_nonempty(v: Seq<(int, int, int)>)
    requires
        is_direction_database(v),
    ensures
        v.len() > 0,
        v.contains(database_candidate((3, 4, 5), 0)),
{
    assert(3int * 3int + 4int * 4int == 5int * 5int) by (nonlinear_arith);
    assert(is_pythagorean_triple((3i64, 4i64, 5i64), DATABASE_MAX_HYPOTENUSE as int));
    assert(pythagorean_triple_set(DATABASE_MAX_HYPOTENUSE as int).contains((3i64, 4i64, 5i64)));
    assert(v.contains(database_candidate((3, 4, 5), 0)));
}

/// Every direction of the database is a Pythagorean triple in lowest terms
/// with a positive hypotenuse.
pub proof fn lemma_database_directions_valid(v: Seq<(int, int, int)>)
    requires
        is_direction_database(v),
    ensures
        forall|i: int|
            0 <= i < v.len() ==> is_pythagorean(#[trigger] v[i]) && v[i].2 > 0 && content(v[i]) == 1
                && normalize(v[i]) == v[i],
{
    lemma_database_entries_valid(v);
}

proof fn lemma_database_entries_valid(v: Seq<(int, int, int)>)
    requires
        forall|i: int| 0 <= i < v.len() ==> is_database_direction(#[trigger] v[i]),
    ensures
        forall|i: int|
            0 <= i < v.len() ==> is_pythagorean(#[trigger] v[i]) && v[i].2 > 0 && content(v[i]) == 1
                && normalize(v[i]) == v[i],
{
    assert forall|i: int| 0 <= i < v.len() implies is_pythagorean(#[trigger] v[i]) && v[i].2 > 0
        && content(v[i]) == 1 && normalize(v[i]) == v[i] by {
        assert(is_database_direction(v[i]));
        let (t, s) = choose|t: (i64, i64, i64), s: int|
            pythagorean_triple_set(DATABASE_MAX_HYPOTENUSE as int).contains(t) && 0 <= s < 8 && v[i]
                == #[trigger] database_candidate(t, s);
        lemma_candidate_facts(t, s);
    }
}

/// Transitivity of the angle order.
pub proof fn lemma_angle_lt_transitive(x: (int, int, int), y: (int, int, int), z: (int, int, int))
    requires
        angle_lt(x, y),
        angle_lt(y, z),
    ensures
        angle_lt(x, z),
{
    if half_plane(x) == half_plane(y) && half_plane(y) == half_plane(z) {
        let (x0, x1, y0, y1, z0, z1) = (x.0, x.1, y.0, y.1, z.0, z.1);
        let cxy = x0 * y1 - x1 * y0;
        let cyz = y0 * z1 - y1 * z0;
        let czx = z0 * x1 - z1 * x0;
        assert(cxy * z1 + cyz * x1 + czx * y1 == 0) by (nonlinear_arith)
            requires
                cxy == x0 * y1 - x1 * y0,
                cyz == y0 * z1 - y1 * z0,
                czx == z0 * x1 - z1 * x0,
        ;
        if half_plane(x) == 0 {
            assert(czx < 0) by (nonlinear_arith)
                requires
                    cxy * z1 + cyz * x1 + czx * y1 == 0,
                    cxy > 0,
                    cyz > 0,
                    x1 < 0,
                    y1 < 0,
                    z1 < 0,
            ;
        } else if half_plane(x) == 1 {
            if y1 == 0 {
                assert(cxy == -(x1 * y0)) by (nonlinear_arith)
                    requires
                        cxy == x0 * y1 - x1 * y0,
                        y1 == 0,
                ;
                assert(x1 * y0 < 0);
                assert(x1 >= 0 && y0 >= 0);
                assert(x1 * y0 >= 0) by (nonlinear_arith)
                    requires
                        x1 >= 0,
                        y0 >= 0,
                ;
            } else if x1 == 0 && z1 == 0 {
                assert(cxy == x0 * y1 && cyz == -(y1 * z0)) by (nonlinear_arith)
                    requires
                        cxy == x0 * y1 - x1 * y0,
                        cyz == y0 * z1 - y1 * z0,
                        x1 == 0,
                        z1 == 0,
                ;
                assert(y1 * z0 > 0) by (nonlinear_arith)
                    requires
                        y1 > 0,
                        z0 > 0,
                ;
            } else {
                assert(czx < 0) by (nonlinear_arith)
                    requires
                        cxy * z1 + cyz * x1 + czx * y1 == 0,
                        cxy > 0,
                        cyz > 0,
                        x1 >= 0,
                        y1 > 0,
                        z1 >= 0,
                        x1 > 0 || z1 > 0,
                ;
            }
        } else {
            assert(cxy == 0) by (nonlinear_arith)
                requires
                    cxy == x0 * y1 - x1 * y0,
                    x1 == 0,
                    y1 == 0,
            ;
        }
        assert(x0 * z1 - x1 * z0 == -czx) by (nonlinear_arith)
            requires
                czx == z0 * x1 - z1 * x0,
        ;
    }
}

/// The angle order is asymmetric.
pub proof fn lemma_angle_lt_asymmetric(x: (int, int, int), y: (int, int, int))
    requires
        angle_lt(x, y),
    ensures
        !angle_lt(y, x),
{
    assert(cross(y, x) == -cross(x, y)) by (nonlinear_arith);
}

proof fn lemma_parallel_squares(a1: int, b1: int, c1: int, a2: int, b2: int, c2: int)
    requires
        a1 * b2 == b1 * a2,
        a1 * a1 + b1 * b1 == c1 * c1,
        a2 * a2 + b2 * b2 == c2 * c2,
    ensures
        (a1 * c2) * (a1 * c2) == (a2 * c1) * (a2 * c1),
        (b1 * c2) * (b1 * c2) == (b2 * c1) * (b2 * c1),
{
    lemma_rearrange_four(a1, c2, a1, c2);
    lemma_rearrange_four(a2, c1, a2, c1);
    lemma_rearrange_four(b1, c2, b1, c2);
    lemma_rearrange_four(b2, c1, b2, c1);
    lemma_rearrange_four(a1, b2, a1, b2);
    lemma_rearrange_four(b1, a2, b1, a2);
    lemma_mul_is_distributive_add(a1 * a1, a2 * a2, b2 * b2);
    lemma_mul_is_distributive_add(a2 * a2, a1 * a1, b1 * b1);
    lemma_mul_is_distributive_add(b1 * b1, a2 * a2, b2 * b2);
    lemma_mul_is_distributive_add(b2 * b2, a1 * a1, b1 * b1);
    lemma_mul_is_commutative(a1 * a1, a2 * a2);
    lemma_mul_is_commutative(b1 * b1, b2 * b2);
    lemma_mul_is_commutative(a1 * a1, b2 * b2);
    lemma_mul_is_commutative(b1 * b1, a2 * a2);
}

/// Equal squares of numbers of the same sign are equal.
proof fn lemma_equal_squares_same_sign(x: int, y: int)
    requires
        x * x == y * y,
        (x > 0 && y > 0) || (x < 0 && y < 0) || (x == 0 && y == 0),
    ensures
        x == y,
{
    assert((x - y) * (x + y) == 0) by (nonlinear_arith)
        requires
            x * x == y * y,
    ;
    assert(x == y) by (nonlinear_arith)
        requires
            (x - y) * (x + y) == 0,
            (x > 0 && y > 0) || (x < 0 && y < 0) || (x == 0 && y == 0),
    ;
}

/// The sign of `x` times a positive number is the sign of `x`.
proof fn lemma_sign_scaled(x: int, k: int)
    requires
        k > 0,
    ensures
        x > 0 ==> x * k > 0,
        x < 0 ==> x * k < 0,
        x == 0 ==> x * k == 0,
{
    assert(x > 0 ==> x * k > 0) by (nonlinear_arith)
        requires
            k > 0,
    ;
    assert(x < 0 ==> x * k < 0) by (nonlinear_arith)
        requires
            k > 0,
    ;
    assert(x == 0 ==> x * k == 0) by (nonlinear_arith);
}

/// Two Pythagorean triples in lowest terms with positive hypotenuses that
/// point the same way are equal: distinct database directions have distinct angles.
pub proof fn lemma_same_angle_same_direction(x: (int, int, int), y: (int, int, int))
    requires
        is_pythagorean(x),
        is_pythagorean(y),
        x.2 > 0,
        y.2 > 0,
        normalize(x) == x,
        normalize(y) == y,
        half_plane(x) == half_plane(y),
        cross(x, y) == 0,
    ensures
        x == y,
{
    let (a1, b1, c1, a2, b2, c2) = (x.0, x.1, x.2, y.0, y.1, y.2);
    assert(a1 * b2 == b1 * a2);
    lemma_parallel_squares(a1, b1, c1, a2, b2, c2);
    crate::direction_laws::lemma_pythagorean_nonzero(x);
    crate::direction_laws::lemma_pythagorean_nonzero(y);
    // The legs of x and of y have the same signs.
    assert((a1 > 0 && a2 > 0) || (a1 < 0 && a2 < 0) || (a1 == 0 && a2 == 0)) by {
        if b1 != 0 && b2 != 0 {
            assert((b1 > 0 && b2 > 0) || (b1 < 0 && b2 < 0));
            lemma_sign_scaled(a1, if b2 > 0 { b2 } else { -b2 });
            lemma_sign_scaled(a2, if b1 > 0 { b1 } else { -b1 });
            assert(a1 * (-b2) == -(a1 * b2) && a2 * (-b1) == -(b1 * a2) && a2 * b1 == b1 * a2)
                by (nonlinear_arith);
        } else if b1 == 0 {
            assert(a1 * b2 == 0) by (nonlinear_arith)
                requires
                    a1 * b2 == b1 * a2,
                    b1 == 0,
            ;
            assert(b2 == 0) by (nonlinear_arith)
                requires
                    a1 * b2 == 0,
                    a1 != 0,
            ;
        } else {
            assert(b1 * a2 == 0) by (nonlinear_arith)
                requires
                    a1 * b2 == b1 * a2,
                    b2 == 0,
            ;
            assert(a2 == 0) by (nonlinear_arith)
                requires
                    b1 * a2 == 0,
                    b1 != 0,
            ;
            assert(b1 == 0 || a2 != 0);
        }
    }
    assert((b1 > 0 && b2 > 0) || (b1 < 0 && b2 < 0) || (b1 == 0 && b2 == 0)) by {
        if a1 != 0 && a2 != 0 {
            if b1 == 0 || b2 == 0 {
                assert(b1 * a2 == 0 || a1 * b2 == 0) by (nonlinear_arith)
                    requires
                        b1 == 0 || b2 == 0,
                ;
                assert(a1 * b2 == 0 && b1 * a2 == 0);
                assert(b1 == 0 && b2 == 0) by (nonlinear_arith)
                    requires
                        a1 * b2 == 0,
                        b1 * a2 == 0,
                        a1 != 0,
                        a2 != 0,
                ;
            }
        }
    }
    lemma_sign_scaled(a1, c2);
    lemma_sign_scaled(a2, c1);
    lemma_sign_scaled(b1, c2);
    lemma_sign_scaled(b2, c1);
    lemma_equal_squares_same_sign(a1 * c2, a2 * c1);
    lemma_equal_squares_same_sign(b1 * c2, b2 * c1);
    assert(scale(x, c2) == scale(y, c1)) by (nonlinear_arith)
        requires
            a1 * c2 == a2 * c1,
            b1 * c2 == b2 * c1,
            x == (a1, b1, c1),
            y == (a2, b2, c2),
    ;
    crate::direction_laws::lemma_normalize_scale(x, c2);
    crate::direction_laws::lemma_normalize_scale(y, c1);
}

/// No direction comes before itself.
proof fn lemma_angle_lt_irreflexive(x: (int, int, int))
    ensures
        !angle_lt(x, x),
{
    assert(cross(x, x) == 0) by (nonlinear_arith);
}

/// Two lists in strictly increasing angle with the same entries are equal.
pub proof fn lemma_sorted_lists_equal(v: Seq<(int, int, int)>, w: Seq<(int, int, int)>)
    requires
        strictly_sorted_by_angle(v),
        strictly_sorted_by_angle(w),
        forall|x: (int, int, int)| v.contains(x) <==> w.contains(x),
    ensures
        v == w,
    decreases v.len(),
{
    if v.len() == 0 {
        if w.len() > 0 {
            assert(w.contains(w[0]));
        }
        assert(v =~= w);
    } else {
        assert(v.contains(v[0]));
        assert(w.len() > 0);
        assert(w.contains(w[0]));
        let j = choose|j: int| 0 <= j < w.len() && w[j] == v[0];
        let k = choose|k: int| 0 <= k < v.len() && v[k] == w[0];
        // v[0] and w[0] are both the first entry in angle.
        if j > 0 && k > 0 {
            assert(angle_lt(w[0], w[j]));
            assert(angle_lt(v[0], v[k]));
            lemma_angle_lt_asymmetric(v[0], w[0]);
        }
        assert(v[0] == w[0]);
        let v1 = v.drop_first();
        let w1 = w.drop_first();
        assert forall|x: (int, int, int)| v1.contains(x) <==> w1.contains(x) by {
            if v1.contains(x) {
                let a = choose|a: int| 0 <= a < v1.len() && v1[a] == x;
                assert(v[a + 1] == x);
                assert(angle_lt(v[0], v[a + 1]));
                assert(w.contains(x));
                let b = choose|b: int| 0 <= b < w.len() && w[b] == x;
                if b == 0 {
                    lemma_angle_lt_irreflexive(x);
                }
                assert(w1[b - 1] == x);
            }
            if w1.contains(x) {
                let a = choose|a: int| 0 <= a < w1.len() && w1[a] == x;
                assert(w[a + 1] == x);
                assert(angle_lt(w[0], w[a + 1]));
                assert(v.contains(x));
                let b = choose|b: int| 0 <= b < v.len() && v[b] == x;
                if b == 0 {
                    lemma_angle_lt_irreflexive(x);
                }
                assert(v1[b - 1] == x);
            }
        }
        assert forall|a: int, b: int| 0 <= a < b < v1.len() implies angle_lt(#[trigger] v1[a], #[trigger] v1[b]) by {
            assert(v1[a] == v[a + 1] && v1[b] == v[b + 1]);
        }
        assert forall|a: int, b: int| 0 <= a < b < w1.len() implies angle_lt(#[trigger] w1[a], #[trigger] w1[b]) by {
            assert(w1[a] == w[a + 1] && w1[b] == w[b + 1]);
        }
        lemma_sorted_lists_equal(v1, w1);
        assert(v =~= seq![v[0]] + v1);
        assert(w =~= seq![w[0]] + w1);
    }
}

/// The database is determined: any two lists that meet its description are equal.
pub proof fn lemma_database_unique(v: Seq<(int, int, int)>, w: Seq<(int, int, int)>)
    requires
        is_direction_database(v),
        is_direction_database(w),
    ensures
        v == w,
{
    lemma_database_is_set(v);
    lemma_database_is_set(w);
    assert forall|x: (int, int, int)| v.contains(x) <==> w.contains(x) by {
        assert(v.to_set().contains(x) == v.contains(x));
        assert(w.to_set().contains(x) == w.contains(x));
    }
    lemma_sorted_lists_equal(v, w);
}

/// `atan2(x.b, x.a) < atan2(y.b, y.a)`, decided exactly on the integers.
fn angle_less(x: &Direction48, y: &Direction48) -> (r: bool)
    ensures
        r == angle_lt(x@, y@),
{
    let hx: u8 = if x.b.is_negative() {
        0
    } else if x.b.is_zero() && x.a.is_negative() {
        2
    } else {
        1
    };
    let hy: u8 = if y.b.is_negative() {
        0
    } else if y.b.is_zero() && y.a.is_negative() {
        2
    } else {
        1
    };
    if hx != hy {
        return hx < hy;
    }
    let cr = x.a.mul(&y.b).sub(&x.b.mul(&y.a));
    !cr.is_negative() && !cr.is_zero()
}

/// Whether `v` already holds a direction equal to `d` once both are normalized.
fn contains_direction(v: &Vec<Direction48>, d: &Direction48) -> (r: bool)
    requires
        forall|j: int| 0 <= j < v@.len() ==> !is_zero_triple(#[trigger] v@[j]@),
        !is_zero_triple(d@),
    ensures
        r == exists|j: int| 0 <= j < v@.len() && normalize(#[trigger] v@[j]@) == normalize(d@),
{
    let mut i: usize = 0;
    while i < v.len()
        invariant
            i <= v@.len(),
            forall|j: int| 0 <= j < v@.len() ==> !is_zero_triple(#[trigger] v@[j]@),
            !is_zero_triple(d@),
            forall|j: int| 0 <= j < i ==> normalize(#[trigger] v@[j]@) != normalize(d@),
        decreases v@.len() - i,
    {
        if v[i].eq_normalized(d) {
            return true;
        }
        i = i + 1;
    }
    false
}

/// The eight sign/swap symmetries of a triple with small entries.
fn symmetry_exec(t: (i64, i64, i64), s: usize) -> (r: (i64, i64, i64))
    requires
        0 <= t.0 <= DATABASE_MAX_HYPOTENUSE,
        0 <= t.1 <= DATABASE_MAX_HYPOTENUSE,
        s < 8,
    ensures
        triple_ints(r) == symmetry(triple_ints(t), s as int),
{
    let (a, b, c) = t;
    if s == 0 {
        (a, b, c)
    } else if s == 1 {
        (-a, b, c)
    } else if s == 2 {
        (a, -b, c)
    } else if s == 3 {
        (-a, -b, c)
    } else if s == 4 {
        (b, a, c)
    } else if s == 5 {
        (-b, a, c)
    } else if s == 6 {
        (b, -a, c)
    } else {
        (-b, -a, c)
    }
}

/// Sort directions by angle (stable insertion sort).
fn sort_by_angle(v: &Vec<Direction48>) -> (r: Vec<Direction48>)
    ensures
        sorted_by_angle(views(r@)),
        views(r@).len() == views(v@).len(),
        forall|x: (int, int, int)| views(r@).contains(x) <==> views(v@).contains(x),
        views(v@).no_duplicates() ==> views(r@).no_duplicates(),
{
    let mut sorted: Vec<Direction48> = Vec::new();
    let mut i: usize = 0;
    while i < v.len()
        invariant
            i <= v@.len(),
            sorted_by_angle(views(sorted@)),
            views(sorted@).len() == i,
            forall|x: (int, int, int)| views(sorted@).contains(x) <==> views(v@).subrange(0, i as int).contains(x),
            views(v@).no_duplicates() ==> views(sorted@).no_duplicates(),
        decreases v@.len() - i,
    {
        let d = v[i].duplicate();
        let mut p: usize = 0;
        while p < sorted.len() && !angle_less(&d, &sorted[p])
            invariant
                p <= sorted@.len(),
                d@ == v@[i as int]@,
                forall|j: int| 0 <= j < p ==> !angle_lt(d@, #[trigger] views(sorted@)[j]),
            decreases sorted@.len() - p,
        {
            p = p + 1;
        }
        let ghost old_views = views(sorted@);
        let ghost dv = d@;
        sorted.insert(p, d);
        proof {
            let nv = views(sorted@);
            assert(nv =~= old_views.insert(p as int, dv));
            assert forall|a: int, b: int| 0 <= a < b < nv.len() implies !angle_lt(#[trigger] nv[b], #[trigger] nv[a]) by {
                if b < p {
                    assert(nv[a] == old_views[a] && nv[b] == old_views[b]);
                } else if b == p {
                    assert(nv[a] == old_views[a]);
                } else if a < p {
                    assert(nv[a] == old_views[a] && nv[b] == old_views[b - 1]);
                    if angle_lt(old_views[b - 1], old_views[a]) {
                        assert(!angle_lt(old_views[b - 1], old_views[a]));
                    }
                } else if a == p {
                    assert(nv[b] == old_views[b - 1]);
                    // dv < old_views[p] (the scan stopped there) and old_views is sorted.
                    if angle_lt(old_views[b - 1], dv) {
                        assert(p < old_views.len());
                        assert(angle_lt(dv, old_views[p as int]));
                        if b - 1 == p {
                            lemma_angle_lt_asymmetric(dv, old_views[p as int]);
                        } else {
                            lemma_angle_lt_transitive(old_views[b - 1], dv, old_views[p as int]);
                        }
                    }
                } else {
                    assert(nv[a] == old_views[a - 1] && nv[b] == old_views[b - 1]);
                }
            }
            let prefix = views(v@).subrange(0, i as int + 1);
            assert(prefix =~= views(v@).subrange(0, i as int).push(dv));
            assert forall|x: (int, int, int)| nv.contains(x) <==> prefix.contains(x) by {
                if nv.contains(x) {
                    let j = choose|j: int| 0 <= j < nv.len() && nv[j] == x;
                    if j < p {
                        assert(old_views[j] == x);
                        assert(old_views.contains(x));
                    } else if j > p {
                        assert(old_views[j - 1] == x);
                        assert(old_views.contains(x));
                    } else {
                        assert(prefix[i as int] == x);
                    }
                }
                if prefix.contains(x) {
                    let j = choose|j: int| 0 <= j < prefix.len() && prefix[j] == x;
                    if j < i {
                        assert(views(v@).subrange(0, i as int)[j] == x);
                        assert(old_views.contains(x));
                        let q = choose|q: int| 0 <= q < old_views.len() && old_views[q] == x;
                        if q < p {
                            assert(nv[q] == x);
                        } else {
                            assert(nv[q + 1] == x);
                        }
                    } else {
                        assert(nv[p as int] == x);
                    }
                }
            }
            if views(v@).no_duplicates() {
                assert(!old_views.contains(dv)) by {
                    if old_views.contains(dv) {
                        assert(views(v@).subrange(0, i as int).contains(dv));
                        let j = choose|j: int| 0 <= j < i && views(v@).subrange(0, i as int)[j] == dv;
                        assert(views(v@)[j] == views(v@)[i as int]);
                    }
                }
                assert forall|a: int, b: int| 0 <= a < nv.len() && 0 <= b < nv.len() && a != b implies nv[a] != nv[b] by {
                    if a != p && b != p {
                        let a2 = if a < p { a } else { a - 1 };
                        let b2 = if b < p { b } else { b - 1 };
                        assert(nv[a] == old_views[a2] && nv[b] == old_views[b2]);
                    } else if a == p {
                        let b2 = if b < p { b } else { b - 1 };
                        assert(nv[b] == old_views[b2]);
                    } else {
                        let a2 = if a < p { a } else { a - 1 };
                        assert(nv[a] == old_views[a2]);
                    }
                }
            }
        }
        i = i + 1;
    }
    proof {
        assert(views(v@).subrange(0, v@.len() as int) =~= views(v@));
    }
    sorted
}

/// Build the direction database: all distinct normalized sign/swap
/// symmetries of the Pythagorean triples with hypotenuse at most 100,
/// sorted by angle.
fn build_directions() -> (r: Vec<Direction48>)
    ensures
        is_direction_database(views(r@)),
{
    let triples = enumerate_pythagorean_triples(DATABASE_MAX_HYPOTENUSE);
    proof {
        lemma_sorted_list_is_set(triples@, DATABASE_MAX_HYPOTENUSE as int);
    }
    let mut dir_set: Vec<Direction48> = Vec::new();
    let mut i: usize = 0;
    while i < triples.len()
        invariant
            i <= triples@.len(),
            triples@.to_set() == pythagorean_triple_set(DATABASE_MAX_HYPOTENUSE as int),
            forall|t: (i64, i64, i64)| triples@.contains(t) <==> is_pythagorean_triple(t, DATABASE_MAX_HYPOTENUSE as int),
            forall|j: int| 0 <= j < dir_set@.len() ==> is_database_direction(#[trigger] views(dir_set@)[j]),
            forall|i2: int, s: int| 0 <= i2 < i && 0 <= s < 8 ==> views(dir_set@).contains(#[trigger] database_candidate(triples@[i2], s)),
            views(dir_set@).no_duplicates(),
        decreases triples@.len() - i,
    {
        let t = triples[i];
        proof {
            assert(triples@.contains(t));
            lemma_pythagorean_triple_bounds(t, DATABASE_MAX_HYPOTENUSE as int);
            assert(triples@.to_set().contains(t));
        }
        let mut s: usize = 0;
        while s < 8
            invariant
                i < triples@.len(),
                t == triples@[i as int],
                s <= 8,
                0 < t.0 <= t.1 < t.2 <= DATABASE_MAX_HYPOTENUSE,
                pythagorean_triple_set(DATABASE_MAX_HYPOTENUSE as int).contains(t),
                forall|j: int| 0 <= j < dir_set@.len() ==> is_database_direction(#[trigger] views(dir_set@)[j]),
                forall|i2: int, s2: int| 0 <= i2 < i && 0 <= s2 < 8 ==> views(dir_set@).contains(#[trigger] database_candidate(triples@[i2], s2)),
                forall|s2: int| 0 <= s2 < s ==> views(dir_set@).contains(#[trigger] database_candidate(t, s2)),
                views(dir_set@).no_duplicates(),
            decreases 8 - s,
        {
            let (sa, sb, sc) = symmetry_exec(t, s);
            proof {
                lemma_candidate_facts(t, s as int);
            }
            let dir = Direction48::new(sa, sb, sc).normalized();
            assert(dir@ == database_candidate(t, s as int));
            proof {
                assert forall|j: int| 0 <= j < dir_set@.len() implies !is_zero_triple(#[trigger] dir_set@[j]@)
                    && normalize(dir_set@[j]@) == dir_set@[j]@ by {
                    assert(views(dir_set@)[j] == dir_set@[j]@);
                    assert(is_database_direction(views(dir_set@)[j]));
                    let (t2, s2) = choose|t2: (i64, i64, i64), s2: int|
                        pythagorean_triple_set(DATABASE_MAX_HYPOTENUSE as int).contains(t2) && 0 <= s2 < 8
                            && views(dir_set@)[j] == #[trigger] database_candidate(t2, s2);
                    lemma_candidate_facts(t2, s2);
                }
            }
            let ghost before = views(dir_set@);
            if !contains_direction(&dir_set, &dir) {
                dir_set.push(dir);
                proof {
                    let after = views(dir_set@);
                    assert(after =~= before.push(database_candidate(t, s as int)));
                    assert(is_database_direction(database_candidate(t, s as int)));
                    assert(!before.contains(database_candidate(t, s as int))) by {
                        if before.contains(database_candidate(t, s as int)) {
                            let j = choose|j: int| 0 <= j < before.len() && before[j] == database_candidate(t, s as int);
                            assert(dir_set@[j]@ == before[j]);
                        }
                    }
                    assert forall|i2: int, s2: int| 0 <= i2 < i && 0 <= s2 < 8 implies after.contains(#[trigger] database_candidate(triples@[i2], s2)) by {
                        assert(before.contains(database_candidate(triples@[i2], s2)));
                        let j = choose|j: int| 0 <= j < before.len() && before[j] == database_candidate(triples@[i2], s2);
                        assert(after[j] == before[j]);
                    }
                    assert forall|s2: int| 0 <= s2 < s + 1 implies after.contains(#[trigger] database_candidate(t, s2)) by {
                        if s2 < s {
                            assert(before.contains(database_candidate(t, s2)));
                            let j = choose|j: int| 0 <= j < before.len() && before[j] == database_candidate(t, s2);
                            assert(after[j] == before[j]);
                        } else {
                            assert(after[before.len() as int] == database_candidate(t, s2));
                        }
                    }
                }
            } else {
                proof {
                    let j = choose|j: int| 0 <= j < dir_set@.len() && normalize(#[trigger] dir_set@[j]@) == normalize(dir@);
                    assert(views(dir_set@)[j] == database_candidate(t, s as int));
                    assert(views(dir_set@).contains(database_candidate(t, s as int)));
                }
            }
            s = s + 1;
        }
        i = i + 1;
    }
    proof {
        assert forall|t: (i64, i64, i64), s: int|
            pythagorean_triple_set(DATABASE_MAX_HYPOTENUSE as int).contains(t) && 0 <= s < 8 implies views(dir_set@).contains(
            #[trigger] database_candidate(t, s)) by {
            assert(triples@.to_set().contains(t));
            let j = choose|j: int| 0 <= j < triples@.len() && triples@[j] == t;
            assert(views(dir_set@).contains(database_candidate(triples@[j], s)));
        }
    }
    let sorted = sort_by_angle(&dir_set);
    proof {
        let sv = views(sorted@);
        let dv = views(dir_set@);
        assert forall|j: int| 0 <= j < sv.len() implies is_database_direction(#[trigger] sv[j]) by {
            assert(sv.contains(sv[j]));
            assert(dv.contains(sv[j]));
        }
        assert forall|t: (i64, i64, i64), s: int|
            pythagorean_triple_set(DATABASE_MAX_HYPOTENUSE as int).contains(t) && 0 <= s < 8 implies sv.contains(
            #[trigger] database_candidate(t, s)) by {
            assert(dv.contains(database_candidate(t, s)));
        }
        lemma_database_entries_valid(sv);
        assert forall|i: int, j: int| 0 <= i < j < sv.len() implies angle_lt(#[trigger] sv[i], #[trigger] sv[j]) by {
            assert(!angle_lt(sv[j], sv[i]));
            assert(sv[i] != sv[j]);
            assert(cross(sv[j], sv[i]) == -cross(sv[i], sv[j])) by (nonlinear_arith);
            if half_plane(sv[i]) == half_plane(sv[j]) && cross(sv[i], sv[j]) == 0 {
                lemma_same_angle_same_direction(sv[i], sv[j]);
            }
        }
    }
    sorted
}

/// All distinct Pythagorean48 directions, sorted by angle.
pub fn all_directions() -> (r: Vec<Direction48>)
    ensures
        is_direction_database(views(r@)),
{
    build_directions()
}

/// The number of distinct Pythagorean48 directions.
pub fn pythagorean48_count() -> (r: usize)
    ensures
        r == database_direction_set().len(),
{
    let dirs = all_directions();
    proof {
        lemma_database_is_set(views(dirs@));
    }
    dirs.len()
}

/// The database lists every database direction exactly once.
pub proof fn lemma_database_is_set(v: Seq<(int, int, int)>)
    requires
        is_direction_database(v),
    ensures
        v.to_set() == database_direction_set(),
        v.len() == database_direction_set().len(),
{
    assert forall|d: (int, int, int)| v.to_set().contains(d) <==> database_direction_set().contains(d) by {
        if v.to_set().contains(d) {
            assert(v.contains(d));
            let i = choose|i: int| 0 <= i < v.len() && v[i] == d;
            assert(is_database_direction(v[i]));
        }
        if database_direction_set().contains(d) {
            let (t, s) = choose|t: (i64, i64, i64), s: int|
                pythagorean_triple_set(DATABASE_MAX_HYPOTENUSE as int).contains(t) && 0 <= s < 8 && d
                    == #[trigger] database_candidate(t, s);
            assert(v.contains(database_candidate(t, s)));
        }
    }
    assert(v.to_set() =~= database_direction_set());
    v.unique_seq_to_set();
}

/// The directions reached by composing, one after another, the database
/// entries at `idx`, starting from the identity: entry `k` is
/// `dirs[idx[k]] ∘ (entry k − 1)`.
pub open spec fn rotation_chain(dirs: Seq<(int, int, int)>, idx: Seq<usize>) -> Seq<(int, int, int)>
    decreases idx.len(),
{
    if idx.len() == 0 {
        Seq::empty()
    } else {
        let prev = rotation_chain(dirs, idx.drop_last());
        let current = if prev.len() == 0 {
            identity_triple()
        } else {
            prev.last()
        };
        prev.push(compose_triples(dirs[idx.last() as int], current))
    }
}

pub proof fn lemma_rotation_chain_len(dirs: Seq<(int, int, int)>, idx: Seq<usize>)
    ensures
        rotation_chain(dirs, idx).len() == idx.len(),
    decreases idx.len(),
{
    if idx.len() > 0 {
        lemma_rotation_chain_len(dirs, idx.drop_last());
    }
}

/// Zero drift along a chain: when every direction used is a Pythagorean
/// triple, every direction of the chain is one.
pub proof fn lemma_rotation_chain_pythagorean(dirs: Seq<(int, int, int)>, idx: Seq<usize>)
    requires
        forall|i: int| 0 <= i < dirs.len() ==> is_pythagorean(#[trigger] dirs[i]),
        forall|k: int| 0 <= k < idx.len() ==> #[trigger] idx[k] < dirs.len(),
    ensures
        forall|k: int|
            0 <= k < rotation_chain(dirs, idx).len() ==> is_pythagorean(
                #[trigger] rotation_chain(dirs, idx)[k],
            ),
    decreases idx.len(),
{
    if idx.len() > 0 {
        let rest = idx.drop_last();
        lemma_rotation_chain_pythagorean(dirs, rest);
        lemma_rotation_chain_len(dirs, rest);
        let prev = rotation_chain(dirs, rest);
        let current = if prev.len() == 0 {
            identity_triple()
        } else {
            prev.last()
        };
        assert(idx[idx.len() - 1] < dirs.len());
        if prev.len() > 0 {
            assert(is_pythagorean(prev[prev.len() - 1]));
        } else {
            assert(1int * 1int + 0int * 0int == 1int * 1int) by (nonlinear_arith);
            assert(is_pythagorean(identity_triple()));
        }
        lemma_compose_keeps_pythagorean(dirs[idx.last() as int], current);
        let chain = rotation_chain(dirs, idx);
        assert forall|k: int| 0 <= k < chain.len() implies is_pythagorean(#[trigger] chain[k]) by {
            if k < prev.len() {
                assert(chain[k] == prev[k]);
            }
        }
    }
}

/// Compose, one after another, the directions of `dirs` at the given
/// indices, starting from the identity; every intermediate direction is kept.
pub fn chain_from_indices(dirs: &Vec<Direction48>, indices: &Vec<usize>) -> (r: Vec<Direction48>)
    requires
        forall|k: int| 0 <= k < indices@.len() ==> #[trigger] indices@[k] < dirs@.len(),
    ensures
        views(r@) == rotation_chain(views(dirs@), indices@),
{
    let mut current = Direction48::identity();
    let mut results: Vec<Direction48> = Vec::new();
    let mut k: usize = 0;
    while k < indices.len()
        invariant
            k <= indices@.len(),
            forall|j: int| 0 <= j < indices@.len() ==> #[trigger] indices@[j] < dirs@.len(),
            views(results@) == rotation_chain(views(dirs@), indices@.subrange(0, k as int)),
            results@.len() == k,
            current@ == (if k == 0 {
                identity_triple()
            } else {
                results@[k - 1]@
            }),
        decreases indices@.len() - k,
    {
        let idx: usize = indices[k];
        current = dirs[idx].compose(&current);
        let ghost before = views(results@);
        results.push(current.duplicate());
        proof {
            let sub = indices@.subrange(0, k as int + 1);
            assert(sub.drop_last() =~= indices@.subrange(0, k as int));
            assert(sub.last() == idx);
            lemma_rotation_chain_len(views(dirs@), indices@.subrange(0, k as int));
            assert(views(dirs@)[idx as int] == dirs@[idx as int]@);
            if k > 0 {
                assert(before.last() == results@[k - 1]@);
            }
            assert(views(results@) =~= before.push(current@));
        }
        k = k + 1;
    }
    proof {
        assert(indices@.subrange(0, indices@.len() as int) =~= indices@);
    }
    results
}

/// `rand::rngs::StdRng`, a seeded pseudo-random generator.
#[verifier::external_type_specification]
#[verifier::external_body]
pub struct ExStdRng(rand::rngs::StdRng);

/// `<StdRng as SeedableRng>::seed_from_u64`: a generator seeded with `seed`.
/// Nothing is stated of its state.
#[verifier::external_body]
fn seeded_rng(seed: u64) -> rand::rngs::StdRng {
    <rand::rngs::StdRng as rand::SeedableRng>::seed_from_u64(seed)
}

/// `Rng::gen_range(0..bound)`: some index below `bound`.  It panics on an
/// empty range, which `requires` leaves out.  Which index comes is not stated.
#[verifier::external_body]
fn random_index(rng: &mut rand::rngs::StdRng, bound: usize) -> (r: usize)
    requires
        bound > 0,
    ensures
        r < bound,
{
    rand::Rng::gen_range(rng, 0..bound)
}

/// Chain `count` rotations drawn at random (from a generator seeded with
/// `seed`) from the direction database, composing with exact arithmetic.
/// Every direction of the chain satisfies `a² + b² = c²`.
pub fn chain_rotations(count: usize, seed: u64) -> (r: Vec<Direction48>)
    ensures
        r@.len() == count,
        forall|k: int| 0 <= k < r@.len() ==> is_pythagorean(#[trigger] r@[k]@),
        exists|dirs: Seq<(int, int, int)>, idx: Seq<usize>|
            is_direction_database(dirs) && idx.len() == count && (forall|k: int|
                0 <= k < idx.len() ==> #[trigger] idx[k] < dirs.len()) && views(r@)
                == rotation_chain(dirs, idx),
{
    let dirs = all_directions();
    proof {
        lemma_database_nonempty(views(dirs@));
        lemma_database_directions_valid(views(dirs@));
    }
    let mut rng = seeded_rng(seed);
    let mut indices: Vec<usize> = Vec::new();
    let mut k: usize = 0;
    while k < count
        invariant
            k <= count,
            indices@.len() == k,
            dirs@.len() > 0,
            forall|j: int| 0 <= j < indices@.len() ==> #[trigger] indices@[j] < dirs@.len(),
        decreases count - k,
    {
        let idx: usize = random_index(&mut rng, dirs.len());
        indices.push(idx);
        k = k + 1;
    }
    let results = chain_from_indices(&dirs, &indices);
    proof {
        let dv = views(dirs@);
        lemma_rotation_chain_len(dv, indices@);
        lemma_rotation_chain_pythagorean(dv, indices@);
        assert forall|j: int| 0 <= j < results@.len() implies is_pythagorean(#[trigger] results@[j]@) by {
            assert(views(results@)[j] == results@[j]@);
        }
    }
    results
}

/// The database entry at `index`, counted around the circle (modulo the size).
pub fn direction_at(dirs: &Vec<Direction48>, index: usize) -> (r: &Direction48)
    requires
        dirs@.len() > 0,
    ensures
        *r == dirs@[(index as int) % (dirs@.len() as int)],
{
    &dirs[index % dirs.len()]
}

} // verus!
