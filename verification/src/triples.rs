//! Pythagorean triples by Euclid's formula.
use crate::arith::{
    gcd, gcd3, divides, lemma_common_divisor_divides_gcd, lemma_coprime_square_factor,
    lemma_divides_one, lemma_divides_quotient, lemma_divides_transitive, lemma_divides_witness,
    lemma_gcd3_divides, lemma_gcd3_scale, lemma_gcd3_zero, lemma_gcd_commutative, lemma_gcd_divides,
    lemma_gcd_zero, lemma_square_divides,
};
use vstd::arithmetic::div_mod::{lemma_fundamental_div_mod, lemma_fundamental_div_mod_converse};
use crate::direction_laws::{lemma_rearrange_four, lemma_square_of_difference, lemma_square_of_sum};
use vstd::arithmetic::mul::{lemma_mul_is_associative, lemma_mul_is_distributive_add};
use crate::triple_set::{empty_triple_set, insert_triple, sorted_triples};
use vstd::prelude::*;

verus! {

/// Lexicographic order on triples: the order in which they are listed.
pub open spec fn lex_lt(x: (i64, i64, i64), y: (i64, i64, i64)) -> bool {
    x.0 < y.0 || (x.0 == y.0 && (x.1 < y.1 || (x.1 == y.1 && x.2 < y.2)))
}

/// Strictly increasing in lexicographic order (so without repetitions).
pub open spec fn strictly_sorted(s: Seq<(i64, i64, i64)>) -> bool {
    forall|i: int, j: int| 0 <= i < j < s.len() ==> lex_lt(#[trigger] s[i], #[trigger] s[j])
}

/// Parameters of Euclid's formula that give a triple with hypotenuse at most
/// `max_c`: `m > n ≥ 1`, `m − n` odd, `gcd(m, n) = 1`, `k ≥ 1`,
/// `k (m² + n²) ≤ max_c`.
pub open spec fn euclid_params(m: int, n: int, k: int, max_c: int) -> bool {
    &&& 1 <= n < m
    &&& (m - n) % 2 == 1
    &&& gcd(m as nat, n as nat) == 1
    &&& k >= 1
    &&& k * (m * m + n * n) <= max_c
}

/// The triple of Euclid's formula, legs in increasing order:
/// `(min(a, b), max(a, b), c)` with `a = k (m² − n²)`, `b = 2kmn`, `c = k (m² + n²)`.
pub open spec fn euclid_triple(m: int, n: int, k: int) -> (i64, i64, i64) {
    let a = k * (m * m - n * n);
    let b = k * (2 * m * n);
    let c = k * (m * m + n * n);
    if a <= b {
        (a as i64, b as i64, c as i64)
    } else {
        (b as i64, a as i64, c as i64)
    }
}

/// `t` is given by Euclid's formula with a hypotenuse at most `max_c`.
pub open spec fn is_euclid_triple(t: (i64, i64, i64), max_c: int) -> bool {
    exists|m: int, n: int, k: int| #[trigger] euclid_params(m, n, k, max_c) && t == euclid_triple(m, n, k)
}

/// A Pythagorean triple `a² + b² = c²` with legs `0 < a ≤ b` and hypotenuse
/// `0 < c ≤ max_c`.
pub open spec fn is_pythagorean_triple(t: (i64, i64, i64), max_c: int) -> bool {
    0 < t.0 <= t.1 && 0 < t.2 <= max_c && t.0 * t.0 + t.1 * t.1 == t.2 * t.2
}

/// All Pythagorean triples `(a, b, c)` with `0 < a ≤ b` and `c ≤ max_c`.
pub open spec fn pythagorean_triple_set(max_c: int) -> Set<(i64, i64, i64)> {
    Set::new(|t: (i64, i64, i64)| is_pythagorean_triple(t, max_c))
}

/// The largest hypotenuse bound accepted, 2^61 − 1: up to it every
/// intermediate of the enumeration (`m² + n²`, `k (m² + n²)`) fits in an
/// `i64`, and the list of triples outgrows any memory long before it.
pub const MAX_HYPOTENUSE_BOUND: i64 = 0x1fff_ffff_ffff_ffff;

/// One more than the integer square root of `MAX_HYPOTENUSE_BOUND`.
const SQRT_BOUND: i64 = 1518500250;

/// Greatest common divisor of two non-negative `i64`s by the Euclidean algorithm.
fn gcd_i64(a: i64, b: i64) -> (r: i64)
    requires
        a >= 0,
        b >= 0,
    ensures
        r == gcd(a as nat, b as nat),
{
    let mut a = a;
    let mut b = b;
    let ghost g = gcd(a as nat, b as nat);
    while b != 0
        invariant
            a >= 0,
            b >= 0,
            gcd(a as nat, b as nat) == g,
        decreases b,
    {
        let t: i64 = b;
        b = a % b;
        a = t;
    }
    a
}

/// Integer square root: the largest `r` with `r² ≤ x`, and 0 for negative `x`.
fn floor_sqrt(x: i64) -> (r: i64)
    requires
        x <= MAX_HYPOTENUSE_BOUND,
    ensures
        x < 0 ==> r == 0,
        x >= 0 ==> r >= 0 && r * r <= x < (r + 1) * (r + 1),
        r < 1518500250,
{
    if x < 0 {
        return 0;
    }
    let mut lo: i64 = 0;
    let mut hi: i64 = SQRT_BOUND;
    assert(1518500250 * 1518500250 > 0x1fff_ffff_ffff_ffff) by (nonlinear_arith);
    while hi - lo > 1
        invariant
            0 <= lo < hi <= SQRT_BOUND,
            lo * lo <= x < hi * hi,
        decreases hi - lo,
    {
        let mid: i64 = lo + (hi - lo) / 2;
        assert(mid * mid <= 1518500250 * 1518500250) by (nonlinear_arith)
            requires
                0 <= mid <= 1518500250,
        ;
        if mid * mid <= x {
            lo = mid;
        } else {
            hi = mid;
        }
    }
    assert(hi == lo + 1);
    lo
}

proof fn lemma_euclid_bounds(m: int, n: int, k: int, max_c: int)
    requires
        1 <= n < m,
        k >= 1,
        k * (m * m + n * n) <= max_c,
    ensures
        0 < k * (m * m - n * n) <= k * (m * m + n * n),
        0 < k * (2 * m * n) <= k * (m * m + n * n),
        m * m + n * n <= max_c,
        m * m < max_c,
{
    assert(n * n >= 1) by (nonlinear_arith)
        requires
            n >= 1,
    ;
    assert(0 < m * m - n * n && m * m - n * n <= m * m + n * n) by (nonlinear_arith)
        requires
            1 <= n < m,
    ;
    assert(0 < 2 * m * n && 2 * m * n <= m * m + n * n) by (nonlinear_arith)
        requires
            1 <= n < m,
    ;
    assert(0 < k * (m * m - n * n) <= k * (m * m + n * n)) by (nonlinear_arith)
        requires
            k >= 1,
            0 < m * m - n * n <= m * m + n * n,
    ;
    assert(0 < k * (2 * m * n) <= k * (m * m + n * n)) by (nonlinear_arith)
        requires
            k >= 1,
            0 < 2 * m * n <= m * m + n * n,
    ;
    assert(m * m + n * n <= k * (m * m + n * n)) by (nonlinear_arith)
        requires
            k >= 1,
            m * m + n * n > 0,
    ;
}

/// Enumerate the Pythagorean triples with `c ≤ max_c` by Euclid's formula:
/// `a = k(m² − n²)`, `b = 2kmn`, `c = k(m² + n²)` where `m > n`,
/// `gcd(m, n) = 1` and `m − n` is odd.  Each triple is listed once, as
/// `(min(a, b), max(a, b), c)`, in increasing lexicographic order.
pub fn enumerate_pythagorean_triples(max_c: i64) -> (r: Vec<(i64, i64, i64)>)
    requires
        max_c <= MAX_HYPOTENUSE_BOUND,
    ensures
        strictly_sorted(r@),
        forall|t: (i64, i64, i64)| r@.contains(t) <==> is_pythagorean_triple(t, max_c as int),
{
    let mut triples = empty_triple_set();
    let max_m: i64 = floor_sqrt(max_c) + 1;
    assert(max_m <= SQRT_BOUND);
    let mut m: i64 = 1;
    while m <= max_m
        invariant
            1 <= m <= max_m + 1,
            max_m <= SQRT_BOUND,
            max_c <= MAX_HYPOTENUSE_BOUND,
            max_c >= 0 ==> max_c < max_m * max_m,
            forall|t: (i64, i64, i64)| #[trigger] triples@.contains(t) ==> is_euclid_triple(t, max_c as int),
            forall|m2: int, n2: int, k2: int|
                #[trigger] euclid_params(m2, n2, k2, max_c as int) && m2 < m ==> triples@.contains(
                    euclid_triple(m2, n2, k2),
                ),
        decreases max_m + 1 - m,
    {
        let mut n: i64 = 1;
        while n < m
            invariant
                1 <= n <= m,
                m <= max_m,
                max_m <= SQRT_BOUND,
                max_c <= MAX_HYPOTENUSE_BOUND,
                max_c >= 0 ==> max_c < max_m * max_m,
                forall|t: (i64, i64, i64)| #[trigger] triples@.contains(t) ==> is_euclid_triple(t, max_c as int),
                forall|m2: int, n2: int, k2: int|
                    #[trigger] euclid_params(m2, n2, k2, max_c as int) && (m2 < m || (m2 == m && n2 < n))
                        ==> triples@.contains(euclid_triple(m2, n2, k2)),
            decreases m - n,
        {
            if (m - n) % 2 == 0 {
                n = n + 1;
                continue;
            }
            if gcd_i64(m, n) != 1 {
                n = n + 1;
                continue;
            }
            assert(m * m <= 1518500250 * 1518500250 && n * n <= m * m && 2 * m * n <= m * m + n * n && 0 <= 2 * m * n && 0 < n * n) by (nonlinear_arith)
                requires
                    1 <= n < m,
                    m <= 1518500250,
            ;
            let a0: i64 = m * m - n * n;
            let b0: i64 = 2 * m * n;
            let c0: i64 = m * m + n * n;
            if c0 > max_c {
                assert forall|k2: int| k2 >= 1 implies !euclid_params(m as int, n as int, k2, max_c as int) by {
                    assert(k2 * c0 >= c0) by (nonlinear_arith)
                        requires
                            k2 >= 1,
                            c0 > 0,
                    ;
                }
                n = n + 1;
                continue;
            }
            let mut k: i64 = 1;
            assert(1 * c0 == c0 && 0 * c0 == 0);
            while k * c0 <= max_c
                invariant
                    1 <= n < m,
                    m <= max_m,
                    max_m <= SQRT_BOUND,
                    max_c <= MAX_HYPOTENUSE_BOUND,
                    (m - n) % 2 == 1,
                    gcd(m as nat, n as nat) == 1,
                    a0 == m * m - n * n,
                    b0 == 2 * m * n,
                    c0 == m * m + n * n,
                    0 < c0 <= max_c,
                    k >= 1,
                    (k - 1) * c0 <= max_c,
                    0 < k * c0 <= max_c + c0,
                    forall|t: (i64, i64, i64)| #[trigger] triples@.contains(t) ==> is_euclid_triple(t, max_c as int),
                    forall|m2: int, n2: int, k2: int|
                        #[trigger] euclid_params(m2, n2, k2, max_c as int) && (m2 < m || (m2 == m && n2 < n) || (m2 == m && n2 == n && k2 < k))
                            ==> triples@.contains(euclid_triple(m2, n2, k2)),
                decreases max_c - (k - 1) * c0,
            {
                proof {
                    assert((k + 1) * c0 == k * c0 + c0 && k <= k * c0 && (k - 1) * c0 + c0 == k * c0) by (nonlinear_arith)
                        requires
                            c0 >= 1,
                            k >= 1,
                    ;
                    lemma_euclid_bounds(m as int, n as int, k as int, max_c as int);
                }
                let a: i64 = k * a0;
                let b: i64 = k * b0;
                let c: i64 = k * c0;
                let t = if a <= b {
                    (a, b, c)
                } else {
                    (b, a, c)
                };
                proof {
                    assert(euclid_params(m as int, n as int, k as int, max_c as int));
                    assert(t == euclid_triple(m as int, n as int, k as int));
                }
                insert_triple(&mut triples, t);
                k = k + 1;
            }
            proof {
                assert forall|k2: int| k2 >= k implies !euclid_params(m as int, n as int, k2, max_c as int) by {
                    assert(k2 * c0 >= k * c0) by (nonlinear_arith)
                        requires
                            k2 >= k,
                            c0 > 0,
                    ;
                }
            }
            n = n + 1;
        }
        m = m + 1;
    }
    proof {
        assert forall|m2: int, n2: int, k2: int| #[trigger]
            euclid_params(m2, n2, k2, max_c as int) implies triples@.contains(euclid_triple(m2, n2, k2)) by {
            lemma_euclid_bounds(m2, n2, k2, max_c as int);
            if m2 > max_m {
                assert(m2 * m2 >= max_m * max_m) by (nonlinear_arith)
                    requires
                        m2 > max_m,
                        max_m >= 0,
                ;
            }
        }
        assert forall|t: (i64, i64, i64)| triples@.contains(t) <==> is_pythagorean_triple(t, max_c as int) by {
            if triples@.contains(t) {
                lemma_euclid_triple_valid(t, max_c as int);
            }
            if is_pythagorean_triple(t, max_c as int) {
                lemma_pythagorean_triple_is_euclid(t.0 as int, t.1 as int, t.2 as int, max_c as int);
                assert((t.0 as i64, t.1 as i64, t.2 as i64) == t);
                let (m, n, k) = choose|m: int, n: int, k: int| #[trigger]
                    euclid_params(m, n, k, max_c as int) && t == euclid_triple(m, n, k);
                assert(triples@.contains(euclid_triple(m, n, k)));
            }
        }
    }
    sorted_triples(&triples)
}

/// Every triple of Euclid's formula is a Pythagorean triple `a² + b² = c²`
/// with `0 < a ≤ b < c ≤ max_c`.
pub proof fn lemma_euclid_triple_valid(t: (i64, i64, i64), max_c: int)
    requires
        is_euclid_triple(t, max_c),
        max_c <= MAX_HYPOTENUSE_BOUND,
    ensures
        0 < t.0 <= t.1 < t.2 <= max_c,
        t.0 * t.0 + t.1 * t.1 == t.2 * t.2,
{
    let (m, n, k) = choose|m: int, n: int, k: int| #[trigger]
        euclid_params(m, n, k, max_c) && t == euclid_triple(m, n, k);
    let a = k * (m * m - n * n);
    let b = k * (2 * m * n);
    let c = k * (m * m + n * n);
    assert(0 < a < c && 0 < b < c) by (nonlinear_arith)
        requires
            1 <= n < m,
            k >= 1,
            a == k * (m * m - n * n),
            b == k * (2 * m * n),
            c == k * (m * m + n * n),
    ;
    lemma_euclid_identity(m, n, k);
}

/// `(k(m² − n²))² + (2kmn)² = (k(m² + n²))²`.
pub proof fn lemma_euclid_identity(m: int, n: int, k: int)
    ensures
        (k * (m * m - n * n)) * (k * (m * m - n * n)) + (k * (2 * m * n)) * (k * (2 * m * n)) == (k
            * (m * m + n * n)) * (k * (m * m + n * n)),
{
    let p = m * m;
    let q = n * n;
    let r = m * n;
    lemma_square_of_difference(p, q);
    lemma_square_of_sum(p, q);
    lemma_rearrange_four(m, n, m, n);
    lemma_mul_is_associative(2, m, n);
    assert((2 * r) * (2 * r) == 4 * (r * r)) by (nonlinear_arith);
    lemma_rearrange_four(k, p - q, k, p - q);
    lemma_rearrange_four(k, 2 * r, k, 2 * r);
    lemma_rearrange_four(k, p + q, k, p + q);
    lemma_mul_is_distributive_add(k * k, (p - q) * (p - q), (2 * r) * (2 * r));
}

/// Count of the Pythagorean triples with `c ≤ 100`.
pub fn pythagorean_triple_count() -> (r: usize)
    ensures
        r == pythagorean_triple_set(100).len(),
{
    let t = enumerate_pythagorean_triples(100);
    proof {
        lemma_sorted_list_is_set(t@, 100);
    }
    t.len()
}

/// A strictly sorted list of exactly the Pythagorean triples with hypotenuse
/// at most `max_c` has one entry per triple.
pub proof fn lemma_sorted_list_is_set(s: Seq<(i64, i64, i64)>, max_c: int)
    requires
        strictly_sorted(s),
        forall|t: (i64, i64, i64)| s.contains(t) <==> is_pythagorean_triple(t, max_c),
    ensures
        s.to_set() == pythagorean_triple_set(max_c),
        s.len() == pythagorean_triple_set(max_c).len(),
{
    assert forall|i: int, j: int| 0 <= i < s.len() && 0 <= j < s.len() && i != j implies s[i] != s[j] by {
        if i < j {
            assert(lex_lt(s[i], s[j]));
        } else {
            assert(lex_lt(s[j], s[i]));
        }
    }
    assert(s.no_duplicates());
    assert(s.to_set() =~= pythagorean_triple_set(max_c));
    s.unique_seq_to_set();
}

/// Bounds of the entries of a listed Pythagorean triple.
pub proof fn lemma_pythagorean_triple_bounds(t: (i64, i64, i64), max_c: int)
    requires
        is_pythagorean_triple(t, max_c),
    ensures
        0 < t.0 <= t.1 < t.2 <= max_c,
{
    let (a, b, c) = (t.0 as int, t.1 as int, t.2 as int);
    assert(b < c) by (nonlinear_arith)
        requires
            a > 0,
            b > 0,
            c > 0,
            a * a + b * b == c * c,
    ;
}

/// Euclid's formula gives exactly the Pythagorean triples: with `m > n ≥ 1`
/// coprime of opposite parity and `k ≥ 1`, every triple `(a, b, c)` with
/// `0 < a ≤ b`, `a² + b² = c²`, `c ≤ max_c` arises once its legs are ordered.
pub proof fn lemma_euclid_set_is_pythagorean_set(max_c: int)
    requires
        max_c <= MAX_HYPOTENUSE_BOUND,
    ensures
        forall|t: (i64, i64, i64)| is_euclid_triple(t, max_c) <==> is_pythagorean_triple(t, max_c),
{
    assert forall|t: (i64, i64, i64)| is_euclid_triple(t, max_c) <==> is_pythagorean_triple(t, max_c) by {
        if is_euclid_triple(t, max_c) {
            lemma_euclid_triple_valid(t, max_c);
        }
        if is_pythagorean_triple(t, max_c) {
            lemma_pythagorean_triple_is_euclid(t.0 as int, t.1 as int, t.2 as int, max_c);
            assert((t.0 as i64, t.1 as i64, t.2 as i64) == t);
        }
    }
}

/// The square of an even number is a multiple of 4; that of an odd number is
/// one more than a multiple of 4.
proof fn lemma_square_mod_four(x: int)
    ensures
        x % 2 == 0 ==> (x * x) % 4 == 0,
        x % 2 == 1 ==> (x * x) % 4 == 1,
{
    lemma_fundamental_div_mod(x, 2);
    let y = x / 2;
    let r = x % 2;
    if r == 0 {
        assert(x * x == (y * y) * 4) by (nonlinear_arith)
            requires
                x == 2 * y,
        ;
        lemma_fundamental_div_mod_converse(x * x, 4, y * y, 0);
    } else {
        assert(x * x == (y * y + y) * 4 + 1) by (nonlinear_arith)
            requires
                x == 2 * y + 1,
        ;
        lemma_fundamental_div_mod_converse(x * x, 4, y * y + y, 1);
    }
}

/// Every Pythagorean triple `a² + b² = c²` with `0 < a ≤ b` and `0 < c ≤ max_c`
/// is given by Euclid's formula: there are `m > n ≥ 1` with `gcd(m, n) = 1`
/// and `m − n` odd, and `k ≥ 1`, that give it.
pub proof fn lemma_pythagorean_triple_is_euclid(a: int, b: int, c: int, max_c: int)
    requires
        0 < a <= b,
        0 < c <= max_c,
        max_c <= MAX_HYPOTENUSE_BOUND,
        a * a + b * b == c * c,
    ensures
        is_euclid_triple((a as i64, b as i64, c as i64), max_c),
{
    // Divide out the common factor g.
    let g = gcd3(a as nat, b as nat, c as nat);
    lemma_gcd3_zero(a as nat, b as nat, c as nat);
    lemma_gcd3_divides(a as nat, b as nat, c as nat);
    lemma_divides_quotient(g, a);
    lemma_divides_quotient(g, b);
    lemma_divides_quotient(g, c);
    let a1 = a / (g as int);
    let b1 = b / (g as int);
    let c1 = c / (g as int);
    assert(a1 > 0 && b1 > 0 && c1 > 0 && a1 <= b1) by (nonlinear_arith)
        requires
            a == g * a1,
            b == g * b1,
            c == g * c1,
            0 < a <= b,
            c > 0,
            g > 0,
    ;
    lemma_gcd3_scale(a1 as nat, b1 as nat, c1 as nat, g);
    assert(gcd3(a1 as nat, b1 as nat, c1 as nat) == 1) by (nonlinear_arith)
        requires
            g * gcd3(a1 as nat, b1 as nat, c1 as nat) == g,
            g > 0,
    ;
    assert(a1 * a1 + b1 * b1 == c1 * c1) by (nonlinear_arith)
        requires
            a == g * a1,
            b == g * b1,
            c == g * c1,
            a * a + b * b == c * c,
            g > 0,
    ;
    let h = gcd3(a1 as nat, b1 as nat, c1 as nat);
    lemma_square_mod_four(a1);
    lemma_square_mod_four(b1);
    lemma_square_mod_four(c1);
    lemma_fundamental_div_mod(a1 * a1, 4);
    lemma_fundamental_div_mod(b1 * b1, 4);
    lemma_fundamental_div_mod(c1 * c1, 4);
    // Not both legs are even: 2 would divide all three.
    if a1 % 2 == 0 && b1 % 2 == 0 {
        if c1 % 2 == 1 {
            assert(false);
        }
        lemma_common_divisor_divides_gcd(2, a1 as nat, b1 as nat);
        lemma_common_divisor_divides_gcd(2, gcd(a1 as nat, b1 as nat), c1 as nat);
        lemma_divides_one(2);
    }
    // Not both legs are odd: the sum of their squares would be 2 mod 4.
    if a1 % 2 == 1 && b1 % 2 == 1 {
        assert(false);
    }
    // p is the odd leg, q the even one.
    let swapped = a1 % 2 == 0;
    let p = if swapped { b1 } else { a1 };
    let q = if swapped { a1 } else { b1 };
    assert(p % 2 == 1 && q % 2 == 0 && p > 0 && q > 0 && p * p + q * q == c1 * c1);
    assert(c1 % 2 == 1) by {
        if c1 % 2 == 0 {
            lemma_square_mod_four(p);
            lemma_square_mod_four(q);
            assert(false);
        }
    }
    // gcd(p, c1) = 1.
    let e = gcd(p as nat, c1 as nat);
    lemma_gcd_zero(p as nat, c1 as nat);
    lemma_gcd_divides(p as nat, c1 as nat);
    lemma_divides_quotient(e, p);
    lemma_divides_quotient(e, c1);
    let p2 = p / (e as int);
    let c2 = c1 / (e as int);
    assert(q * q == (e * e) * (c2 * c2 - p2 * p2)) by (nonlinear_arith)
        requires
            p == e * p2,
            c1 == e * c2,
            p * p + q * q == c1 * c1,
    ;
    assert((e * e) as int > 0) by (nonlinear_arith)
        requires
            e > 0,
    ;
    lemma_divides_witness((e * e) as nat, q * q, c2 * c2 - p2 * p2);
    lemma_square_divides(e, q as nat);
    assert(divides(e, a1) && divides(e, b1));
    lemma_common_divisor_divides_gcd(e, a1 as nat, b1 as nat);
    lemma_common_divisor_divides_gcd(e, gcd(a1 as nat, b1 as nat), c1 as nat);
    lemma_divides_one(e);
    // u = (c1 + p) / 2, v = (c1 - p) / 2, w = q / 2: u v = w².
    lemma_fundamental_div_mod(c1, 2);
    lemma_fundamental_div_mod(p, 2);
    lemma_fundamental_div_mod(q, 2);
    let u = c1 / 2 + p / 2 + 1;
    let v = c1 / 2 - p / 2;
    let w = q / 2;
    assert(c1 == u + v && p == u - v && q == 2 * w);
    assert(c1 > p) by (nonlinear_arith)
        requires
            p * p + q * q == c1 * c1,
            q > 0,
            p > 0,
            c1 > 0,
    ;
    assert(u > 0 && v > 0 && w > 0);
    assert(u * v == w * w) by (nonlinear_arith)
        requires
            c1 == u + v,
            p == u - v,
            q == 2 * w,
            p * p + q * q == c1 * c1,
    ;
    // gcd(u, v) = 1: a common divisor divides u + v = c1 and u − v = p.
    let f = gcd(u as nat, v as nat);
    lemma_gcd_zero(u as nat, v as nat);
    lemma_gcd_divides(u as nat, v as nat);
    crate::arith::lemma_linear_combination_divisible(u, v, 1, f as int);
    crate::arith::lemma_linear_combination_divisible(v, u, -1, f as int);
    assert(u * 1 + v == c1 && v * (-1) + u == p);
    lemma_common_divisor_divides_gcd(f, p as nat, c1 as nat);
    lemma_divides_one(f);
    // u = m², v = n²
    lemma_coprime_square_factor(u as nat, v as nat, w as nat);
    lemma_gcd_commutative(u as nat, v as nat);
    assert(v * u == w * w) by (nonlinear_arith)
        requires
            u * v == w * w,
    ;
    lemma_coprime_square_factor(v as nat, u as nat, w as nat);
    let m = gcd(u as nat, w as nat) as int;
    let n = gcd(v as nat, w as nat) as int;
    assert(u == m * m && v == n * n);
    assert(m > n && n >= 1) by (nonlinear_arith)
        requires
            u == m * m,
            v == n * n,
            u > v,
            v > 0,
            m >= 0,
            n >= 0,
    ;
    assert(w == m * n) by (nonlinear_arith)
        requires
            u * v == w * w,
            u == m * m,
            v == n * n,
            w > 0,
            m > 0,
            n > 0,
    ;
    // gcd(m, n) = 1.
    let r = gcd(m as nat, n as nat);
    lemma_gcd_zero(m as nat, n as nat);
    lemma_gcd_divides(m as nat, n as nat);
    lemma_divides_witness(m as nat, u, m);
    lemma_divides_witness(n as nat, v, n);
    lemma_divides_transitive(r, m as nat, u);
    lemma_divides_transitive(r, n as nat, v);
    lemma_common_divisor_divides_gcd(r, u as nat, v as nat);
    lemma_divides_one(r);
    // m − n is odd, since m² + n² = c1 is odd.
    lemma_fundamental_div_mod(m - n, 2);
    if (m - n) % 2 == 0 {
        let t = (m - n) / 2;
        assert(c1 == 2 * (n * n + 2 * n * t + 2 * t * t)) by (nonlinear_arith)
            requires
                m - n == 2 * t,
                c1 == m * m + n * n,
        ;
        assert(false);
    }
    // k = g.
    let k = g as int;
    assert(k * (m * m + n * n) == c && k * (m * m - n * n) == g * p && k * (2 * m * n) == g * q)
        by (nonlinear_arith)
        requires
            k == g,
            c == g * c1,
            c1 == m * m + n * n,
            p == m * m - n * n,
            q == 2 * w,
            w == m * n,
    ;
    assert(euclid_params(m, n, k, max_c));
    if swapped {
        assert(g * p == b && g * q == a);
    } else {
        assert(g * p == a && g * q == b);
    }
    assert(euclid_triple(m, n, k) == (a as i64, b as i64, c as i64));
}

/// Keeping the triples with hypotenuse at most `max_c`.
pub open spec fn hypotenuse_at_most(max_c: int) -> spec_fn((i64, i64, i64)) -> bool {
    |t: (i64, i64, i64)| t.2 <= max_c
}

/// Filtering a strictly sorted list keeps it strictly sorted.
pub proof fn lemma_filter_strictly_sorted(s: Seq<(i64, i64, i64)>, pred: spec_fn((i64, i64, i64)) -> bool)
    requires
        strictly_sorted(s),
    ensures
        strictly_sorted(s.filter(pred)),
    decreases s.len(),
{
    reveal(Seq::filter);
    if s.len() > 0 {
        let rest = s.drop_last();
        assert forall|i: int, j: int| 0 <= i < j < rest.len() implies lex_lt(#[trigger] rest[i], #[trigger] rest[j]) by {
            assert(rest[i] == s[i] && rest[j] == s[j]);
        }
        lemma_filter_strictly_sorted(rest, pred);
        let sub = rest.filter(pred);
        if pred(s.last()) {
            let out = sub.push(s.last());
            assert forall|i: int, j: int| 0 <= i < j < out.len() implies lex_lt(#[trigger] out[i], #[trigger] out[j]) by {
                if j == out.len() - 1 {
                    assert(sub.contains(out[i]));
                    rest.lemma_filter_contains_rev(pred, out[i]);
                    let k = choose|k: int| 0 <= k < rest.len() && rest[k] == out[i];
                    assert(s[k] == out[i]);
                    assert(lex_lt(s[k], s[s.len() - 1]));
                } else {
                    assert(out[i] == sub[i] && out[j] == sub[j]);
                }
            }
        }
    }
}

/// Two strictly sorted lists of triples with the same entries are equal.
pub proof fn lemma_sorted_triple_lists_equal(v: Seq<(i64, i64, i64)>, w: Seq<(i64, i64, i64)>)
    requires
        strictly_sorted(v),
        strictly_sorted(w),
        forall|x: (i64, i64, i64)| v.contains(x) <==> w.contains(x),
    ensures
        v == w,
    decreases v.len(),
{
    if v.len() == 0 {
        if w.len() > 0 {
            assert(w.contains(w[0]));
        }
        assert(v =~= w);
    } else {
        assert(v.contains(v[0]));
        assert(w.contains(w[0]));
        let j = choose|j: int| 0 <= j < w.len() && w[j] == v[0];
        let k = choose|k: int| 0 <= k < v.len() && v[k] == w[0];
        // v[0] and w[0] are both the smallest entry.
        if j > 0 && k > 0 {
            assert(lex_lt(w[0], w[j]));
            assert(lex_lt(v[0], v[k]));
        }
        assert(v[0] == w[0]);
        let v1 = v.drop_first();
        let w1 = w.drop_first();
        assert forall|x: (i64, i64, i64)| v1.contains(x) <==> w1.contains(x) by {
            if v1.contains(x) {
                let a = choose|a: int| 0 <= a < v1.len() && v1[a] == x;
                assert(v[a + 1] == x);
                assert(lex_lt(v[0], v[a + 1]));
                assert(w.contains(x));
                let b = choose|b: int| 0 <= b < w.len() && w[b] == x;
                assert(w1[b - 1] == x);
            }
            if w1.contains(x) {
                let a = choose|a: int| 0 <= a < w1.len() && w1[a] == x;
                assert(w[a + 1] == x);
                assert(lex_lt(w[0], w[a + 1]));
                assert(v.contains(x));
                let b = choose|b: int| 0 <= b < v.len() && v[b] == x;
                assert(v1[b - 1] == x);
            }
        }
        assert forall|a: int, b: int| 0 <= a < b < v1.len() implies lex_lt(#[trigger] v1[a], #[trigger] v1[b]) by {
            assert(v1[a] == v[a + 1] && v1[b] == v[b + 1]);
        }
        assert forall|a: int, b: int| 0 <= a < b < w1.len() implies lex_lt(#[trigger] w1[a], #[trigger] w1[b]) by {
            assert(w1[a] == w[a + 1] && w1[b] == w[b + 1]);
        }
        lemma_sorted_triple_lists_equal(v1, w1);
        assert(v =~= seq![v[0]] + v1);
        assert(w =~= seq![w[0]] + w1);
    }
}

/// Raising the bound only adds triples: the list for `m1 ≤ m2` is the list
/// for `m2` with the triples of hypotenuse above `m1` left out, in the same order.
pub proof fn lemma_enumeration_monotone(
    s1: Seq<(i64, i64, i64)>,
    s2: Seq<(i64, i64, i64)>,
    m1: int,
    m2: int,
)
    requires
        m1 <= m2,
        strictly_sorted(s1),
        forall|t: (i64, i64, i64)| s1.contains(t) <==> is_pythagorean_triple(t, m1),
        strictly_sorted(s2),
        forall|t: (i64, i64, i64)| s2.contains(t) <==> is_pythagorean_triple(t, m2),
    ensures
        s1 == s2.filter(hypotenuse_at_most(m1)),
{
    let pred = hypotenuse_at_most(m1);
    let f = s2.filter(pred);
    lemma_filter_strictly_sorted(s2, pred);
    assert forall|t: (i64, i64, i64)| s1.contains(t) <==> f.contains(t) by {
        if s1.contains(t) {
            assert(s2.contains(t));
            let i = choose|i: int| 0 <= i < s2.len() && s2[i] == t;
            s2.lemma_filter_contains(pred, i);
        }
        if f.contains(t) {
            s2.lemma_filter_contains_rev(pred, t);
            let i = choose|i: int| 0 <= i < f.len() && f[i] == t;
            s2.lemma_filter_pred(pred, i);
        }
    }
    lemma_sorted_triple_lists_equal(s1, f);
}

} // verus!
