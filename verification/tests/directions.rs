use num_bigint::BigInt;
use num_traits::{Signed, ToPrimitive};
use ternary_spatial::bignum::BigNum;
use ternary_spatial::database::{all_directions, chain_rotations, chain_from_indices, direction_at, pythagorean48_count};
use ternary_spatial::direction::{Direction48, Direction48Compact};

fn big(x: &BigNum) -> BigInt {
    BigInt::from_signed_bytes_le(x.signed_bytes_le())
}

fn to_f64(x: &BigNum) -> f64 {
    big(x).to_f64().unwrap()
}

fn angle_deg(d: &Direction48) -> f64 {
    to_f64(&d.b).atan2(to_f64(&d.a)).to_degrees()
}

fn magnitude_sq(d: &Direction48) -> f64 {
    let a_f = to_f64(&d.a);
    let b_f = to_f64(&d.b);
    let c_f = to_f64(&d.c);
    if c_f == 0.0 {
        return 0.0;
    }
    (a_f * a_f + b_f * b_f) / (c_f * c_f)
}

fn triple(d: &Direction48) -> (BigInt, BigInt, BigInt) {
    (big(&d.a), big(&d.b), big(&d.c))
}

fn triple_i(a: i64, b: i64, c: i64) -> (BigInt, BigInt, BigInt) {
    (BigInt::from(a), BigInt::from(b), BigInt::from(c))
}

#[test]
fn test_zero_drift_proof() {
    let dirs = all_directions();
    assert!(dirs.len() >= 100, "should have ≥100 unique directions");

    let mut current = Direction48::identity();
    let chain_len = 1000;

    for i in 0..chain_len {
        let step = &dirs[i % dirs.len()];
        current = current.compose(step);
        assert!(
            current.is_valid(),
            "direction at step {} is not a valid triple: {:?}",
            i + 1,
            triple(&current)
        );
    }

    let mag = magnitude_sq(&current);
    let diff = (mag - 1.0).abs();
    assert!(diff < 1e-12, "After {} rotations, magnitude drifted by {:.2e}", chain_len, diff);
    assert!(current.is_valid(), "After {} rotations, the direction is not a valid Pythagorean triple.", chain_len);
}

#[test]
fn test_all_directions_are_unit() {
    let dirs = all_directions();
    assert!(!dirs.is_empty(), "should have at least one direction");
    for (i, dir) in dirs.iter().enumerate() {
        assert!(dir.is_valid(), "Direction {} ({:?}) is not a valid Pythagorean triple", i, triple(dir));
    }
}

#[test]
fn test_direction_composition_magnitude() {
    let dirs = all_directions();
    assert!(dirs.len() >= 10);
    let n = 10.min(dirs.len());
    for i in 0..n {
        for j in 0..n {
            let composed = dirs[i].compose(&dirs[j]);
            assert!(
                composed.is_valid(),
                "Composition {:?} ∘ {:?} gave invalid triple {:?}",
                triple(&dirs[i]),
                triple(&dirs[j]),
                triple(&composed)
            );
        }
    }
}

#[test]
fn test_identity_composition() {
    let dirs = all_directions();
    let id = Direction48::identity();
    for dir in dirs.iter().take(20) {
        let composed = dir.compose(&id);
        assert!(
            composed.eq_normalized(dir),
            "Direction {:?} composed with identity should be itself, got {:?}",
            triple(dir),
            triple(&composed)
        );
    }
}

#[test]
fn test_database_contains_expected_directions() {
    let dirs = all_directions();

    let has_near_90 = dirs.iter().any(|d| {
        let angle = angle_deg(d).rem_euclid(360.0);
        (angle - 90.0).abs() < 10.0 || (angle - 270.0).abs() < 10.0
    });
    assert!(has_near_90, "Expected a direction near 90° or 270°. Found none.");

    let has_345 = dirs.iter().any(|d| {
        big(&d.a).abs() == BigInt::from(3) && big(&d.b).abs() == BigInt::from(4) && big(&d.c) == BigInt::from(5)
    }) || dirs.iter().any(|d| {
        big(&d.a).abs() == BigInt::from(4) && big(&d.b).abs() == BigInt::from(3) && big(&d.c) == BigInt::from(5)
    });
    assert!(has_345, "Expected (3,4,5) direction in database");

    let has_51213 = dirs.iter().any(|d| {
        big(&d.a).abs() == BigInt::from(5) && big(&d.b).abs() == BigInt::from(12) && big(&d.c) == BigInt::from(13)
    }) || dirs.iter().any(|d| {
        big(&d.a).abs() == BigInt::from(12) && big(&d.b).abs() == BigInt::from(5) && big(&d.c) == BigInt::from(13)
    });
    assert!(has_51213, "Expected (5,12,13) direction in database");
}

#[test]
fn test_chain_rotations_zero_drift() {
    let results = chain_rotations(100, 42);
    assert_eq!(results.len(), 100);
    for (i, dir) in results.iter().enumerate() {
        assert!(dir.is_valid(), "Step {}: direction is not a valid triple — zero drift violated", i + 1);
    }
}

#[test]
fn test_composition_associativity() {
    let dirs = all_directions();
    let n = 5.min(dirs.len());
    for i in 0..n {
        for j in 0..n {
            for k in 0..n {
                let a = dirs[i].compose(&dirs[j]).compose(&dirs[k]);
                let b = dirs[i].compose(&dirs[j].compose(&dirs[k]));
                assert!(a.eq_normalized(&b), "Associativity violated for ({i},{j},{k})");
            }
        }
    }
}

#[test]
fn test_angular_coverage() {
    let dirs = all_directions();

    let mut angles: Vec<f64> = dirs.iter().map(|d| angle_deg(d).rem_euclid(360.0)).collect();
    angles.sort_by(|a, b| a.partial_cmp(b).unwrap());

    let n = angles.len();
    let mut gaps = Vec::new();
    for i in 0..n {
        let gap = (angles[(i + 1) % n] - angles[i] + 360.0) % 360.0;
        if gap > 0.0 {
            gaps.push(gap);
        }
    }

    assert!(!gaps.is_empty(), "should have angular gaps");

    let mean_gap: f64 = gaps.iter().sum::<f64>() / gaps.len() as f64;
    let max_gap = gaps.iter().cloned().fold(0.0_f64, f64::max);

    assert!(mean_gap < 10.0, "Mean angular gap {:.2}° is too large — expected < 10°", mean_gap);
    assert!(max_gap < 60.0, "Max angular gap {:.2}° is too large — expected < 60°", max_gap);
}

// ── Further cases ─────────────────────────────────────────

#[test]
fn database_is_sorted_by_angle_and_distinct() {
    let dirs = all_directions();
    for w in dirs.windows(2) {
        assert!(angle_deg(&w[0]) < angle_deg(&w[1]));
    }
    for i in 0..dirs.len() {
        assert!(big(&dirs[i].c) > BigInt::from(0));
        for j in (i + 1)..dirs.len() {
            assert!(triple(&dirs[i]) != triple(&dirs[j]));
        }
    }
    assert_eq!(pythagorean48_count(), dirs.len());
    // The first direction has the smallest angle, just above -180°.
    assert!(angle_deg(&dirs[0]) > -180.0);
    // The last direction, (-84, 13, 85), is the one closest to 180° from below.
    assert_eq!(triple(&dirs[dirs.len() - 1]), triple_i(-84, 13, 85));
    assert!(angle_deg(&dirs[dirs.len() - 1]) < 180.0);
}

#[test]
fn compose_reduces_and_keeps_hypotenuse_positive() {
    // (3,4,5) ∘ (3,-4,5) = (25, 0, 25) → (1, 0, 1)
    let d = Direction48::new(3, 4, 5);
    let e = Direction48::new(3, -4, 5);
    assert_eq!(triple(&d.compose(&e)), triple_i(1, 0, 1));
    // (3,4,5) ∘ (3,4,5) = (-7, 24, 25)
    assert_eq!(triple(&d.compose(&d)), triple_i(-7, 24, 25));
    // A negative hypotenuse is made positive: (3,4,-5) ∘ (1,0,1) = (-3,-4,5)
    let n = Direction48::new(3, 4, -5);
    assert_eq!(triple(&n.compose(&Direction48::identity())), triple_i(-3, -4, 5));
    // A product with a = b = 0 gives the identity.
    let z = Direction48::new(0, 0, 7);
    assert_eq!(triple(&z.compose(&d)), triple_i(1, 0, 1));
    // Common factors are divided out: (6,8,10) ∘ (1,0,1) = (3,4,5)
    let s = Direction48::new(6, 8, 10);
    assert_eq!(triple(&s.compose(&Direction48::identity())), triple_i(3, 4, 5));
}

#[test]
fn compose_identity_on_both_sides() {
    let d = Direction48::new(5, 12, 13);
    let id = Direction48::identity();
    assert_eq!(triple(&d.compose(&id)), triple_i(5, 12, 13));
    assert_eq!(triple(&id.compose(&d)), triple_i(5, 12, 13));
}

#[test]
fn compose_is_associative_on_concrete_values() {
    let x = Direction48::new(3, 4, 5);
    let y = Direction48::new(-5, 12, 13);
    let z = Direction48::new(8, -15, 17);
    let left = x.compose(&y).compose(&z);
    let right = x.compose(&y.compose(&z));
    assert_eq!(triple(&left), triple(&right));
    assert!(left.is_valid());
}

#[test]
fn normalized_divides_by_gcd() {
    let d = Direction48::new(-6, 8, 10);
    assert_eq!(triple(&d.normalized()), triple_i(-3, 4, 5));
    assert_eq!(triple(&d.normalized().normalized()), triple_i(-3, 4, 5));
    assert!(d.normalized().is_valid());
    let e = Direction48::new(0, 0, -4);
    assert_eq!(triple(&e.normalized()), triple_i(0, 0, -1));
    let p = Direction48::new(3, 4, 5);
    assert_eq!(triple(&p.normalized()), triple_i(3, 4, 5));
    let f = Direction48::from_big(
        BigNum::from_signed_bytes_le(BigInt::from(30).to_signed_bytes_le()),
        BigNum::from_signed_bytes_le(BigInt::from(-40).to_signed_bytes_le()),
        BigNum::from_signed_bytes_le(BigInt::from(50).to_signed_bytes_le()),
    );
    assert_eq!(triple(&f), triple_i(3, -4, 5));
}

#[test]
fn eq_normalized_compares_reduced_triples() {
    assert!(Direction48::new(6, 8, 10).eq_normalized(&Direction48::new(3, 4, 5)));
    assert!(!Direction48::new(-6, -8, -10).eq_normalized(&Direction48::new(3, 4, 5)));
    assert!(!Direction48::new(4, 3, 5).eq_normalized(&Direction48::new(3, 4, 5)));
}

#[test]
fn is_valid_checks_the_triple() {
    assert!(Direction48::new(3, 4, 5).is_valid());
    assert!(Direction48::new(-20, 21, -29).is_valid());
    assert!(!Direction48::new(3, 4, 6).is_valid());
    assert!(Direction48::new_checked(5, 12, 13).is_valid());
    assert!(Direction48::identity().is_valid());
}

#[test]
fn to_compact_within_and_beyond_i64() {
    let d = Direction48::new(3, -4, 5);
    assert_eq!(d.to_compact(), Some(Direction48Compact::new(3, -4, 5)));
    let m = Direction48::new(i64::MIN, i64::MAX, 1);
    assert_eq!(m.to_compact(), Some(Direction48Compact { a: i64::MIN, b: i64::MAX, c: 1 }));
    // (i64::MAX, 0, 1) composed with itself has a = i64::MAX², beyond i64.
    let big_dir = Direction48::new(i64::MAX, 0, 1);
    let sq = big_dir.compose(&big_dir);
    assert_eq!(triple(&sq).0, BigInt::from(i64::MAX) * BigInt::from(i64::MAX));
    assert_eq!(sq.to_compact(), None);
}

#[test]
fn chain_from_indices_composes_in_order() {
    let dirs = vec![Direction48::new(3, 4, 5), Direction48::new(0, 1, 1)];
    let chain = chain_from_indices(&dirs, &vec![0, 1, 1, 0]);
    assert_eq!(chain.len(), 4);
    assert_eq!(triple(&chain[0]), triple_i(3, 4, 5));
    // (0,1,1) ∘ (3,4,5) = (-4, 3, 5)
    assert_eq!(triple(&chain[1]), triple_i(-4, 3, 5));
    assert_eq!(triple(&chain[2]), triple_i(-3, -4, 5));
    // (3,4,5) ∘ (-3,-4,5) = (7, -24, 25)
    assert_eq!(triple(&chain[3]), triple_i(7, -24, 25));
    assert!(chain_from_indices(&dirs, &vec![]).is_empty());
}

#[test]
fn chain_rotations_is_deterministic_for_a_seed() {
    let a = chain_rotations(20, 7);
    let b = chain_rotations(20, 7);
    assert_eq!(a.len(), 20);
    for i in 0..20 {
        assert_eq!(triple(&a[i]), triple(&b[i]));
    }
    assert!(chain_rotations(0, 1).is_empty());
}

#[test]
fn direction_at_wraps_around() {
    let dirs = all_directions();
    let n = dirs.len();
    assert_eq!(triple(direction_at(&dirs, n + 3)), triple(&dirs[3]));
    assert_eq!(triple(direction_at(&dirs, 0)), triple(&dirs[0]));
}

#[test]
fn bignum_decimal_and_bytes() {
    let x = BigNum::from_signed_bytes_le(BigInt::from(-1125).to_signed_bytes_le());
    assert_eq!(big(&x), BigInt::from(-1125));
    assert_eq!(BigNum::from_signed_bytes_le(vec![]).signed_bytes_le().len(), 0);
    assert_eq!(big(&BigNum::from_signed_bytes_le(vec![])), BigInt::from(0));
    assert_eq!(big(&x.duplicate()), BigInt::from(-1125));
}

#[test]
fn direction_equality_is_equality_in_lowest_terms() {
    assert!(Direction48::new(6, 8, 10) == Direction48::new(3, 4, 5));
    assert!(Direction48::new(3, 4, 5) == Direction48::new(3, 4, 5));
    assert!(Direction48::new(-3, -4, -5) != Direction48::new(3, 4, 5));
    assert!(Direction48::new(0, 0, 0) == Direction48::new(0, 0, 0));
    assert!(Direction48::new(0, 0, 0) != Direction48::new(3, 4, 5));
    assert!(Direction48::new(3, 4, 5) != Direction48::new(0, 0, 0));
    assert_eq!(Direction48::new(2, 0, 2), Direction48::identity());
}

#[test]
fn database_holds_every_symmetry_of_small_triples() {
    let dirs = all_directions();
    for &(a, b, c) in &[(3, 4, 5), (5, 12, 13), (20, 21, 29), (65, 72, 97)] {
        for &(x, y) in &[(a, b), (-a, b), (a, -b), (-a, -b), (b, a), (-b, a), (b, -a), (-b, -a)] {
            let want = triple_i(x, y, c);
            assert!(dirs.iter().any(|d| triple(d) == want), "missing {:?}", want);
        }
    }
    // Non-primitive triples reduce: (6, 8, 10) gives (3, 4, 5), already present.
    assert!(!dirs.iter().any(|d| triple(d) == triple_i(6, 8, 10)));
}
