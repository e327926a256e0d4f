use ternary_spatial::triples::{enumerate_pythagorean_triples, pythagorean_triple_count};

#[test]
fn test_pythagorean_triple_count() {
    let triples = enumerate_pythagorean_triples(100);
    assert!(
        triples.len() >= 30,
        "Expected ≥30 Pythagorean triples with c ≤ 100, found {}",
        triples.len()
    );

    for &(a, b, c) in &triples {
        assert_eq!(a * a + b * b, c * c, "({}, {}, {}) is not a valid Pythagorean triple", a, b, c);
    }

    assert!(triples.contains(&(3, 4, 5)), "Expected (3,4,5) to be found");
    assert!(triples.contains(&(5, 12, 13)), "Expected (5,12,13) to be found");
}

#[test]
fn enumerate_small_bounds() {
    assert_eq!(enumerate_pythagorean_triples(4), vec![]);
    assert_eq!(enumerate_pythagorean_triples(0), vec![]);
    assert_eq!(enumerate_pythagorean_triples(-5), vec![]);
    assert_eq!(enumerate_pythagorean_triples(5), vec![(3, 4, 5)]);
    assert_eq!(enumerate_pythagorean_triples(10), vec![(3, 4, 5), (6, 8, 10)]);
    assert_eq!(
        enumerate_pythagorean_triples(25),
        vec![(3, 4, 5), (5, 12, 13), (6, 8, 10), (7, 24, 25), (8, 15, 17), (9, 12, 15), (12, 16, 20), (15, 20, 25)]
    );
}

#[test]
fn enumerate_is_sorted_complete_and_valid() {
    let t = enumerate_pythagorean_triples(100);
    for w in t.windows(2) {
        assert!(w[0] < w[1]);
    }
    // Every Pythagorean triple with c ≤ 100 is listed.
    let mut brute = Vec::new();
    for c in 1..=100i64 {
        for a in 1..c {
            for b in a..c {
                if a * a + b * b == c * c {
                    brute.push((a, b, c));
                }
            }
        }
    }
    brute.sort();
    assert_eq!(t, brute);
    assert_eq!(pythagorean_triple_count(), t.len());
    assert_eq!(pythagorean_triple_count(), 52);
}

#[test]
fn raising_the_bound_only_adds_triples() {
    let big = enumerate_pythagorean_triples(100);
    for m in [0i64, 5, 13, 25, 50, 99, 100] {
        let small = enumerate_pythagorean_triples(m);
        let filtered: Vec<_> = big.iter().cloned().filter(|t| t.2 <= m).collect();
        assert_eq!(small, filtered);
    }
}
