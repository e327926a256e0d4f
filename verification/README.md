# ternary_spatial

Exact directions on the unit circle and positions on the hexagonal lattice.

A direction is a Pythagorean triple `(a, b, c)` with `a² + b² = c²`, standing
for the unit vector `(a/c, b/c)`. Directions are composed as rotations with
arbitrary-precision integers, so no error accumulates: every composition of
Pythagorean triples is again a Pythagorean triple, exactly.

## Layout

- `src/` — the library, verified with Verus.
  - `bignum.rs` — `BigNum`, integers of any size; each arithmetic operation is
    a call into `num_bigint`, with a contract on the integer it computes.
  - `arith.rs` — greatest common divisors, exact division, Euclid's lemma,
    coprime factors of squares.
  - `direction.rs` — `Direction48`, its model `(a, b, c)`, normalization,
    validity, composition, compact snapshots.
  - `direction_eq.rs` — equality of directions in lowest terms.
  - `direction_laws.rs` — what every composition satisfies: no drift,
    associativity, identity, lowest terms.
  - `triples.rs` — Pythagorean triples by Euclid's formula, and the proof that
    the formula yields every Pythagorean triple.
  - `triple_set.rs` — the triples found, gathered in std's `BTreeSet` and read
    back in increasing order.
  - `database.rs` — the angle-ordered database of directions, random chains of
    rotations.
  - `spine.rs` — the tensor spine: direction plus lattice point.
- `tests/` — tests of the library.
- `app/` — the floating-point side: angles, nearest-direction search, the
  Euclidean lattice spacing and quantization (through `eisenstein_quantize`).
