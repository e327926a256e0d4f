//! Exact directions on the unit circle from Pythagorean triples, composed
//! without drift, together with a position on the hexagonal lattice.
pub mod bignum;
pub mod arith;
pub mod direction;
pub mod direction_laws;
pub mod triples;
pub mod database;
pub mod spine;
pub mod direction_eq;
mod triple_set;
pub mod database_laws;
