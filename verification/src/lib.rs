//! A verified implementation of the TOPSIS multi-criteria decision method:
//! alternatives are scored by their relative closeness to a computed ideal
//! point versus an anti-ideal point, after normalizing and weighting each
//! criterion column, and then ranked best to worst.
//!
//! All scoring arithmetic is exact: inputs are rational numbers, and every
//! comparison the ranking depends on is decided by cross-multiplication of
//! integers, so no rounding can corrupt an order. Arbitrary-precision
//! integers from the `num-bigint` crate carry the intermediate values.

pub mod bignum;
pub mod laws;
pub mod rational;
pub mod topsis;
