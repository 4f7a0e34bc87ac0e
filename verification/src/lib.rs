//! A STARK prover and verifier for the "Fibonacci-square" sequence
//! `a[n+2] = a[n+1]^2 + a[n]^2` over the BN254 scalar field.
pub mod field;
pub mod poly;
pub mod hashing;
pub mod merkle;
pub mod data;
pub mod composition;
pub mod prover;
pub mod verifying;
pub mod acceptance;
pub mod evaluation;
pub mod degree;
pub mod roots;

use vstd::prelude::*;

verus! {

} // verus!
