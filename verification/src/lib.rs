//! Sum-check protocol over the base field of BLS12-381: a prover that reduces a
//! multivariate claim round by round, and a verifier that checks each round.

pub mod claim;
pub mod field;
pub mod hypercube;
pub mod poly;
pub mod protocol;
pub mod prover;
pub mod reduction;
pub mod summation;

