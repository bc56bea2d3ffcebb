//! Small verified numeric algorithms: binary decomposition of a signed
//! 64-bit integer and reduction of a fraction to lowest terms, each in a
//! recursive and an iterative form that provably compute the same result.

pub mod arith;
pub mod factors;
pub mod int_to_bin;
pub mod lcd;
pub mod reduce_laws;
