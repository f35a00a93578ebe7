//! Algebraic immunity of Boolean functions over GF(2).
//!
//! The crate finds the minimal degree of a nonzero annihilator of a Boolean
//! function (or of its complement) by an incremental GF(2) matrix search:
//! `vandermonde` holds the dense binary matrix engine, `ai` the monomial
//! enumeration and the annihilator search that drives it.

pub mod ai;
pub mod vandermonde;
