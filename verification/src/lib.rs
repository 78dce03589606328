//! A discrete-time linear Kalman filter over exact rational arithmetic: a
//! filter holds fixed transition and noise matrices and exposes the two pure
//! operations `predict` and `update` on a caller-owned estimate pair, with
//! contracts that pin both results down entry by entry.

pub mod bignum;
pub mod rational;
pub mod matrix;
pub mod filter;
pub mod laws;
