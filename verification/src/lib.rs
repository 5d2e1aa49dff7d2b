//! A small collection of numeric helpers built around integer factorization:
//! a restartable prime sequencer, a factorizer that draws on it, and a
//! divisor/fraction reducer that works on the factor lists.
//!
//! Every executable function carries a contract over mathematical integers
//! and sequences, and each contract is proved.

pub mod date;
pub mod divisibility;
pub mod factors;
pub mod math;
pub mod merge;
