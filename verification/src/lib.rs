//! An arbitrary-precision signed integer: decimal parsing, exact
//! addition, subtraction, negation, total ordering and lossless decimal
//! rendering, over magnitudes stored as fixed-width decimal blocks.

pub mod bigint;
pub mod constants;
pub mod laws;
pub mod lemmas;
pub mod operation;
pub mod specs;
pub mod utils;
