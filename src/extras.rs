//! Combinatorial numbers over `u32`.
pub mod bell;
pub mod combinatorics;

pub use bell::bell;
pub use combinatorics::{factorial, falling_factorial, n_choose_k};
