//! Set partitions of a finite sequence of distinct elements, with the
//! combinatorial numbers (factorials, binomial coefficients, Bell numbers)
//! that count them.
pub mod element;
pub mod extras;
pub mod partition;
