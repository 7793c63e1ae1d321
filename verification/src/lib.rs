//! A family of linear-time integer sorting algorithms built on a shared
//! stable counting-key-sort primitive, together with an instruction counter
//! that tallies the primitive operations each algorithm performs.

pub mod algorithms;
pub mod arith;
pub mod placement;
pub mod sorting;
pub mod utils;
