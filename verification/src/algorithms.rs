//! The instrumented sorting algorithms: every entry point threads an
//! `InstructionCounter` through its work and reports exact operation
//! tallies alongside a fully specified sorting result.

pub mod countingsort;
pub mod mergesort;
pub mod qr_sort;
pub mod radixsort;
pub mod quicksort;
