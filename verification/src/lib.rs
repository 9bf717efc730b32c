//! Combinatorial placement structures for erasure-coded storage.
//!
//! The crate searches for perfect difference sets modulo `n*(n-1)+1`, derives
//! symmetric-design affinity matrices from them, and computes worst-case
//! recovery depths for bounded erasure patterns over such matrices.

mod arith;
mod combs;
mod counting;
mod diffset;
mod solver;

pub use arith::normalize;
pub use combs::generate_rcombs;
pub use solver::solve_erasure;
pub use solver::INFTY;
pub use diffset::find_diffset;
pub use diffset::find_sbibd;
pub use diffset::find_sbibd as find_sbibd_ds;
