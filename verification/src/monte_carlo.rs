//! Monte Carlo tree search: fixed-point arithmetic for the selection
//! formula (`numeric`), the search tree and its operations (`types`),
//! and the search driver (`runner`).

pub mod numeric;
pub mod runner;
pub mod types;
