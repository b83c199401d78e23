//! A chronological year-sequence graph and its analytics.
//!
//! The library builds a directed graph whose nodes are calendar years with
//! recorded activity and whose edges carry the number of events recorded in
//! the target year, then derives summary statistics from it.

pub mod analysis;
pub mod dates;
pub mod graph;
