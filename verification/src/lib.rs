//! Greedy best-first search over an implicit state graph, together with the
//! castle puzzle it was built to explore.

pub mod castle;
pub mod castle_searcher;
pub mod entry;
pub mod frontier;
pub mod journal;
pub mod laws;
pub mod model;
mod random;
pub mod search;
pub mod swaps;
pub mod trace;
pub mod tracker;
