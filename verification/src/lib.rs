//! Verified core of an optimal build planner: the domain model of nodes and
//! factories, heuristic bounds on the remaining cost, and a reference-counted state pool with
//! an indexed open set for A* search.

pub mod non_max_usize;
pub mod heap_growth;
pub mod domain;
pub mod state_pool;
pub mod heuristic;
pub mod search;
pub mod instance;
pub mod display;
pub mod laws;
pub mod operation_laws;
pub mod upper_plan;
