//! Lowest-cost routes for batches of journeys over a static, weighted,
//! directed graph.
//!
//! The graph is indexed once by [`graph::build_index`]; each journey is then
//! answered by a cost-ordered search ([`search::find`]) followed by a walk
//! back along the predecessor map ([`route::reconstruct`]).
//! [`journey::solve_journeys`] does so for a whole batch.
//!
//! Routes are stated over walks, the chains of edges of [`graph`]: an
//! answer is the node sequence of a cheapest walk. [`model`] gives the
//! search step by step as a function of its input, and [`reach`] shows that
//! in a graph whose weights add up to what a `u64` holds no cost outgrows
//! a `u64`.

pub mod graph;
pub mod reach;
pub mod frontier;
pub mod model;
pub mod search;
pub mod route;
pub mod journey;
