use vstd::prelude::*;

/// Flow definitions and the fleet's configuration.
pub mod config;
/// Execution levels of a dependency graph.
pub mod dag;
/// Dry-run plans and the step-by-step state machine of a live run.
pub mod engine;
/// Flow validation: unique identifiers, known dependencies, no cycles.
pub mod flow;
/// Nodes of the fleet.
pub mod registry;
/// Names: ordering, joining, tag selectors.
pub mod strings;
/// Resolution of target selectors to nodes.
pub mod targeting;

verus! {

} // verus!
