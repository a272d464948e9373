//! Dependency graphs of tasks and a readiness-queue scheduler over them.
//!
//! `graph` holds tasks by id and validates the graph they form; `order` is
//! readiness propagation over task positions; `scheduler` runs a validated
//! graph one task at a time, leaving the work itself to the caller.
pub mod graph;
pub mod order;
pub mod scheduler;
