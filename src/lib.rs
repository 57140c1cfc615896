//! Incremental reconstruction of distributed-tracing call trees from spans
//! that arrive in any order, with time-windowed eviction of whole traces,
//! value snapshots for readers, and a bounded pre-filter stage.
pub mod batch;
pub mod forest;
pub mod guarantees;
pub mod queue;
pub mod span;
