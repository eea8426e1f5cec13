//! An event-counting library.
//!
//! Call sites record named events, optionally qualified by an integer
//! sub-index, into per-thread counter stores. A process-wide registry keeps a
//! handle to every store ever created, and a report routine merges all stores
//! into one consolidated, deterministically ordered textual report.
//!
//! The host application supplies the thread-local plumbing and the final
//! printing; everything that decides or computes — recording, registration,
//! aggregation and report formatting — lives here, with contracts.

pub mod aggregate;
pub mod digits;
pub mod laws;
pub mod order;
pub mod registry;
pub mod report;
pub mod store;

pub use registry::Registry;
pub use store::CounterStore;
