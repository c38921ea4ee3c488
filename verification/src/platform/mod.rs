//! Publishers, subscribers, and the other parties to a segment.
pub mod account_runs;
pub mod accounting;
pub mod bus_history;
pub mod bus_laws;
pub mod bus_look_laws;
pub mod bus_runs;
pub mod call_laws;
pub mod channel;
pub mod laws;
pub mod loan;
pub mod pinned_runs;
pub mod place;
pub mod pod_bus;
pub mod publisher_laws;
pub mod registry;
pub mod registry_laws;
pub mod sample_laws;
pub mod sample_runs;
pub mod shm;
pub mod subscription;
