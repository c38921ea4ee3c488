//! Requests and responses over shared memory.
pub mod bidi;
pub mod block_laws;
pub mod cells;
pub mod exchange;
pub mod laws;
pub mod notify;
pub mod pool_accounting;
pub mod pool_pubsub;
pub mod pool_pubsub_laws;
pub mod pool_pubsub_runs;
pub mod pubsub;
pub mod pubsub_laws;
pub mod pubsub_rpc;
pub mod pubsub_rpc_laws;
pub mod pubsub_runs;
pub mod region;
pub mod rings;
pub mod rpc_message;
pub mod segment_laws;
pub mod server;
pub mod service;
