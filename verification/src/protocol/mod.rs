//! Layout and operations of the publish/subscribe segment.
pub mod config;
pub mod header;
pub mod laws;
pub mod layout;
pub mod pool;
pub mod pool_runs;
pub mod reading;
pub mod region;
