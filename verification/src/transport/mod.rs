//! Ways to carry requests and responses.
pub mod client;
pub mod frame;
pub mod frame_laws;
pub mod headers;
pub mod message_laws;
pub mod reading_laws;
pub mod shm;
