//! Requests one way and events the other.

use crate::text::{self, add_text};
use crate::transport::shm::pool_pubsub::{self, PoolPubSubConfig};
use crate::transport::shm::region::{self, ShmConfig};
use vstd::prelude::*;

verus! {

/// The parameters of a server that answers requests and pushes events.
#[derive(Debug, Clone, Copy, PartialEq, Eq, Structural)]
pub struct BidiConfig {
    /// Parameters of the requests.
    pub rpc: ShmConfig,
    /// Parameters of the events.
    pub events: PoolPubSubConfig,
}

impl Default for BidiConfig {
    fn default() -> (r: BidiConfig)
        ensures
            r.rpc == region::default_config(),
            r.events == pool_pubsub::default_config(),
    {
        BidiConfig { rpc: ShmConfig::default(), events: PoolPubSubConfig::default() }
    }
}

/// The name of the segment for the events of a server.
pub fn events_name(name: &str) -> (r: String)
    ensures
        r@ == name@ + "-events"@,
{
    add_text(text::text(name), "-events")
}

} // verus!
