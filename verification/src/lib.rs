//! Zero-copy messaging over shared memory: publish and subscribe by URI,
//! broadcast of plain values, and requests and responses.
//!
//! A segment is any value of a type with the trait [`memory::SharedMemory`].
//! What depends on the world outside (the time, process ids, whether a process
//! is alive) is an argument.

use vstd::prelude::*;

pub mod error;
pub mod ffi;
pub mod handler;
pub mod memory;
pub mod platform;
pub mod pod;
pub mod protocol;
pub mod relation_laws;
pub mod route_laws;
pub mod router;
pub mod store_laws;
pub mod text;
pub mod transport;
pub mod types;
pub mod value_laws;
pub mod wait;

pub use platform::channel::Channel;
pub use platform::loan::{Loan, PinnedLoan, Topic, TypedLoan};
pub use platform::pod_bus::{BusSubscriber, PodBus};
pub use platform::registry::{discover, DiscoveredTopic, Registry};
pub use platform::shm::{ShmPublisher, ShmSubscriber};
pub use platform::subscription::{PinnedGuard, SampleGuard, Subscription, TypedSampleGuard};
pub use pod::Pod;
pub use protocol::config::{Config, PubSubConfig};
pub use protocol::region::Region;
pub use wait::WaitStrategy;

verus! {

/// A publisher.
pub type Publisher<M> = ShmPublisher<M>;

/// A subscriber.
pub type Subscriber<M> = ShmSubscriber<M>;

/// A subscription to one topic.
pub type Stream<M> = Subscription<M>;

/// A received sample.
pub type Sample = SampleGuard;

/// A received value of a plain type.
pub type TypedSample<T> = TypedSampleGuard<T>;

/// A received pinned sample.
pub type PinnedSample = PinnedGuard;

/// A two-way channel.
pub type ShmChannel<M> = Channel<M>;

/// A block to write a sample in.
pub type ShmLoan<'a, M> = Loan<'a, M>;

/// A block to write a value of a plain type in.
pub type TypedShmLoan<'a, M, T> = TypedLoan<'a, M, T>;

/// A subscriber to a bus of plain values.
pub type PodBusSubscriber<T, M> = BusSubscriber<T, M>;

/// What goes wrong with publishing and subscribing.
pub type IpcError = error::Error;

} // verus!
