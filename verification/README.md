# crossbar

Zero-copy messaging over shared memory: publish and subscribe by URI, broadcast
of plain values, and requests and responses. The library is written in Verus;
what its functions do is stated in their contracts and proved.

## Layout

- `src/memory.rs`: shared memory as a trait, with an implementation on the heap.
  A segment is a sequence of bytes; contracts say how an operation changes it.
- `src/protocol/`: layout of a publish/subscribe segment, and its block pool.
- `src/platform/`: publishers, subscriptions, pinned samples, channels, the
  registry of topics, and the bus of plain values. `laws.rs`, `bus_laws.rs`,
  `accounting.rs` and `publisher_laws.rs` prove what holds across operations:
  what is published is received, in order; what is held is not overwritten; no
  block is lost. `account_runs.rs` proves it over any number of them, and
  `call_laws.rs` of calls as they follow each other.
- `pool_runs.rs`, `sample_runs.rs`, `pinned_runs.rs`, `bus_runs.rs`,
  `pubsub_runs.rs` and `pool_pubsub_runs.rs`: what holds while several parties
  store to a segment at the same time. A handle records what it stores, and
  the looks on which its results rest. What publishes and what receives says in its contract, on
  every handle, what that is and in which order; the laws say what it means. No
  change of the free list is overlooked, and what a reader takes is whole (a
  sample that lies in a ring, while the publisher is less than a ring ahead of
  it). `src/protocol/reading.rs` holds what readers have in common.
- `src/types.rs`, `src/router.rs`, `src/handler.rs`: requests, responses, and
  how a handler is found.
- `src/transport/`: frames for streams, and the three exchanges over shared
  memory (slots, rings of samples, and pooled blocks) with their laws, of which
  `block_laws.rs` and `pool_accounting.rs` say where the blocks are.
- `tests/`: the library at work, on memory that several parties share.
- `app/`: the library on mapped files, sockets, threads and the clock.

## Reading the contracts

A handle on memory is `exclusive` while nobody else writes to it. What an
operation does to the bytes is stated for exclusive handles; what holds without
that assumption (bounds, invariants, that loops end) is stated for all. So are the
single accesses, and their order, of what registers, publishes, receives, waits and
gives back. What they mean for others who
look in between is stated over runs: sequences of images of a segment, one access
apart.

Time, process ids and the like are arguments, and operations that would block are
turns: the caller sleeps where a turn says so, and takes another.
