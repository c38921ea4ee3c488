//! Errors of the publish/subscribe operations and of the transports.

use crate::text::{add_number, add_text, text};
use vstd::prelude::*;

verus! {

/// What can go wrong in a publish/subscribe operation.
#[derive(Debug)]
pub enum Error {
    /// An I/O error on the underlying file or mapping, as text.
    Io(String),
    /// The publisher has stopped updating its heartbeat.
    PublisherDead,
    /// The region has invalid magic, version, or metadata.
    InvalidRegion(String),
    /// The block pool is exhausted (all blocks are in use by subscribers).
    PoolExhausted,
    /// The bounded bus is full: its slowest subscriber is too far behind.
    Full,
    /// Data exceeds the block's data capacity.
    DataTooLarge {
        /// Attempted write size.
        size: usize,
        /// Block data capacity.
        capacity: usize,
    },
    /// A subscriber holds a pinned sample, preventing the publisher from writing.
    PinnedReadersActive {
        /// Number of active readers.
        count: u32,
        /// Topic index.
        topic_idx: u32,
    },
    /// The system clock is before the UNIX epoch.
    ClockError,
    /// No topic of this URI is registered.
    TopicNotFound(String),
    /// There is no free topic slot left.
    MaxTopicsReached,
    /// The topic URI exceeds the maximum allowed length.
    UriTooLong {
        /// Actual URI length in bytes.
        len: usize,
        /// Maximum allowed length.
        max: usize,
    },
    /// An exclusive lock is already held on the region of this name.
    LockContention(String),
    /// A `Pod` type's alignment exceeds the block data alignment.
    AlignmentError {
        /// Actual type alignment.
        align: usize,
        /// Maximum supported alignment.
        max: usize,
    },
    /// The segment name is empty or contains path separators, null bytes, or `..`.
    SegmentNameInvalid(String),
    /// A topic was used with a different publisher than the one that created it.
    HandleMismatch,
    /// The region size does not fit in the address space.
    RegionSizeOverflow,
    /// The region's free list is corrupted.
    RegionCorrupted(String),
}

/// The text of an error.
pub open spec fn error_text(e: Error) -> Seq<char> {
    match e {
        Error::Io(m) => "I/O error: "@ + m@,
        Error::PublisherDead => "shared-memory publisher is dead (heartbeat stale)"@,
        Error::InvalidRegion(m) => "invalid shared-memory region: "@ + m@,
        Error::PoolExhausted => "block pool exhausted -- increase block_count in Config"@,
        Error::Full => "bounded PodBus ring is full -- slowest subscriber is too far behind"@,
        Error::DataTooLarge { size, capacity } => "data ("@ + crate::text::decimal(size as nat)
            + ") exceeds block data capacity ("@ + crate::text::decimal(capacity as nat) + ")"@,
        Error::PinnedReadersActive { count, topic_idx } => crate::text::decimal(count as nat)
            + " active PinnedGuard(s) on topic "@ + crate::text::decimal(topic_idx as nat)
            + " -- drop all guards before calling loan_pinned"@,
        Error::ClockError => "system clock is before UNIX epoch"@,
        Error::TopicNotFound(uri) => "topic '"@ + uri@ + "' not found"@,
        Error::MaxTopicsReached => "maximum topics reached"@,
        Error::UriTooLong { len, max } => "topic URI too long ("@ + crate::text::decimal(len as nat)
            + " > "@ + crate::text::decimal(max as nat) + ")"@,
        Error::LockContention(name) => "pub/sub region '"@ + name@
            + "' is already active (lock held)"@,
        Error::AlignmentError { align, max } => "Pod type alignment ("@ + crate::text::decimal(
            align as nat,
        ) + ") exceeds block data offset ("@ + crate::text::decimal(max as nat) + ")"@,
        Error::SegmentNameInvalid(name) => "invalid segment name '"@ + name@
            + "': must be non-empty and contain no '/', '\\', '..', or null bytes"@,
        Error::HandleMismatch => "Topic belongs to a different Publisher"@,
        Error::RegionSizeOverflow => "region size computation overflow"@,
        Error::RegionCorrupted(m) => "shared-memory region corrupted: "@ + m@,
    }
}

impl Error {
    /// The error as text, in words that a user can act on.
    pub fn message(&self) -> (r: String)
        ensures
            r@ == error_text(*self),
    {
        match self {
            Error::Io(m) => add_text(text("I/O error: "), m.as_str()),
            Error::PublisherDead => text("shared-memory publisher is dead (heartbeat stale)"),
            Error::InvalidRegion(m) => add_text(
                text("invalid shared-memory region: "),
                m.as_str(),
            ),
            Error::PoolExhausted => text("block pool exhausted -- increase block_count in Config"),
            Error::Full => text(
                "bounded PodBus ring is full -- slowest subscriber is too far behind",
            ),
            Error::DataTooLarge { size, capacity } => {
                let s: String = add_number(text("data ("), *size as u64);
                let s: String = add_text(s, ") exceeds block data capacity (");
                add_text(add_number(s, *capacity as u64), ")")
            },
            Error::PinnedReadersActive { count, topic_idx } => {
                let s: String = crate::text::decimal_string(*count as u64);
                let s: String = add_text(s, " active PinnedGuard(s) on topic ");
                add_text(
                    add_number(s, *topic_idx as u64),
                    " -- drop all guards before calling loan_pinned",
                )
            },
            Error::ClockError => text("system clock is before UNIX epoch"),
            Error::TopicNotFound(uri) => add_text(
                add_text(text("topic '"), uri.as_str()),
                "' not found",
            ),
            Error::MaxTopicsReached => text("maximum topics reached"),
            Error::UriTooLong { len, max } => {
                let s: String = add_number(text("topic URI too long ("), *len as u64);
                let s: String = add_text(s, " > ");
                add_text(add_number(s, *max as u64), ")")
            },
            Error::LockContention(name) => add_text(
                add_text(text("pub/sub region '"), name.as_str()),
                "' is already active (lock held)",
            ),
            Error::AlignmentError { align, max } => {
                let s: String = add_number(text("Pod type alignment ("), *align as u64);
                let s: String = add_text(s, ") exceeds block data offset (");
                add_text(add_number(s, *max as u64), ")")
            },
            Error::SegmentNameInvalid(name) => add_text(
                add_text(text("invalid segment name '"), name.as_str()),
                "': must be non-empty and contain no '/', '\\', '..', or null bytes",
            ),
            Error::HandleMismatch => text("Topic belongs to a different Publisher"),
            Error::RegionSizeOverflow => text("region size computation overflow"),
            Error::RegionCorrupted(m) => add_text(
                text("shared-memory region corrupted: "),
                m.as_str(),
            ),
        }
    }
}

/// What can go wrong in a transport.
#[derive(Debug)]
pub enum CrossbarError {
    /// An I/O error, or data that is not in the format that it should have,
    /// as text.
    Io(String),
    /// A byte that stands for no method.
    InvalidMethod(u8),
    /// A frame is larger than the limit.
    FrameTooLarge {
        /// The size of the frame.
        size: u64,
        /// The limit.
        max: u64,
    },
    /// The task that answers has ended.
    ServerDropped,
    /// A region has an invalid header, or its parameters make no sense.
    ShmInvalidRegion(String),
    /// A message does not fit in a block.
    ShmMessageTooLarge {
        /// The size of the message so far.
        size: u64,
        /// The room that there is.
        max: u64,
    },
    /// A header, or their number, is too large for its length field.
    HeaderOverflow(String),
    /// The server has stopped updating its heartbeat.
    ShmServerDead,
    /// All blocks are in use.
    ShmPoolExhausted,
    /// All slots are in use.
    ShmSlotsFull,
}

/// A transport error as plain values.
pub enum CrossbarErrorView {
    Io(Seq<char>),
    InvalidMethod(u8),
    FrameTooLarge { size: u64, max: u64 },
    ServerDropped,
    ShmInvalidRegion(Seq<char>),
    ShmMessageTooLarge { size: u64, max: u64 },
    HeaderOverflow(Seq<char>),
    ShmServerDead,
    ShmPoolExhausted,
    ShmSlotsFull,
}

impl View for CrossbarError {
    type V = CrossbarErrorView;

    open spec fn view(&self) -> CrossbarErrorView {
        match self {
            CrossbarError::Io(m) => CrossbarErrorView::Io(m@),
            CrossbarError::InvalidMethod(b) => CrossbarErrorView::InvalidMethod(*b),
            CrossbarError::FrameTooLarge { size, max } => CrossbarErrorView::FrameTooLarge {
                size: *size,
                max: *max,
            },
            CrossbarError::ServerDropped => CrossbarErrorView::ServerDropped,
            CrossbarError::ShmInvalidRegion(m) => CrossbarErrorView::ShmInvalidRegion(m@),
            CrossbarError::ShmMessageTooLarge {
                size,
                max,
            } => CrossbarErrorView::ShmMessageTooLarge { size: *size, max: *max },
            CrossbarError::HeaderOverflow(m) => CrossbarErrorView::HeaderOverflow(m@),
            CrossbarError::ShmServerDead => CrossbarErrorView::ShmServerDead,
            CrossbarError::ShmPoolExhausted => CrossbarErrorView::ShmPoolExhausted,
            CrossbarError::ShmSlotsFull => CrossbarErrorView::ShmSlotsFull,
        }
    }
}

} // verus!
