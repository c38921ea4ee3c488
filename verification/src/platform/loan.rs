//! Loans: writable views of a block that becomes a sample when published.

use crate::error::Error;
use crate::memory::{self, Access, Accesses, SharedMemory};
use crate::pod::{self, Pod};
use crate::protocol::layout::{
    self, topic_entry_off, BLOCK_DATA_OFFSET, SEQ_WRITING, TE_PINNED_READERS,
};
use crate::protocol::pool;
use crate::protocol::region::{self, Region};
use crate::text::text;
use std::marker::PhantomData;
use vstd::prelude::*;

verus! {

broadcast use crate::memory::group_memory;

/// A registered topic, for use with the publisher that registered it.
#[derive(Clone, Copy, Debug, PartialEq, Eq, Structural)]
pub struct Topic {
    /// Index in the topic table.
    pub topic_idx: u32,
    /// The publisher that registered it.
    pub publisher_id: u64,
}

/// A writable block of the pool. It becomes a sample of its topic when it is
/// published; a loan that is not published is given back with `discard`.
pub struct Loan<'a, M: SharedMemory> {
    /// The segment of the block.
    pub region: &'a mut Region<M>,
    /// Bytes that the block can hold.
    pub capacity: usize,
    /// Bytes written so far.
    pub len: usize,
    /// The block.
    pub block_idx: u32,
    /// The topic that it is for.
    pub topic_idx: u32,
    /// No other publisher writes to the topic.
    pub single_publisher: bool,
}

/// A header followed by an array, and the number of entries at the end.
pub open spec fn structured<T: Pod, E: Pod>(header: T, entries: Seq<E>) -> Seq<u8> {
    header.encode() + pod::flat(entries) + memory::le32(entries.len() as u32)
}

/// Lays out a header and an array as bytes.
pub fn structured_bytes<T: Pod, E: Pod>(header: &T, entries: &[E]) -> (r: Vec<u8>)
    ensures
        r@ == structured(*header, entries@),
{
    let mut r: Vec<u8> = (*header).to_bytes();
    let mut i: usize = 0;
    assert(pod::flat(entries@.subrange(0, 0)) =~= Seq::<u8>::empty());
    assert(r@ =~= header.encode() + pod::flat(entries@.subrange(0, 0)));
    while i < entries.len()
        invariant
            i <= entries@.len(),
            r@ == header.encode() + pod::flat(entries@.subrange(0, i as int)),
        decreases entries@.len() - i,
    {
        let mut e: Vec<u8> = entries[i].to_bytes();
        proof {
            assert(entries@.subrange(0, i + 1).drop_last() =~= entries@.subrange(0, i as int));
            assert(entries@.subrange(0, i + 1).last() == entries@[i as int]);
            assert(r@ + e@ =~= header.encode() + pod::flat(entries@.subrange(0, i + 1)));
        }
        r.append(&mut e);
        i = i + 1;
    }
    assert(entries@.subrange(0, i as int) =~= entries@);
    memory::push_u32(&mut r, entries.len() as u32);
    r
}

impl<'a, M: SharedMemory> Loan<'a, M> {
    /// The loan is of a block and a topic that exist, and no more is written
    /// than the block can hold.
    pub open spec fn wf(&self) -> bool {
        &&& self.region.wf()
        &&& self.capacity == region::capacity_of(self.region.config)
        &&& self.len <= self.capacity
        &&& self.block_idx < self.region.config.block_count
        &&& self.topic_idx < self.region.config.max_topics
    }

    /// The data of the block so far.
    pub open spec fn data(&self) -> Seq<u8> {
        region::block_data(
            self.region.config,
            self.region.mem.image(),
            self.block_idx as int,
            self.len as int,
        )
    }

    /// `other` is the same loan, of the same segment, at a later moment.
    pub open spec fn same_loan(&self, other: &Self) -> bool {
        &&& self.region.same_segment(&*other.region)
        &&& other.region.last_freed == self.region.last_freed
        &&& other.capacity == self.capacity
        &&& other.block_idx == self.block_idx
        &&& other.topic_idx == self.topic_idx
        &&& other.single_publisher == self.single_publisher
    }

    /// Writes bytes into the block at an offset of its data, without changing
    /// the length of the data.
    pub fn write_at(&mut self, off: usize, data: &[u8]) -> (r: Result<(), Error>)
        requires
            old(self).wf(),
        ensures
            final(self).wf(),
            old(self).same_loan(final(self)),
            *final(final(self).region) == *final(old(self).region),
            final(self).len == old(self).len,
            r is Ok <==> off + data@.len() <= old(self).capacity,
            r matches Err(e) ==> {
                &&& final(self).region == old(self).region
                &&& e matches Error::DataTooLarge { size, capacity }
                &&& capacity == old(self).capacity
                &&& size == (if off + data@.len() > usize::MAX {
                    usize::MAX as int
                } else {
                    off + data@.len()
                })
            },
            r is Ok && old(self).region.mem.exclusive() ==> final(self).region.mem.image()
                == memory::put(
                old(self).region.mem.image(),
                region::data_off(old(self).region.config, old(self).block_idx as int) + off,
                data@,
            ),
    {
        let end: usize = off.saturating_add(data.len());
        if end > self.capacity || (end == usize::MAX && end - off != data.len()) {
            return Err(Error::DataTooLarge { size: end, capacity: self.capacity });
        }
        proof {
            region::lemma_block_parts(self.region.config, self.block_idx as int);
        }
        let pool: pool::PoolLayout = self.region.pool();
        let at: usize = pool.block_off(self.block_idx) + BLOCK_DATA_OFFSET + off;
        self.region.mem.write(at, data);
        Ok(())
    }

    /// Copies `data` to the start of the block and makes it the data of the
    /// loan. Data that does not fit is refused and changes nothing.
    pub fn set_data(&mut self, data: &[u8]) -> (r: Result<(), Error>)
        requires
            old(self).wf(),
        ensures
            final(self).wf(),
            old(self).same_loan(final(self)),
            *final(final(self).region) == *final(old(self).region),
            r is Ok <==> data@.len() <= old(self).capacity,
            r matches Err(e) ==> {
                &&& final(self).region == old(self).region
                &&& final(self).len == old(self).len
                &&& e matches Error::DataTooLarge { size, capacity }
                &&& size == data@.len()
                &&& capacity == old(self).capacity
            },
            r is Ok ==> final(self).len == data@.len(),
            r is Ok ==> final(self).region.mem.accesses() == old(self).region.mem.accesses().push(
                (Access::Bytes {
                    off: region::data_off(old(self).region.config, old(self).block_idx as int),
                    data: data@,
                }),
            ),
            r is Ok && old(self).region.mem.exclusive() ==> {
                &&& final(self).region.mem.image() == memory::put(
                    old(self).region.mem.image(),
                    region::data_off(old(self).region.config, old(self).block_idx as int),
                    data@,
                )
                &&& final(self).data() == data@
            },
    {
        if data.len() > self.capacity {
            return Err(Error::DataTooLarge { size: data.len(), capacity: self.capacity });
        }
        proof {
            region::lemma_block_parts(self.region.config, self.block_idx as int);
        }
        let pool: pool::PoolLayout = self.region.pool();
        let at: usize = pool.block_off(self.block_idx) + BLOCK_DATA_OFFSET;
        self.region.mem.write(at, data);
        self.len = data.len();
        assert(data@.subrange(0, data@.len() as int) =~= data@);
        Ok(())
    }

    /// Sets the length of the data, for use after `write_at`.
    pub fn set_len(&mut self, len: usize) -> (r: Result<(), Error>)
        requires
            old(self).wf(),
        ensures
            final(self).wf(),
            old(self).same_loan(final(self)),
            final(self).region == old(self).region,
            r is Ok <==> len <= old(self).capacity,
            r is Ok ==> final(self).len == len,
            r matches Err(e) ==> {
                &&& final(self).len == old(self).len
                &&& e matches Error::DataTooLarge { size, capacity }
                &&& size == len
                &&& capacity == old(self).capacity
            },
    {
        if len > self.capacity {
            return Err(Error::DataTooLarge { size: len, capacity: self.capacity });
        }
        self.len = len;
        Ok(())
    }

    /// Most bytes that this loan can hold.
    pub fn capacity(&self) -> (r: usize)
        ensures
            r == self.capacity,
    {
        self.capacity
    }

    /// Appends as much of `buf` as there is room for, and says how much that
    /// was. A full block accepts nothing but an empty buffer.
    pub fn write(&mut self, buf: &[u8]) -> (r: Result<usize, Error>)
        requires
            old(self).wf(),
        ensures
            final(self).wf(),
            old(self).same_loan(final(self)),
            *final(final(self).region) == *final(old(self).region),
            r is Err <==> old(self).len == old(self).capacity && buf@.len() > 0,
            r matches Err(e) ==> {
                &&& final(self).region == old(self).region
                &&& final(self).len == old(self).len
                &&& e matches Error::Io(m)
                &&& m@ == "block full"@
            },
            r matches Ok(n) ==> {
                &&& n == (if buf@.len() < old(self).capacity - old(self).len {
                    buf@.len() as int
                } else {
                    old(self).capacity - old(self).len
                })
                &&& final(self).len == old(self).len + n
                &&& final(self).region.mem.accesses() == old(self).region.mem.accesses().push(
                    (Access::Bytes {
                        off: region::data_off(old(self).region.config, old(self).block_idx as int)
                            + old(self).len,
                        data: buf@.subrange(0, n as int),
                    }),
                )
                &&& old(self).region.mem.exclusive() ==> final(self).data() == old(self).data()
                    + buf@.subrange(0, n as int)
            },
    {
        let ghost m = self.region.mem.image();
        let remaining: usize = self.capacity - self.len;
        if remaining == 0 && buf.len() != 0 {
            return Err(Error::Io(text("block full")));
        }
        let n: usize = if buf.len() < remaining {
            buf.len()
        } else {
            remaining
        };
        let part: Vec<u8> = memory::copy_range(buf, 0, n);
        proof {
            region::lemma_block_parts(self.region.config, self.block_idx as int);
        }
        let pool: pool::PoolLayout = self.region.pool();
        let at: usize = pool.block_off(self.block_idx) + BLOCK_DATA_OFFSET + self.len;
        self.region.mem.write(at, part.as_slice());
        self.len = self.len + n;
        assert(self.region.mem.exclusive() ==> self.data() =~= old(self).data() + part@);
        Ok(n)
    }

    /// Writes a header followed by an array into the block. The number of
    /// entries stands at the end, so that a reader can check it.
    pub fn write_structured<T: Pod, E: Pod>(&mut self, header: &T, entries: &[E]) -> (r: Result<
        (),
        Error,
    >)
        requires
            old(self).wf(),
            structured(*header, entries@).len() <= usize::MAX,
        ensures
            final(self).wf(),
            old(self).same_loan(final(self)),
            *final(final(self).region) == *final(old(self).region),
            r is Ok <==> structured(*header, entries@).len() <= old(self).capacity,
            r matches Err(e) ==> {
                &&& final(self).region == old(self).region
                &&& final(self).len == old(self).len
                &&& e matches Error::DataTooLarge { size, capacity }
                &&& size == structured(*header, entries@).len()
                &&& capacity == old(self).capacity
            },
            r is Ok ==> final(self).len == structured(*header, entries@).len(),
            r is Ok && old(self).region.mem.exclusive() ==> final(self).data() == structured(
                *header,
                entries@,
            ),
    {
        let b: Vec<u8> = structured_bytes(header, entries);
        self.set_data(b.as_slice())
    }

    /// Publishes the block. Says whether a sleeping subscriber is to be woken.
    pub fn publish(self) -> (wake: bool)
        requires
            self.wf(),
            self.region.mem.exclusive() && !self.single_publisher ==> region::ring_seq(
                self.region.config,
                self.region.mem.image(),
                self.topic_idx as int,
                layout::slot_of(
                    self.region.config,
                    region::next_seq(self.region.mem.image(), self.topic_idx as int),
                ),
            ) != SEQ_WRITING,
        ensures
            final(self.region).wf(),
            old(self.region).same_segment(final(self.region)),
            region::committed(
                *old(self.region),
                *final(self.region),
                self.topic_idx,
                self.block_idx,
                self.len as u32,
                self.single_publisher,
            ),
            old(self.region).mem.exclusive() ==> {
                &&& (final(self.region).mem.image(), final(self.region).last_freed)
                    == region::after_commit(
                    old(self.region).config,
                    old(self.region).mem.image(),
                    old(self.region).last_freed,
                    self.topic_idx as int,
                    self.block_idx,
                    self.len as u32,
                )
                &&& wake == (region::waiters(
                    old(self.region).mem.image(),
                    self.topic_idx as int,
                ) > 0)
            },
    {
        self.region.commit_to_ring(
            self.block_idx,
            self.len as u32,
            self.topic_idx,
            true,
            self.single_publisher,
        )
    }

    /// Publishes the block without waking anybody.
    pub fn publish_silent(self)
        requires
            self.wf(),
            self.region.mem.exclusive() && !self.single_publisher ==> region::ring_seq(
                self.region.config,
                self.region.mem.image(),
                self.topic_idx as int,
                layout::slot_of(
                    self.region.config,
                    region::next_seq(self.region.mem.image(), self.topic_idx as int),
                ),
            ) != SEQ_WRITING,
        ensures
            final(self.region).wf(),
            old(self.region).same_segment(final(self.region)),
            region::committed(
                *old(self.region),
                *final(self.region),
                self.topic_idx,
                self.block_idx,
                self.len as u32,
                self.single_publisher,
            ),
            old(self.region).mem.exclusive() ==> (
                final(self.region).mem.image(),
                final(self.region).last_freed,
            ) == region::after_commit(
                old(self.region).config,
                old(self.region).mem.image(),
                old(self.region).last_freed,
                self.topic_idx as int,
                self.block_idx,
                self.len as u32,
            ),
    {
        let _wake: bool = self.region.commit_to_ring(
            self.block_idx,
            self.len as u32,
            self.topic_idx,
            false,
            self.single_publisher,
        );
    }

    /// Gives the block back to the pool unpublished.
    pub fn discard(self)
        requires
            self.wf(),
        ensures
            final(self.region).wf(),
            old(self.region).same_segment(final(self.region)),
            final(self.region).last_freed == old(self.region).last_freed,
            layout::pool_of(old(self.region).config).gave(
                old(self.region).mem,
                final(self.region).mem,
                self.block_idx,
            ),
            old(self.region).mem.exclusive() ==> final(self.region).mem.image()
                == layout::pool_of(old(self.region).config).after_free(
                old(self.region).mem.image(),
                self.block_idx,
            ),
    {
        self.region.free_block(self.block_idx);
    }
}

/// A writable block for one value of a plain type.
pub struct TypedLoan<'a, M: SharedMemory, T: Pod> {
    /// The segment of the block.
    pub region: &'a mut Region<M>,
    /// The block.
    pub block_idx: u32,
    /// The topic that it is for.
    pub topic_idx: u32,
    /// No other publisher writes to the topic.
    pub single_publisher: bool,
    /// The type of the value.
    pub marker: PhantomData<T>,
}

impl<'a, M: SharedMemory, T: Pod> TypedLoan<'a, M, T> {
    /// The loan is of a block and a topic that exist, and the value fits.
    pub open spec fn wf(&self) -> bool {
        &&& self.region.wf()
        &&& self.block_idx < self.region.config.block_count
        &&& self.topic_idx < self.region.config.max_topics
        &&& T::size() <= region::capacity_of(self.region.config)
    }

    /// The slot that publishing takes is not being written by somebody else.
    pub open spec fn slot_free(&self) -> bool {
        self.region.mem.exclusive() && !self.single_publisher ==> region::ring_seq(
            self.region.config,
            self.region.mem.image(),
            self.topic_idx as int,
            layout::slot_of(
                self.region.config,
                region::next_seq(self.region.mem.image(), self.topic_idx as int),
            ),
        ) != SEQ_WRITING
    }

    /// Writes the value into the block.
    pub fn write(&mut self, value: T)
        requires
            old(self).wf(),
        ensures
            final(self).wf(),
            old(self).region.same_segment(&*final(self).region),
            final(self).region.last_freed == old(self).region.last_freed,
            final(self).block_idx == old(self).block_idx,
            final(self).topic_idx == old(self).topic_idx,
            final(self).single_publisher == old(self).single_publisher,
            *final(final(self).region) == *final(old(self).region),
            final(self).region.mem.accesses() == old(self).region.mem.accesses().push(
                (Access::Bytes {
                    off: region::data_off(old(self).region.config, old(self).block_idx as int),
                    data: value.encode(),
                }),
            ),
            old(self).region.mem.exclusive() ==> final(self).region.mem.image() == memory::put(
                old(self).region.mem.image(),
                region::data_off(old(self).region.config, old(self).block_idx as int),
                value.encode(),
            ),
    {
        proof {
            region::lemma_block_parts(self.region.config, self.block_idx as int);
        }
        let b: Vec<u8> = value.to_bytes();
        let pool: pool::PoolLayout = self.region.pool();
        let at: usize = pool.block_off(self.block_idx) + BLOCK_DATA_OFFSET;
        self.region.mem.write(at, b.as_slice());
    }

    /// Writes the value and publishes it. Says whether a sleeping subscriber is
    /// to be woken.
    pub fn send(self, value: T) -> (wake: bool)
        requires
            self.wf(),
            self.slot_free(),
        ensures
            final(self.region).wf(),
            old(self.region).same_segment(final(self.region)),
            exists|ops: Accesses|
                {
                    &&& final(self.region).mem.accesses() == old(self.region).mem.accesses().push(
                        (Access::Bytes {
                            off: region::data_off(
                                old(self.region).config,
                                self.block_idx as int,
                            ),
                            data: value.encode(),
                        }),
                    ) + ops
                    &&& #[trigger] region::commits(
                        old(self.region).config,
                        ops,
                        self.topic_idx as int,
                        self.block_idx,
                        T::size() as u32,
                        self.single_publisher,
                        old(self.region).last_freed,
                    )
                },
            old(self.region).mem.exclusive() ==> {
                let written = memory::put(
                    old(self.region).mem.image(),
                    region::data_off(old(self.region).config, self.block_idx as int),
                    value.encode(),
                );
                &&& (final(self.region).mem.image(), final(self.region).last_freed)
                    == region::after_commit(
                    old(self.region).config,
                    written,
                    old(self.region).last_freed,
                    self.topic_idx as int,
                    self.block_idx,
                    T::size() as u32,
                )
                &&& wake == (region::waiters(
                    old(self.region).mem.image(),
                    self.topic_idx as int,
                ) > 0)
            },
    {
        proof {
            value.encode_size();
            lemma_data_write_keeps_rest(
                self.region.config,
                self.region.mem.image(),
                self.block_idx as int,
                value.encode(),
                self.topic_idx as int,
            );
        }
        let mut this: TypedLoan<'a, M, T> = self;
        this.write(value);
        this.publish()
    }

    /// Publishes the value that was written. Says whether a sleeping subscriber
    /// is to be woken.
    pub fn publish(self) -> (wake: bool)
        requires
            self.wf(),
            self.slot_free(),
        ensures
            final(self.region).wf(),
            old(self.region).same_segment(final(self.region)),
            region::committed(
                *old(self.region),
                *final(self.region),
                self.topic_idx,
                self.block_idx,
                T::size() as u32,
                self.single_publisher,
            ),
            old(self.region).mem.exclusive() ==> {
                &&& (final(self.region).mem.image(), final(self.region).last_freed)
                    == region::after_commit(
                    old(self.region).config,
                    old(self.region).mem.image(),
                    old(self.region).last_freed,
                    self.topic_idx as int,
                    self.block_idx,
                    T::size() as u32,
                )
                &&& wake == (region::waiters(
                    old(self.region).mem.image(),
                    self.topic_idx as int,
                ) > 0)
            },
    {
        self.region.commit_to_ring(
            self.block_idx,
            T::size_of() as u32,
            self.topic_idx,
            true,
            self.single_publisher,
        )
    }

    /// Publishes the value without waking anybody.
    pub fn publish_silent(self)
        requires
            self.wf(),
            self.slot_free(),
        ensures
            final(self.region).wf(),
            old(self.region).same_segment(final(self.region)),
            region::committed(
                *old(self.region),
                *final(self.region),
                self.topic_idx,
                self.block_idx,
                T::size() as u32,
                self.single_publisher,
            ),
            old(self.region).mem.exclusive() ==> (
                final(self.region).mem.image(),
                final(self.region).last_freed,
            ) == region::after_commit(
                old(self.region).config,
                old(self.region).mem.image(),
                old(self.region).last_freed,
                self.topic_idx as int,
                self.block_idx,
                T::size() as u32,
            ),
    {
        let _wake: bool = self.region.commit_to_ring(
            self.block_idx,
            T::size_of() as u32,
            self.topic_idx,
            false,
            self.single_publisher,
        );
    }

    /// Gives the block back to the pool unpublished.
    pub fn discard(self)
        requires
            self.wf(),
        ensures
            final(self.region).wf(),
            old(self.region).same_segment(final(self.region)),
            final(self.region).last_freed == old(self.region).last_freed,
            layout::pool_of(old(self.region).config).gave(
                old(self.region).mem,
                final(self.region).mem,
                self.block_idx,
            ),
            old(self.region).mem.exclusive() ==> final(self.region).mem.image()
                == layout::pool_of(old(self.region).config).after_free(
                old(self.region).mem.image(),
                self.block_idx,
            ),
    {
        self.region.free_block(self.block_idx);
    }
}

/// Writing into a block touches neither the topic table nor the rings.
pub proof fn lemma_data_write_keeps_rest(
    c: crate::protocol::config::PubSubConfig,
    m: Seq<u8>,
    block: int,
    b: Seq<u8>,
    topic: int,
)
    requires
        layout::valid_config(c),
        layout::region_size(c) <= m.len(),
        0 <= block < c.block_count,
        0 <= topic < c.max_topics,
        b.len() <= region::capacity_of(c),
    ensures
        ({
            let n = memory::put(m, region::data_off(c, block), b);
            let slot = layout::slot_of(c, region::next_seq(m, topic));
            &&& region::write_seq(n, topic) == region::write_seq(m, topic)
            &&& region::waiters(n, topic) == region::waiters(m, topic)
            &&& region::ring_seq(c, n, topic, slot) == region::ring_seq(c, m, topic, slot)
        }),
{
    layout::lemma_layout(c);
    layout::lemma_topic(c, topic);
    region::lemma_block_parts(c, block);
    let slot = layout::slot_of(c, region::next_seq(m, topic));
    layout::lemma_ring(c, topic, slot);
}

/// A writable view of a topic's pinned block. While it exists, subscribers
/// cannot enter the block; publishing or discarding it lets them in again.
pub struct PinnedLoan<'a, M: SharedMemory> {
    /// The segment of the block.
    pub region: &'a mut Region<M>,
    /// Bytes that the block can hold.
    pub capacity: usize,
    /// Bytes written so far.
    pub len: usize,
    /// The block.
    pub block_idx: u32,
    /// Its topic.
    pub topic_idx: u32,
}

/// The publisher is done with a pinned block: readers may be counted again.
pub open spec fn readers_let_in(topic: int) -> Access {
    Access::Word32 { off: layout::topic_off(topic) + TE_PINNED_READERS, v: 0 }
}

impl<'a, M: SharedMemory> PinnedLoan<'a, M> {
    /// The loan is of a block and a topic that exist, and no more is written
    /// than the block can hold.
    pub open spec fn wf(&self) -> bool {
        &&& self.region.wf()
        &&& self.capacity == region::capacity_of(self.region.config)
        &&& self.len <= self.capacity
        &&& self.block_idx < self.region.config.block_count
        &&& self.topic_idx < self.region.config.max_topics
    }

    /// The data of the block so far.
    pub open spec fn data(&self) -> Seq<u8> {
        region::block_data(
            self.region.config,
            self.region.mem.image(),
            self.block_idx as int,
            self.len as int,
        )
    }

    /// `other` is the same loan, of the same segment, at a later moment.
    pub open spec fn same_loan(&self, other: &Self) -> bool {
        &&& self.region.same_segment(&*other.region)
        &&& other.region.last_freed == self.region.last_freed
        &&& other.capacity == self.capacity
        &&& other.block_idx == self.block_idx
        &&& other.topic_idx == self.topic_idx
    }

    /// Copies `data` to the start of the block and makes it the data of the
    /// loan. Data that does not fit is refused and changes nothing.
    pub fn set_data(&mut self, data: &[u8]) -> (r: Result<(), Error>)
        requires
            old(self).wf(),
        ensures
            final(self).wf(),
            old(self).same_loan(final(self)),
            *final(final(self).region) == *final(old(self).region),
            r is Ok <==> data@.len() <= old(self).capacity,
            r matches Err(e) ==> {
                &&& final(self).region == old(self).region
                &&& final(self).len == old(self).len
                &&& e matches Error::DataTooLarge { size, capacity }
                &&& size == data@.len()
                &&& capacity == old(self).capacity
            },
            r is Ok ==> final(self).len == data@.len(),
            r is Ok ==> final(self).region.mem.accesses() == old(self).region.mem.accesses().push(
                (Access::Bytes {
                    off: region::data_off(old(self).region.config, old(self).block_idx as int),
                    data: data@,
                }),
            ),
            r is Ok && old(self).region.mem.exclusive() ==> {
                &&& final(self).region.mem.image() == memory::put(
                    old(self).region.mem.image(),
                    region::data_off(old(self).region.config, old(self).block_idx as int),
                    data@,
                )
                &&& final(self).data() == data@
            },
    {
        if data.len() > self.capacity {
            return Err(Error::DataTooLarge { size: data.len(), capacity: self.capacity });
        }
        proof {
            region::lemma_block_parts(self.region.config, self.block_idx as int);
        }
        let pool: pool::PoolLayout = self.region.pool();
        let at: usize = pool.block_off(self.block_idx) + BLOCK_DATA_OFFSET;
        self.region.mem.write(at, data);
        self.len = data.len();
        assert(data@.subrange(0, data@.len() as int) =~= data@);
        Ok(())
    }

    /// Sets the length of the data.
    pub fn set_len(&mut self, len: usize) -> (r: Result<(), Error>)
        requires
            old(self).wf(),
        ensures
            final(self).wf(),
            old(self).same_loan(final(self)),
            final(self).region == old(self).region,
            r is Ok <==> len <= old(self).capacity,
            r is Ok ==> final(self).len == len,
            r matches Err(e) ==> {
                &&& final(self).len == old(self).len
                &&& e matches Error::DataTooLarge { size, capacity }
                &&& size == len
                &&& capacity == old(self).capacity
            },
    {
        if len > self.capacity {
            return Err(Error::DataTooLarge { size: len, capacity: self.capacity });
        }
        self.len = len;
        Ok(())
    }

    /// Most bytes that this loan can hold.
    pub fn capacity(&self) -> (r: usize)
        ensures
            r == self.capacity,
    {
        self.capacity
    }

    /// Writes a header followed by an array into the block. The number of
    /// entries stands at the end, so that a reader can check it.
    pub fn write_structured<T: Pod, E: Pod>(&mut self, header: &T, entries: &[E]) -> (r: Result<
        (),
        Error,
    >)
        requires
            old(self).wf(),
            structured(*header, entries@).len() <= usize::MAX,
        ensures
            final(self).wf(),
            old(self).same_loan(final(self)),
            *final(final(self).region) == *final(old(self).region),
            r is Ok <==> structured(*header, entries@).len() <= old(self).capacity,
            r matches Err(e) ==> {
                &&& final(self).region == old(self).region
                &&& final(self).len == old(self).len
                &&& e matches Error::DataTooLarge { size, capacity }
                &&& size == structured(*header, entries@).len()
                &&& capacity == old(self).capacity
            },
            r is Ok ==> final(self).len == structured(*header, entries@).len(),
            r is Ok && old(self).region.mem.exclusive() ==> final(self).data() == structured(
                *header,
                entries@,
            ),
    {
        let b: Vec<u8> = structured_bytes(header, entries);
        self.set_data(b.as_slice())
    }

    /// Publishes the block and lets subscribers in again. Says whether a
    /// sleeping subscriber is to be woken.
    pub fn publish(self) -> (wake: bool)
        requires
            self.wf(),
        ensures
            final(self.region).wf(),
            old(self.region).same_segment(final(self.region)),
            final(self.region).last_freed == old(self.region).last_freed,
            exists|was: u64|
                final(self.region).mem.accesses() == (old(self.region).mem.accesses()
                    + #[trigger] region::pinned_stores(
                    self.topic_idx as int,
                    self.len as u32,
                    was,
                )).push(readers_let_in(self.topic_idx as int)),
            old(self.region).mem.exclusive() ==> {
                &&& final(self.region).mem.image() == memory::put32(
                    region::after_commit_pinned(
                        old(self.region).mem.image(),
                        self.topic_idx as int,
                        self.len as u32,
                    ),
                    layout::topic_off(self.topic_idx as int) + TE_PINNED_READERS,
                    0,
                )
                &&& wake == (region::waiters(
                    old(self.region).mem.image(),
                    self.topic_idx as int,
                ) > 0)
            },
    {
        proof {
            layout::lemma_layout(self.region.config);
            layout::lemma_topic(self.region.config, self.topic_idx as int);
        }
        let wake: bool = self.region.commit_pinned(self.len as u32, self.topic_idx);
        let off: usize = topic_entry_off(self.topic_idx);
        self.region.mem.store_u32(off + TE_PINNED_READERS, 0);
        wake
    }

    /// Lets subscribers in again without publishing; they still see the sample
    /// before.
    pub fn discard(self)
        requires
            self.wf(),
        ensures
            final(self.region).wf(),
            old(self.region).same_segment(final(self.region)),
            final(self.region).last_freed == old(self.region).last_freed,
            final(self.region).mem.accesses() == old(self.region).mem.accesses().push(
                readers_let_in(self.topic_idx as int),
            ),
            old(self.region).mem.exclusive() ==> final(self.region).mem.image() == memory::put32(
                old(self.region).mem.image(),
                layout::topic_off(self.topic_idx as int) + TE_PINNED_READERS,
                0,
            ),
    {
        proof {
            layout::lemma_layout(self.region.config);
            layout::lemma_topic(self.region.config, self.topic_idx as int);
        }
        let off: usize = topic_entry_off(self.topic_idx);
        self.region.mem.store_u32(off + TE_PINNED_READERS, 0);
    }
}

} // verus!
