//! What a subscriber sees of a pinned block while the publisher writes.
//!
//! A run is a sequence of images of a segment, each of which comes from the one
//! before by one access of some party. The word that counts the readers also says
//! that the publisher writes: it takes the word when nobody reads, and gives it
//! back when it is done. Readers are counted in by an exchange of the word, which
//! they get only while the publisher does not have it.

use crate::memory::{self, Access, Accesses};
use crate::platform::loan;
use crate::platform::subscription;
use crate::protocol::config::PubSubConfig;
use crate::protocol::layout::{self, PINNED_WRITER_ACTIVE, TE_PINNED_SEQ};
use crate::protocol::pool;
use crate::protocol::reading;
use crate::protocol::region;
use vstd::prelude::*;

verus! {

broadcast use crate::memory::group_memory;

/// The pinned block of a topic.
pub struct Pinned {
    /// Parameters of the segment.
    pub config: PubSubConfig,
    /// The topic.
    pub topic: int,
    /// The block.
    pub block: int,
}

/// Who has the pinned block.
pub struct Users {
    /// The publisher writes it.
    pub writing: bool,
    /// Number of subscribers that read it.
    pub reading: nat,
}

impl Pinned {
    /// The word that counts the readers.
    pub open spec fn readers(self, m: Seq<u8>) -> u32 {
        memory::u32_at(m, subscription::readers_off(self.topic))
    }

    /// The word that names the sample: its number and length.
    pub open spec fn word(self, m: Seq<u8>) -> u64 {
        memory::u64_at(m, layout::topic_off(self.topic) + TE_PINNED_SEQ)
    }

    /// The data of the block, as far as it reaches.
    pub open spec fn data(self, m: Seq<u8>) -> Seq<u8> {
        region::block_data(self.config, m, self.block, region::capacity_of(self.config))
    }

    /// The block holds the same sample in two images.
    pub open spec fn same(self, m: Seq<u8>, n: Seq<u8>) -> bool {
        self.word(n) == self.word(m) && self.data(n) == self.data(m)
    }

    /// The word says who has the block.
    pub open spec fn counts(self, m: Seq<u8>, u: Users) -> bool {
        if u.writing {
            u.reading == 0 && self.readers(m) == PINNED_WRITER_ACTIVE
        } else {
            u.reading < PINNED_WRITER_ACTIVE && self.readers(m) == u.reading
        }
    }

    /// One access: nothing happens to the block, the publisher takes it, writes
    /// it, or is done with it, or a reader is counted in or off.
    pub open spec fn step(self, m: Seq<u8>, u: Users, n: Seq<u8>, v: Users) -> bool {
        ||| v == u && self.same(m, n) && self.readers(n) == self.readers(m)
        ||| {
            &&& self.readers(m) == 0
            &&& self.readers(n) == PINNED_WRITER_ACTIVE
            &&& self.same(m, n)
            &&& !u.writing
            &&& v == (Users { writing: true, ..u })
        }
        ||| u.writing && v == u && self.readers(n) == self.readers(m)
        ||| {
            &&& u.writing
            &&& self.readers(n) == 0
            &&& self.same(m, n)
            &&& v == (Users { writing: false, ..u })
        }
        ||| {
            &&& self.readers(m) < PINNED_WRITER_ACTIVE - 1
            &&& self.readers(n) == self.readers(m) + 1
            &&& self.same(m, n)
            &&& v == (Users { reading: u.reading + 1, ..u })
        }
        ||| {
            &&& u.reading > 0
            &&& self.readers(n) == self.readers(m) - 1
            &&& self.same(m, n)
            &&& v == (Users { reading: (u.reading - 1) as nat, ..u })
        }
    }

    /// An image, and the one after it.
    pub open spec fn goes_on(self, images: Seq<Seq<u8>>, users: Seq<Users>, i: int) -> bool {
        self.step(images[i], users[i], images[i + 1], users[i + 1])
    }

    /// A run.
    pub open spec fn run(self, images: Seq<Seq<u8>>, users: Seq<Users>) -> bool {
        &&& images.len() == users.len()
        &&& images.len() >= 1
        &&& self.counts(images[0], users[0])
        &&& forall|i: int| 0 <= i < images.len() - 1 ==> #[trigger] self.goes_on(images, users, i)
    }
}

/// The publisher and subscribers never have a pinned block at the same time, and the
/// word always says who has it.
pub proof fn law_pinned_block_has_one_kind_of_user(
    p: Pinned,
    images: Seq<Seq<u8>>,
    users: Seq<Users>,
    i: int,
)
    requires
        p.run(images, users),
        0 <= i < images.len(),
    ensures
        p.counts(images[i], users[i]),
        users[i].writing ==> users[i].reading == 0,
    decreases i,
{
    if i > 0 {
        law_pinned_block_has_one_kind_of_user(p, images, users, i - 1);
        assert(p.goes_on(images, users, i - 1));
    }
}

/// A pinned sample stays as it is while a subscriber reads it.
pub proof fn law_read_pinned_sample_stays(
    p: Pinned,
    images: Seq<Seq<u8>>,
    users: Seq<Users>,
    i: int,
    k: int,
)
    requires
        p.run(images, users),
        0 <= i <= k < images.len(),
        forall|x: int| i <= x <= k ==> (#[trigger] users[x]).reading > 0,
    ensures
        p.same(images[i], images[k]),
    decreases k - i,
{
    if i < k {
        law_read_pinned_sample_stays(p, images, users, i, k - 1);
        law_pinned_block_has_one_kind_of_user(p, images, users, k - 1);
        assert(users[k - 1].reading > 0);
        assert(p.goes_on(images, users, k - 1));
    }
}

/// A pinned sample that was taken is intact and stays so, whatever the publisher
/// does meanwhile: a reader that took it, as `Subscription::try_recv_pinned` is
/// stated to, finds the word of the sample still there, and its data unchanged,
/// while it is counted. `j` is the moment right after it was counted in.
pub proof fn law_taken_pinned_sample_is_intact(
    p: Pinned,
    images: Seq<Seq<u8>>,
    users: Seq<Users>,
    ops: Accesses,
    word: u64,
    block: u32,
    moments: Seq<int>,
    j: int,
    k: int,
)
    requires
        p.run(images, users),
        p.block == block,
        subscription::took_pinned(p.topic, ops, word, block),
        reading::happens(images, ops, moments),
        0 <= j <= moments.last() <= k < images.len(),
        forall|x: int| j <= x <= k ==> (#[trigger] users[x]).reading > 0,
    ensures
        p.word(images[j]) == word,
        p.word(images[k]) == word,
        p.data(images[k]) == p.data(images[j]),
{
    let off = layout::topic_off(p.topic) + TE_PINNED_SEQ;
    let tries = choose|tries: Accesses|
        {
            &&& ops == subscription::pinned_looks(p.topic, word, block) + tries + seq![
                Access::Look64 { off, found: word },
            ]
            &&& #[trigger] subscription::enters(
                tries,
                subscription::readers_off(p.topic),
                true,
            )
        };
    let n = ops.len();
    let t = moments.last();
    assert(ops[n - 1] == (Access::Look64 { off, found: word }));
    assert(moments[n - 1] == t);
    assert(memory::told_of(images[moments[n - 1]], ops[n - 1]));
    assert(p.word(images[t]) == word);
    law_read_pinned_sample_stays(p, images, users, j, t);
    law_read_pinned_sample_stays(p, images, users, j, k);
}

/// The images of a publication in a pinned block, access by access: the publisher
/// takes the block, writes the data, counts the sample, names it, and is done.
pub open spec fn publication(
    p: Pinned,
    m: Seq<u8>,
    data: Seq<u8>,
) -> Seq<Seq<u8>> {
    let was = region::write_seq(m, p.topic);
    let stores = region::pinned_stores(p.topic, data.len() as u32, was);
    let taken = memory::put32(m, subscription::readers_off(p.topic), PINNED_WRITER_ACTIVE);
    let written = memory::put(taken, region::data_off(p.config, p.block), data);
    let counted = memory::after_access(written, stores[0]);
    let named = memory::after_access(counted, stores[1]);
    seq![
        m,
        taken,
        written,
        counted,
        named,
        memory::after_access(named, loan::readers_let_in(p.topic)),
    ]
}

/// Who has the block in each image of a publication.
pub open spec fn publication_users() -> Seq<Users> {
    let nobody = Users { writing: false, reading: 0 };
    let writer = Users { writing: true, reading: 0 };
    seq![nobody, writer, writer, writer, writer, nobody]
}

/// Publishing in a pinned block is a run, so that subscribers may look at any moment
/// of it: the stores that `PinnedLoan::publish` is stated to do come in an order that
/// keeps readers out until the sample is there.
pub proof fn law_pinned_publish_is_a_run(p: Pinned, m: Seq<u8>, data: Seq<u8>)
    requires
        layout::valid_config(p.config),
        layout::region_size(p.config) <= m.len(),
        0 <= p.topic < p.config.max_topics,
        0 <= p.block < p.config.block_count,
        data.len() <= region::capacity_of(p.config),
        p.readers(m) == 0,
    ensures
        p.run(publication(p, m, data), publication_users()),
        p.word(publication(p, m, data)[5]) == pool::packed(
            (region::next_seq(m, p.topic) % 0x1_0000_0000) as u32,
            data.len() as u32,
        ),
        p.data(publication(p, m, data)[5]).subrange(0, data.len() as int) == data,
{
    let images = publication(p, m, data);
    let users = publication_users();
    layout::lemma_layout(p.config);
    layout::lemma_topic(p.config, p.topic);
    region::lemma_block_parts(p.config, p.block);
    assert(p.same(images[0], images[1]));
    assert(p.readers(images[1]) == PINNED_WRITER_ACTIVE);
    assert(p.readers(images[2]) == PINNED_WRITER_ACTIVE);
    assert(p.readers(images[3]) == PINNED_WRITER_ACTIVE);
    assert(p.readers(images[4]) == PINNED_WRITER_ACTIVE);
    assert(p.same(images[4], images[5]));
    assert forall|i: int| 0 <= i < images.len() - 1 implies #[trigger] p.goes_on(
        images,
        users,
        i,
    ) by {
        assert(i == 0 || i == 1 || i == 2 || i == 3 || i == 4);
    }
    let end = p.data(images[5]);
    assert(end == p.data(images[2]));
    assert(end.subrange(0, data.len() as int) =~= data);
}

} // verus!
