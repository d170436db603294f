//! The bounded send queue of a connection.

use std::collections::VecDeque;
use std::sync::Arc;
use vstd::prelude::*;

verus! {

/// Video and audio frames that a connection may have waiting.
pub const MAX_QUEUED_AV: usize = 4;

/// Metadata frames that a connection may have waiting.
pub const MAX_QUEUED_METADATA: usize = 64;

/// A send queue as plain values.
#[verifier::ext_equal]
pub struct OutboxView {
    /// What waits, and whether it is metadata.
    pub items: Seq<(Seq<u8>, bool)>,
    /// Video and audio frames waiting or being written.
    pub av: int,
    /// Metadata frames waiting or being written.
    pub metadata: int,
    /// Nothing more is taken or given.
    pub closed: bool,
}

/// Bounded per-connection send queue. An item takes a slot until it has been
/// written.
pub struct Outbox {
    items: VecDeque<(Arc<Vec<u8>>, bool)>,
    av: usize,
    metadata: usize,
    closed: bool,
}

/// The items of one kind.
pub open spec fn kind_count(items: Seq<(Seq<u8>, bool)>, metadata: bool) -> int
    decreases items.len(),
{
    if items.len() == 0 {
        0
    } else if items.last().1 == metadata {
        kind_count(items.drop_last(), metadata) + 1
    } else {
        kind_count(items.drop_last(), metadata)
    }
}

/// The items as plain values.
pub open spec fn item_views(s: Seq<(Arc<Vec<u8>>, bool)>) -> Seq<(Seq<u8>, bool)> {
    Seq::new(s.len(), |i: int| (s[i].0@, s[i].1))
}

impl View for Outbox {
    type V = OutboxView;

    closed spec fn view(&self) -> OutboxView {
        OutboxView {
            items: item_views(self.items@),
            av: self.av as int,
            metadata: self.metadata as int,
            closed: self.closed,
        }
    }
}

impl OutboxView {
    /// A queue is within its limits, and every item that waits has a slot.
    pub open spec fn bounded(self) -> bool {
        &&& kind_count(self.items, false) <= self.av <= MAX_QUEUED_AV
        &&& kind_count(self.items, true) <= self.metadata <= MAX_QUEUED_METADATA
    }

    /// A queue without items.
    pub open spec fn fresh() -> OutboxView {
        OutboxView { items: Seq::empty(), av: 0, metadata: 0, closed: false }
    }

    /// Whether there is room for one more item.
    pub open spec fn takes(self, metadata: bool) -> bool {
        !self.closed && (if metadata {
            self.metadata < MAX_QUEUED_METADATA
        } else {
            self.av < MAX_QUEUED_AV
        })
    }

    /// The queue with one more item.
    pub open spec fn with(self, bytes: Seq<u8>, metadata: bool) -> OutboxView {
        OutboxView {
            items: self.items.push((bytes, metadata)),
            av: if metadata {
                self.av
            } else {
                self.av + 1
            },
            metadata: if metadata {
                self.metadata + 1
            } else {
                self.metadata
            },
            ..self
        }
    }

    /// The items of a kind that are being written.
    pub open spec fn in_flight(self, metadata: bool) -> int {
        if metadata {
            self.metadata - kind_count(self.items, true)
        } else {
            self.av - kind_count(self.items, false)
        }
    }
}

/// One item more.
proof fn lemma_kind_push(items: Seq<(Seq<u8>, bool)>, item: (Seq<u8>, bool), metadata: bool)
    ensures
        kind_count(items.push(item), metadata) == kind_count(items, metadata) + if item.1 == metadata {
            1int
        } else {
            0
        },
{
    assert(items.push(item).drop_last() =~= items);
}

/// One item less.
proof fn lemma_kind_front(items: Seq<(Seq<u8>, bool)>, metadata: bool)
    requires
        items.len() > 0,
    ensures
        kind_count(items, metadata) == kind_count(items.skip(1), metadata) + if items[0].1 == metadata {
            1int
        } else {
            0
        },
    decreases items.len(),
{
    if items.len() == 1 {
        assert(items.drop_last() =~= Seq::empty());
        assert(items.skip(1) =~= Seq::empty());
    } else {
        lemma_kind_front(items.drop_last(), metadata);
        assert(items.skip(1).drop_last() =~= items.drop_last().skip(1));
    }
}

/// Counts are not negative.
pub proof fn lemma_kind_count(items: Seq<(Seq<u8>, bool)>, metadata: bool)
    ensures
        0 <= kind_count(items, metadata) <= items.len(),
    decreases items.len(),
{
    if items.len() > 0 {
        lemma_kind_count(items.drop_last(), metadata);
    }
}

impl Outbox {
    /// A queue without items.
    pub fn new() -> (r: Self)
        ensures
            r@ == OutboxView::fresh(),
            r@.bounded(),
    {
        let r: Outbox = Outbox { items: VecDeque::new(), av: 0, metadata: 0, closed: false };
        assert(r@.items =~= Seq::empty());
        r
    }

    /// Adds an item, unless the queue is closed or full. Returns whether it
    /// was added.
    pub fn push(&mut self, bytes: Arc<Vec<u8>>, metadata: bool) -> (r: bool)
        requires
            old(self)@.bounded(),
        ensures
            final(self)@.bounded(),
            r == old(self)@.takes(metadata),
            final(self)@ == (if r {
                old(self)@.with(bytes@, metadata)
            } else {
                old(self)@
            }),
    {
        let ghost before = self@;
        if self.closed {
            return false;
        }
        if metadata {
            if self.metadata >= MAX_QUEUED_METADATA {
                return false;
            }
            self.metadata = self.metadata + 1;
        } else {
            if self.av >= MAX_QUEUED_AV {
                return false;
            }
            self.av = self.av + 1;
        }
        self.items.push_back((bytes, metadata));
        proof {
            assert(self@.items =~= before.items.push((bytes@, metadata)));
            lemma_kind_push(before.items, (bytes@, metadata), true);
            lemma_kind_push(before.items, (bytes@, metadata), false);
        }
        true
    }

    /// The next item to write, if there is one and the queue is open.
    pub fn pop(&mut self) -> (r: Option<(Arc<Vec<u8>>, bool)>)
        requires
            old(self)@.bounded(),
        ensures
            final(self)@.bounded(),
            match r {
                Some(item) => {
                    &&& !old(self)@.closed
                    &&& old(self)@.items.len() > 0
                    &&& (item.0@, item.1) == old(self)@.items[0]
                    &&& final(self)@ == (OutboxView { items: old(self)@.items.skip(1), ..old(self)@ })
                    &&& final(self)@.in_flight(item.1) == old(self)@.in_flight(item.1) + 1
                },
                None => {
                    &&& old(self)@.closed || old(self)@.items.len() == 0
                    &&& final(self)@ == old(self)@
                },
            },
    {
        if self.closed {
            return None;
        }
        let ghost before = self@;
        match self.items.pop_front() {
            Some(item) => {
                proof {
                    assert(self@.items =~= before.items.skip(1));
                    lemma_kind_front(before.items, true);
                    lemma_kind_front(before.items, false);
                }
                Some(item)
            },
            None => None,
        }
    }

    /// Marks an item as written, freeing its slot.
    pub fn done(&mut self, metadata: bool)
        requires
            old(self)@.bounded(),
            old(self)@.in_flight(metadata) > 0,
        ensures
            final(self)@.bounded(),
            final(self)@ == (if metadata {
                OutboxView { metadata: old(self)@.metadata - 1, ..old(self)@ }
            } else {
                OutboxView { av: old(self)@.av - 1, ..old(self)@ }
            }),
    {
        proof {
            lemma_kind_count(self@.items, metadata);
        }
        if metadata {
            self.metadata = self.metadata - 1;
        } else {
            self.av = self.av - 1;
        }
    }

    /// Takes and gives nothing more.
    pub fn close(&mut self)
        requires
            old(self)@.bounded(),
        ensures
            final(self)@.bounded(),
            final(self)@ == (OutboxView { closed: true, ..old(self)@ }),
    {
        self.closed = true;
    }
}

/// A queue never holds more than four video or audio frames and 64 metadata
/// frames, and a full one of one kind still takes the other.
pub proof fn law_queue_limits(q: OutboxView)
    requires
        q.bounded(),
        !q.closed,
    ensures
        kind_count(q.items, false) <= 4,
        kind_count(q.items, true) <= 64,
        q.av == 4 && q.metadata < 64 ==> !q.takes(false) && q.takes(true),
        q.av < 4 && q.metadata == 64 ==> q.takes(false) && !q.takes(true),
{
}

} // verus!
