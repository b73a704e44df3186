//! A segment: one bounded slice of a partition's log, owning its byte
//! index, its time index and the unsaved tail of batches not yet handed to
//! the storage.
use vstd::prelude::*;
use crate::batch::BatchView;
use crate::batch::MessagesBatch;
use crate::error::Error;
use crate::index::Index;
use crate::index::IndexRange;
use crate::index::TimeIndex;
use crate::index::find_index_entry;
use crate::index::indexes_sorted;
use crate::message::Message;
use crate::message::MsgView;
use crate::storage::SegmentKey;
use crate::storage::SegmentStorage;
use crate::storage::lemma_batches_size_add;
use crate::storage::lemma_batches_size_prefix;
use crate::storage::lemma_filter_contiguous;
use crate::storage::lemma_filter_range_add;
use crate::storage::lemma_flat_add;
use crate::storage::spec_batches_size;
use crate::storage::spec_filter_range;
use crate::storage::spec_flat_msgs;
use crate::storage::spec_index_entries;
use crate::storage::spec_newest_start;
use crate::storage::spec_time_entries;

verus! {

/// One bounded slice of a partition's log.
pub struct Segment {
    pub stream_id: u32,
    pub topic_id: u32,
    pub partition_id: u32,
    pub start_offset: u64,
    pub end_offset: u64,
    pub current_offset: u64,
    pub current_size_bytes: u32,
    pub max_size_bytes: u32,
    pub message_expiry: Option<u64>,
    pub is_closed: bool,
    pub indexes: Option<Vec<Index>>,
    pub time_indexes: Option<Vec<TimeIndex>>,
    pub unsaved_messages: Option<Vec<MessagesBatch>>,
    /// What this segment believes the storage holds for it; kept in step
    /// with the backend by every operation that touches it.
    pub saved: Ghost<Seq<BatchView>>,
}

impl Segment {
    pub open spec fn key(self) -> SegmentKey {
        SegmentKey {
            stream_id: self.stream_id,
            topic_id: self.topic_id,
            partition_id: self.partition_id,
            start_offset: self.start_offset,
        }
    }

    /// The unsaved tail as batch views.
    pub open spec fn unsaved_views(self) -> Seq<BatchView> {
        match self.unsaved_messages {
            Some(v) => v.deep_view(),
            None => Seq::empty(),
        }
    }

    /// Saved batches followed by the unsaved tail: the whole log.
    pub open spec fn all_batches(self) -> Seq<BatchView> {
        self.saved@ + self.unsaved_views()
    }

    /// Every message of the segment, in offset order.
    pub open spec fn all_msgs(self) -> Seq<MsgView> {
        spec_flat_msgs(self.all_batches())
    }

    /// How many messages the segment holds.
    pub open spec fn spec_count(self) -> int {
        if self.current_size_bytes == 0 {
            0
        } else {
            self.current_offset - self.start_offset + 1
        }
    }

    /// The well-formedness of a segment: offsets bounded and contiguous,
    /// sizes accounted exactly, the indexes mirroring the batches, and a
    /// closed segment sealed at its current offset with nothing unsaved.
    pub closed spec fn inv(self) -> bool {
        let all = self.all_batches();
        let msgs = self.all_msgs();
        &&& self.start_offset <= self.current_offset
        &&& self.current_offset - self.start_offset + 1 <= u32::MAX
        &&& self.current_size_bytes <= self.max_size_bytes
        &&& (self.is_closed ==> self.end_offset == self.current_offset
            && self.unsaved_views().len() == 0)
        &&& msgs.len() == self.spec_count()
        &&& (forall|j: int| 0 <= j < msgs.len() ==> (#[trigger] msgs[j]).offset
            == self.start_offset + j)
        &&& (forall|j: int| 0 <= j < msgs.len() ==> (#[trigger] msgs[j]).wf())
        &&& (forall|i: int| 0 <= i < all.len() ==> (#[trigger] all[i]).wf())
        &&& self.current_size_bytes == spec_batches_size(all)
        &&& (match self.indexes {
            Some(ix) => ix@ == spec_index_entries(self.start_offset, 0, all),
            None => true,
        })
        &&& (match self.time_indexes {
            Some(ti) => ti@ == spec_time_entries(self.start_offset, all),
            None => true,
        })
        &&& (self.unsaved_views().len() > 0 ==> self.unsaved_views()[0].base_offset
            == self.start_offset + spec_flat_msgs(self.saved@).len())
    }

    /// Whether the segment's belief about the backend matches it.
    pub closed spec fn synced<S: SegmentStorage>(self, storage: &S) -> bool {
        &&& storage.seg_batches(self.key()) == self.saved@
        &&& storage.seg_indexes(self.key()) == spec_index_entries(self.start_offset, 0,
            self.saved@)
        &&& storage.seg_time_indexes(self.key()) == spec_time_entries(self.start_offset,
            self.saved@)
    }

    /// Full at the configured size, or once the message expiry has elapsed
    /// since the segment's oldest indexed timestamp.
    pub open spec fn spec_is_full(self, now: u64) -> bool {
        ||| self.current_size_bytes >= self.max_size_bytes
        ||| (match (self.message_expiry, self.time_indexes) {
            (Some(expiry), Some(ti)) => ti@.len() > 0 && ti@[0].timestamp + expiry <= now,
            _ => false,
        })
    }

    /// An empty open segment starting at `start_offset`.
    pub fn create(stream_id: u32, topic_id: u32, partition_id: u32, start_offset: u64,
        max_size_bytes: u32, message_expiry: Option<u64>, with_indexes: bool,
        with_time_indexes: bool) -> (r: Segment)
        ensures
            r.inv(),
            r.saved@ == Seq::<BatchView>::empty(),
            r.stream_id == stream_id,
            r.topic_id == topic_id,
            r.partition_id == partition_id,
            r.start_offset == start_offset,
            r.current_offset == start_offset,
            r.current_size_bytes == 0,
            r.max_size_bytes == max_size_bytes,
            r.message_expiry == message_expiry,
            !r.is_closed,
            r.spec_count() == 0,
            r.unsaved_views().len() == 0,
            r.indexes is Some <==> with_indexes,
            r.time_indexes is Some <==> with_time_indexes,
    {
        let indexes: Option<Vec<Index>> = if with_indexes { Some(Vec::new()) } else { None };
        let time_indexes: Option<Vec<TimeIndex>> = if with_time_indexes {
            Some(Vec::new())
        } else {
            None
        };
        let r = Segment {
            stream_id,
            topic_id,
            partition_id,
            start_offset,
            end_offset: start_offset,
            current_offset: start_offset,
            current_size_bytes: 0,
            max_size_bytes,
            message_expiry,
            is_closed: false,
            indexes,
            time_indexes,
            unsaved_messages: Some(Vec::new()),
            saved: Ghost(Seq::empty()),
        };
        proof {
            assert(r.all_batches() =~= Seq::<BatchView>::empty());
            assert(r.all_msgs() =~= Seq::<MsgView>::empty());
            if with_indexes {
                assert(r.indexes->0@ =~= spec_index_entries(start_offset, 0,
                    r.all_batches()));
            }
            if with_time_indexes {
                assert(r.time_indexes->0@ =~= spec_time_entries(start_offset,
                    r.all_batches()));
            }
        }
        r
    }

    /// Zero when nothing was ever appended, else one past the distance from
    /// the start offset to the current offset.
    pub fn get_messages_count(&self) -> (r: u64)
        requires
            self.inv(),
        ensures
            r == self.spec_count(),
            r == self.all_msgs().len(),
    {
        if self.current_size_bytes == 0 {
            return 0;
        }
        self.current_offset - self.start_offset + 1
    }

    /// Whether the segment must roll over.
    pub fn is_full(&self, now: u64) -> (r: bool)
        ensures
            r == self.spec_is_full(now),
    {
        if self.current_size_bytes >= self.max_size_bytes {
            return true;
        }
        match (&self.message_expiry, &self.time_indexes) {
            (Some(expiry), Some(ti)) => {
                if ti.len() == 0 {
                    return false;
                }
                let first = ti[0].timestamp;
                now >= first && now - first >= *expiry
            },
            _ => false,
        }
    }

    /// Record the byte-index entry for a batch that ends at
    /// `batch_last_offset`, pointing at the bytes the segment holds so far,
    /// and the matching time-index entry stamped `batch_last_timestamp`.
    fn store_index_for_batch(&mut self, batch_last_offset: u64, batch_last_timestamp: u64)
        requires
            old(self).start_offset <= batch_last_offset,
            batch_last_offset - old(self).start_offset <= u32::MAX,
        ensures
            final(self).stream_id == old(self).stream_id,
            final(self).topic_id == old(self).topic_id,
            final(self).partition_id == old(self).partition_id,
            final(self).start_offset == old(self).start_offset,
            final(self).end_offset == old(self).end_offset,
            final(self).current_offset == old(self).current_offset,
            final(self).current_size_bytes == old(self).current_size_bytes,
            final(self).max_size_bytes == old(self).max_size_bytes,
            final(self).message_expiry == old(self).message_expiry,
            final(self).is_closed == old(self).is_closed,
            final(self).unsaved_messages == old(self).unsaved_messages,
            final(self).saved == old(self).saved,
            ({
                let rel = (batch_last_offset - old(self).start_offset) as u32;
                let entry = Index { relative_offset: rel, position: old(self).current_size_bytes };
                let tentry = TimeIndex { relative_offset: rel, timestamp: batch_last_timestamp };
                &&& (match old(self).indexes {
                    Some(ix) => final(self).indexes is Some
                        && final(self).indexes->0@ == ix@.push(entry),
                    None => final(self).indexes is None,
                })
                &&& (match old(self).time_indexes {
                    Some(ti) => final(self).time_indexes is Some
                        && final(self).time_indexes->0@ == ti@.push(tentry),
                    None => final(self).time_indexes is None,
                })
            }),
    {
        let relative_offset = (batch_last_offset - self.start_offset) as u32;
        match (&mut self.indexes, &mut self.time_indexes) {
            (Some(indexes), Some(time_indexes)) => {
                indexes.push(Index { relative_offset, position: self.current_size_bytes });
                time_indexes.push(TimeIndex {
                    relative_offset,
                    timestamp: batch_last_timestamp,
                });
            },
            (Some(indexes), None) => {
                indexes.push(Index { relative_offset, position: self.current_size_bytes });
            },
            (None, Some(time_indexes)) => {
                time_indexes.push(TimeIndex {
                    relative_offset,
                    timestamp: batch_last_timestamp,
                });
            },
            (None, None) => {},
        };
    }

    /// Take one batch into the unsaved tail, advance the current offset to
    /// the batch's last message and account its bytes; a closed segment
    /// refuses.
    pub fn append_messages(&mut self, messages: MessagesBatch, last_message_offset: u64)
        -> (r: Result<(), Error>)
        requires
            old(self).inv(),
            messages@.wf(),
            messages@.base_offset == old(self).start_offset + old(self).spec_count(),
            last_message_offset == messages@.last_offset(),
            last_message_offset - old(self).start_offset + 1 <= u32::MAX,
            old(self).current_size_bytes + messages@.length <= old(self).max_size_bytes,
        ensures
            old(self).is_closed ==> r == Err::<(), Error>(Error::SegmentClosed(
                old(self).start_offset, old(self).partition_id)) && *final(self) == *old(self),
            !old(self).is_closed ==> r is Ok && final(self).inv()
                && final(self).saved@ == old(self).saved@
                && final(self).unsaved_views() == old(self).unsaved_views().push(messages@)
                && final(self).all_msgs() == old(self).all_msgs() + messages@.messages
                && final(self).current_offset == last_message_offset
                && final(self).current_size_bytes == old(self).current_size_bytes
                    + messages@.length
                && final(self).stream_id == old(self).stream_id
                && final(self).topic_id == old(self).topic_id
                && final(self).partition_id == old(self).partition_id
                && final(self).start_offset == old(self).start_offset
                && final(self).end_offset == old(self).end_offset
                && final(self).max_size_bytes == old(self).max_size_bytes
                && final(self).message_expiry == old(self).message_expiry
                && !final(self).is_closed
                && (match old(self).indexes {
                    Some(ix) => final(self).indexes is Some && final(self).indexes->0@
                        == ix@.push(Index {
                        relative_offset: (last_message_offset
                            - old(self).start_offset) as u32,
                        position: old(self).current_size_bytes,
                    }),
                    None => final(self).indexes is None,
                })
                && (match old(self).time_indexes {
                    Some(ti) => final(self).time_indexes is Some
                        && final(self).time_indexes->0@ == ti@.push(TimeIndex {
                        relative_offset: (last_message_offset
                            - old(self).start_offset) as u32,
                        timestamp: messages@.messages.last().timestamp,
                    }),
                    None => final(self).time_indexes is None,
                })
                && final(self).spec_count() == old(self).spec_count()
                    + messages@.messages.len(),
    {
        if self.is_closed {
            return Err(Error::SegmentClosed(self.start_offset, self.partition_id));
        }
        let ghost old_all = self.all_batches();
        let ghost old_msgs = self.all_msgs();
        let ghost bv = messages@;
        let last_timestamp = messages.messages[messages.messages.len() - 1].timestamp;
        let batch_length = messages.length;
        proof {
            assert(bv.messages.len() >= 1);
            assert(bv.messages.last().timestamp == last_timestamp);
            assert(last_message_offset >= self.start_offset);
        }
        self.store_index_for_batch(last_message_offset, last_timestamp);
        if self.unsaved_messages.is_none() {
            self.unsaved_messages = Some(Vec::new());
            proof {
                assert(self.unsaved_views() =~= old(self).unsaved_views());
            }
        }
        match &mut self.unsaved_messages {
            Some(v) => {
                v.push(messages);
            },
            None => {},
        }
        proof {
            assert(self.unsaved_views() =~= old(self).unsaved_views().push(bv));
        }
        self.current_offset = last_message_offset;
        self.current_size_bytes = self.current_size_bytes + batch_length;
        proof {
            lemma_append_shape(*old(self), *self, bv, old_all, old_msgs);
        }
        Ok(())
    }

    /// The messages of the unsaved tail with offsets in the inclusive
    /// range, in order.
    pub fn load_messages_from_unsaved_buffer(&self, offset: u64, end_offset: u64)
        -> (r: Vec<Message>)
        ensures
            r.deep_view() == spec_filter_range(spec_flat_msgs(self.unsaved_views()), offset,
                end_offset),
    {
        let mut out: Vec<Message> = Vec::new();
        let batches = match &self.unsaved_messages {
            Some(v) => v,
            None => {
                proof {
                    assert(spec_filter_range(spec_flat_msgs(self.unsaved_views()), offset,
                        end_offset) =~= Seq::<MsgView>::empty());
                }
                return out;
            },
        };
        let ghost all = batches.deep_view();
        let mut i: usize = 0;
        while i < batches.len()
            invariant
                i <= batches@.len(),
                all == batches.deep_view(),
                all.len() == batches@.len(),
                out.deep_view() =~= spec_filter_range(spec_flat_msgs(all.subrange(0,
                    i as int)), offset, end_offset),
            decreases batches@.len() - i,
        {
            proof {
                let pre = all.subrange(0, i as int);
                let cur = all.subrange(0, i + 1 as int);
                assert(cur.drop_last() =~= pre);
                assert(cur.last() == all[i as int]);
                assert(spec_flat_msgs(cur) == spec_flat_msgs(pre) + all[i as int].messages);
                lemma_filter_range_add(spec_flat_msgs(pre), all[i as int].messages, offset,
                    end_offset);
            }
            crate::memory_storage::append_filtered(&mut out, &batches[i], offset, end_offset);
            i = i + 1;
        }
        proof {
            assert(all.subrange(0, all.len() as int) =~= all);
        }
        out
    }
}

/// Appending one well-formed batch keeps a segment well formed and extends
/// its message run by exactly the batch's messages.
proof fn lemma_append_shape(pre: Segment, post: Segment, bv: BatchView, old_all: Seq<BatchView>,
    old_msgs: Seq<MsgView>)
    requires
        pre.inv(),
        !pre.is_closed,
        bv.wf(),
        bv.base_offset == pre.start_offset + pre.spec_count(),
        old_all == pre.all_batches(),
        old_msgs == pre.all_msgs(),
        post.saved@ == pre.saved@,
        post.unsaved_views() == pre.unsaved_views().push(bv),
        post.stream_id == pre.stream_id,
        post.topic_id == pre.topic_id,
        post.partition_id == pre.partition_id,
        post.start_offset == pre.start_offset,
        post.end_offset == pre.end_offset,
        post.max_size_bytes == pre.max_size_bytes,
        post.message_expiry == pre.message_expiry,
        !post.is_closed,
        post.current_offset == bv.last_offset(),
        post.current_offset - post.start_offset + 1 <= u32::MAX,
        post.current_size_bytes == pre.current_size_bytes + bv.length,
        post.current_size_bytes <= post.max_size_bytes,
        (match pre.indexes {
            Some(ix) => post.indexes is Some && post.indexes->0@ == ix@.push(Index {
                relative_offset: (bv.last_offset() - pre.start_offset) as u32,
                position: pre.current_size_bytes,
            }),
            None => post.indexes is None,
        }),
        (match pre.time_indexes {
            Some(ti) => post.time_indexes is Some && post.time_indexes->0@ == ti@.push(
                TimeIndex {
                    relative_offset: (bv.last_offset() - pre.start_offset) as u32,
                    timestamp: bv.messages.last().timestamp,
                }),
            None => post.time_indexes is None,
        }),
    ensures
        post.inv(),
        post.all_msgs() == old_msgs + bv.messages,
        post.spec_count() == pre.spec_count() + bv.messages.len(),
{
    let all = post.all_batches();
    let msgs = post.all_msgs();
    assert(all =~= old_all.push(bv));
    assert(all.drop_last() =~= old_all);
    assert(all.last() == bv);
    assert(msgs == old_msgs + bv.messages);
    assert(spec_batches_size(all) == spec_batches_size(old_all) + bv.length);
    assert(msgs.len() == old_msgs.len() + bv.messages.len());
    assert(bv.messages.len() == bv.last_offset_delta + 1);
    assert(post.spec_count() == pre.spec_count() + bv.messages.len()) by {
        crate::batch::lemma_msgs_size_nonneg(bv.messages);
        assert(bv.length >= crate::batch::BATCH_HEADER_BYTES);
        assert(post.current_size_bytes > 0);
    }
    assert forall|j: int| 0 <= j < msgs.len() implies (#[trigger] msgs[j]).offset
        == post.start_offset + j by {
        if j < old_msgs.len() {
            assert(msgs[j] == old_msgs[j]);
        } else {
            assert(msgs[j] == bv.messages[j - old_msgs.len()]);
            assert(bv.messages[j - old_msgs.len()].offset == bv.base_offset + (j
                - old_msgs.len()));
        }
    }
    assert forall|j: int| 0 <= j < msgs.len() implies (#[trigger] msgs[j]).wf() by {
        if j < old_msgs.len() {
            assert(msgs[j] == old_msgs[j]);
        } else {
            assert(msgs[j] == bv.messages[j - old_msgs.len()]);
        }
    }
    assert(forall|i: int| 0 <= i < all.len() ==> (#[trigger] all[i]).wf());
    match post.indexes {
        Some(ix) => {
            assert(ix@ =~= spec_index_entries(post.start_offset, 0, all)) by {
                let full = spec_index_entries(post.start_offset, 0, all);
                assert(full.len() == all.len());
                assert forall|i: int| 0 <= i < all.len() implies ix@[i] == full[i] by {
                    if i < old_all.len() {
                        assert(all.subrange(0, i) =~= old_all.subrange(0, i));
                        assert(all[i] == old_all[i]);
                        assert(ix@[i] == spec_index_entries(pre.start_offset, 0, old_all)[i]);
                    } else {
                        assert(all.subrange(0, i) =~= old_all);
                        assert(all[i] == bv);
                    }
                }
            }
        },
        None => {},
    }
    match post.time_indexes {
        Some(ti) => {
            assert(ti@ =~= spec_time_entries(post.start_offset, all)) by {
                let full = spec_time_entries(post.start_offset, all);
                assert(full.len() == all.len());
                assert forall|i: int| 0 <= i < all.len() implies ti@[i] == full[i] by {
                    if i < old_all.len() {
                        assert(all[i] == old_all[i]);
                        assert(ti@[i] == spec_time_entries(pre.start_offset, old_all)[i]);
                    } else {
                        assert(all[i] == bv);
                    }
                }
            }
        },
        None => {},
    }
    if post.unsaved_views().len() > 0 {
        if pre.unsaved_views().len() > 0 {
            assert(post.unsaved_views()[0] == pre.unsaved_views()[0]);
        } else {
            assert(post.unsaved_views()[0] == bv);
            assert(old_all =~= pre.saved@);
            assert(spec_flat_msgs(pre.saved@).len() == pre.spec_count());
        }
    }
}


impl Segment {
    /// What a read of `count` messages from `offset` must return: the run
    /// clamped to what the segment holds.
    pub open spec fn spec_get_messages(self, offset: u64, count: u32) -> Seq<MsgView> {
        let lo = if offset < self.start_offset { self.start_offset as int } else { offset as int };
        if count == 0 || self.spec_count() == 0 || lo > self.current_offset {
            Seq::empty()
        } else {
            let hi = if lo + count - 1 <= self.current_offset { lo + count - 1 } else {
                self.current_offset as int
            };
            self.all_msgs().subrange(lo - self.start_offset, hi + 1 - self.start_offset)
        }
    }

    /// The key the segment presents to the storage.
    fn make_key(&self) -> (r: SegmentKey)
        ensures
            r == self.key(),
    {
        SegmentKey {
            stream_id: self.stream_id,
            topic_id: self.topic_id,
            partition_id: self.partition_id,
            start_offset: self.start_offset,
        }
    }

    /// The saved messages the index range names, read back from storage.
    fn load_messages_from_segment_file<S: SegmentStorage>(&self, storage: &S,
        index_range: &IndexRange) -> (r: Result<Vec<Message>, Error>)
        requires
            self.inv(),
            self.synced(storage),
            self.start_offset + index_range.start.relative_offset <= u64::MAX,
            self.start_offset + index_range.end.relative_offset <= u64::MAX,
        ensures
            r is Ok ==> r->Ok_0.deep_view() == spec_filter_range(spec_flat_msgs(self.saved@),
                (self.start_offset + index_range.start.relative_offset) as u64,
                (self.start_offset + index_range.end.relative_offset) as u64),
    {
        let key = self.make_key();
        storage.load_messages(key, index_range)
    }

    /// The saved messages with offsets in the inclusive range. An empty or
    /// inverted range, or one past the current offset, yields nothing.
    fn load_messages_from_disk<S: SegmentStorage>(&self, storage: &S, start_offset: u64,
        end_offset: u64) -> (r: Result<Vec<Message>, Error>)
        requires
            self.inv(),
            self.synced(storage),
            start_offset >= self.start_offset,
        ensures
            r is Ok ==> r->Ok_0.deep_view() == (
                if start_offset > end_offset || end_offset > self.current_offset {
                    Seq::<MsgView>::empty()
                } else {
                    spec_filter_range(spec_flat_msgs(self.saved@), start_offset, end_offset)
                }),
            start_offset > end_offset || end_offset > self.current_offset ==> r is Ok,
    {
        if start_offset > end_offset || end_offset > self.current_offset {
            let empty: Vec<Message> = Vec::new();
            proof {
                assert(empty.deep_view() =~= Seq::<MsgView>::empty());
            }
            return Ok(empty);
        }
        let relative_start_offset = (start_offset - self.start_offset) as u32;
        let relative_end_offset = (end_offset - self.start_offset) as u32;
        proof {
            assert(self.start_offset + relative_start_offset == start_offset);
            assert(self.start_offset + relative_end_offset == end_offset);
        }
        match &self.indexes {
            Some(indexes) => {
                proof {
                    lemma_segment_indexes_sorted(*self);
                }
                let start_idx = find_index_entry(indexes, relative_start_offset);
                let start_position = if start_idx < indexes.len() {
                    indexes[start_idx].position
                } else {
                    self.current_size_bytes
                };
                let end_idx = if relative_end_offset < u32::MAX {
                    find_index_entry(indexes, relative_end_offset + 1)
                } else {
                    indexes.len()
                };
                let end_position = if end_idx < indexes.len() {
                    indexes[end_idx].position
                } else {
                    self.current_size_bytes
                };
                let index_range = IndexRange {
                    start: Index {
                        relative_offset: relative_start_offset,
                        position: start_position,
                    },
                    end: Index { relative_offset: relative_end_offset, position: end_position },
                };
                self.load_messages_from_segment_file(storage, &index_range)
            },
            None => {
                let key = self.make_key();
                let range = match storage.load_index_range(key, self.start_offset,
                    start_offset, end_offset) {
                    Ok(r) => r,
                    Err(e) => {
                        return Err(e);
                    },
                };
                match range {
                    Some(index_range) => {
                        proof {
                            assert(self.start_offset + index_range.start.relative_offset
                                == start_offset);
                            assert(self.start_offset + index_range.end.relative_offset
                                == end_offset);
                        }
                        self.load_messages_from_segment_file(storage, &index_range)
                    },
                    None => {
                        let empty: Vec<Message> = Vec::new();
                        proof {
                            assert(spec_index_entries(self.start_offset, 0, self.saved@).len()
                                == self.saved@.len());
                            assert(self.saved@ =~= Seq::<BatchView>::empty());
                            assert(empty.deep_view() =~= spec_filter_range(spec_flat_msgs(
                                self.saved@), start_offset, end_offset));
                        }
                        Ok(empty)
                    },
                }
            },
        }
    }

    /// The messages with offsets in `[offset, offset + count - 1]`, clamped
    /// to what the segment holds, drawn from storage and the unsaved tail.
    pub fn get_messages<S: SegmentStorage>(&self, storage: &S, offset: u64, count: u32)
        -> (r: Result<Vec<Message>, Error>)
        requires
            self.inv(),
            self.synced(storage),
        ensures
            r is Ok ==> r->Ok_0.deep_view() == self.spec_get_messages(offset, count),
            count == 0 ==> r is Ok,
            self.spec_count() == 0 ==> r is Ok,
            ({
                let lo = if offset < self.start_offset { self.start_offset as int } else {
                    offset as int
                };
                lo > self.current_offset ==> r is Ok
            }),
            ({
                let lo = if offset < self.start_offset { self.start_offset as int } else {
                    offset as int
                };
                lo <= self.current_offset && lo - self.start_offset
                    >= spec_flat_msgs(self.saved@).len() ==> r is Ok
            }),
    {
        let empty: Vec<Message> = Vec::new();
        proof {
            assert(empty.deep_view() =~= Seq::<MsgView>::empty());
        }
        if count == 0 {
            return Ok(empty);
        }
        if self.current_size_bytes == 0 {
            return Ok(empty);
        }
        let lo = if offset < self.start_offset { self.start_offset } else { offset };
        if lo > self.current_offset {
            return Ok(empty);
        }
        let remaining = self.current_offset - lo;
        let hi = if (count - 1) as u64 <= remaining {
            lo + (count - 1) as u64
        } else {
            self.current_offset
        };
        let ghost saved_msgs = spec_flat_msgs(self.saved@);
        let ghost unsaved_msgs = spec_flat_msgs(self.unsaved_views());
        proof {
            lemma_flat_add(self.saved@, self.unsaved_views());
            assert(self.all_msgs() == saved_msgs + unsaved_msgs);
            lemma_filter_range_add(saved_msgs, unsaved_msgs, lo, hi);
            lemma_segment_runs(*self);
            lemma_filter_contiguous(self.all_msgs(), self.start_offset as int, lo, hi);
            lemma_filter_contiguous(saved_msgs, self.start_offset as int, lo, hi);
            lemma_filter_contiguous(unsaved_msgs, self.start_offset
                + saved_msgs.len(), lo, hi);
            assert(self.spec_get_messages(offset, count) == spec_filter_range(self.all_msgs(),
                lo, hi));
        }
        let mut have_buffer = false;
        let mut first_buffered: u64 = 0;
        match &self.unsaved_messages {
            Some(v) => {
                if v.len() > 0 {
                    have_buffer = true;
                    first_buffered = v[0].base_offset;
                }
            },
            None => {},
        }
        if !have_buffer {
            proof {
                assert(unsaved_msgs.len() == 0);
                assert(spec_filter_range(unsaved_msgs, lo, hi) =~= Seq::<MsgView>::empty());
                assert(saved_msgs.len() == self.spec_count());
                assert(lo - self.start_offset < saved_msgs.len());
            }
            let r = match self.load_messages_from_disk(storage, lo, hi) {
                Ok(v) => v,
                Err(e) => {
                    return Err(e);
                },
            };
            proof {
                assert(r.deep_view() =~= spec_filter_range(self.all_msgs(), lo, hi));
            }
            return Ok(r);
        }
        proof {
            assert(first_buffered == self.start_offset + saved_msgs.len());
        }
        if hi < first_buffered {
            proof {
                assert(lo - self.start_offset < saved_msgs.len());
            }
            let r = match self.load_messages_from_disk(storage, lo, hi) {
                Ok(v) => v,
                Err(e) => {
                    return Err(e);
                },
            };
            proof {
                assert(spec_filter_range(unsaved_msgs, lo, hi) =~= Seq::<MsgView>::empty());
                assert(r.deep_view() =~= spec_filter_range(self.all_msgs(), lo, hi));
            }
            return Ok(r);
        }
        if lo >= first_buffered {
            let r = self.load_messages_from_unsaved_buffer(lo, hi);
            proof {
                assert(spec_filter_range(saved_msgs, lo, hi) =~= Seq::<MsgView>::empty());
                assert(r.deep_view() =~= spec_filter_range(self.all_msgs(), lo, hi));
            }
            return Ok(r);
        }
        proof {
            assert(lo - self.start_offset < saved_msgs.len());
        }
        let mut messages = match self.load_messages_from_disk(storage, lo, hi) {
            Ok(v) => v,
            Err(e) => {
                return Err(e);
            },
        };
        let mut buffered_messages = self.load_messages_from_unsaved_buffer(lo, hi);
        let ghost disk_part = messages.deep_view();
        let ghost buf_part = buffered_messages.deep_view();
        let ghost pre_vec = messages@;
        messages.append(&mut buffered_messages);
        proof {
            assert forall|x: int| 0 <= x < messages.deep_view().len() implies
                messages.deep_view()[x] == (disk_part + buf_part)[x] by {
                if x < disk_part.len() {
                    assert(messages@[x] == pre_vec[x]);
                }
            }
            assert(messages.deep_view() =~= disk_part + buf_part);
            assert(messages.deep_view() =~= spec_filter_range(self.all_msgs(), lo, hi));
        }
        Ok(messages)
    }

    /// Every message the segment holds.
    pub fn get_all_messages<S: SegmentStorage>(&self, storage: &S)
        -> (r: Result<Vec<Message>, Error>)
        requires
            self.inv(),
            self.synced(storage),
        ensures
            r is Ok ==> r->Ok_0.deep_view() == self.all_msgs(),
            self.spec_count() == 0 ==> r is Ok,
            spec_flat_msgs(self.saved@).len() == 0 ==> r is Ok,
    {
        let count = self.get_messages_count();
        let r = match self.get_messages(storage, self.start_offset, count as u32) {
            Ok(v) => v,
            Err(e) => {
                return Err(e);
            },
        };
        proof {
            if self.spec_count() == 0 {
                assert(self.all_msgs() =~= Seq::<MsgView>::empty());
                assert(r.deep_view() =~= self.all_msgs());
            } else {
                assert(self.all_msgs().subrange(0, self.all_msgs().len() as int)
                    =~= self.all_msgs());
                assert(r.deep_view() =~= self.all_msgs());
            }
        }
        Ok(r)
    }

    /// The newest run of saved messages whose cumulative size reaches
    /// `size_bytes`.
    pub fn get_newest_messages_by_size<S: SegmentStorage>(&self, storage: &S, size_bytes: u64)
        -> (r: Result<Vec<Message>, Error>)
        requires
            self.inv(),
            self.synced(storage),
        ensures
            r is Ok ==> r->Ok_0.deep_view() == spec_flat_msgs(self.saved@.subrange(
                spec_newest_start(self.saved@, size_bytes), self.saved@.len() as int)),
    {
        let key = self.make_key();
        storage.load_newest_messages_by_size(key, size_bytes)
    }

    /// Hand the unsaved tail to the storage: the batches, then the index
    /// region starting where the saved bytes end, then the time-index
    /// region. A full segment then seals itself; an open one keeps an empty
    /// tail. Nothing is persisted twice: the tail empties exactly when the
    /// saves succeed, and a failed save surfaces with the segment unchanged.
    pub fn persist_messages<S: SegmentStorage>(&mut self, storage: &mut S, now: u64)
        -> (r: Result<(), Error>)
        requires
            old(self).inv(),
            old(self).synced(old(storage)),
        ensures
            old(self).unsaved_views().len() == 0 ==> r is Ok && *final(self) == *old(self)
                && *final(storage) == *old(storage),
            r is Ok ==> final(self).inv() && final(self).synced(final(storage))
                && final(self).all_msgs() == old(self).all_msgs()
                && final(self).all_batches() == old(self).all_batches()
                && final(self).saved@ == old(self).saved@ + old(self).unsaved_views()
                && final(self).unsaved_views().len() == 0
                && final(self).current_offset == old(self).current_offset
                && final(self).current_size_bytes == old(self).current_size_bytes
                && final(self).start_offset == old(self).start_offset
                && final(self).stream_id == old(self).stream_id
                && final(self).topic_id == old(self).topic_id
                && final(self).partition_id == old(self).partition_id
                && final(self).max_size_bytes == old(self).max_size_bytes
                && final(self).spec_count() == old(self).spec_count()
                && (old(self).unsaved_views().len() > 0 ==> final(self).is_closed
                    == old(self).spec_is_full(now))
                && (old(self).unsaved_views().len() > 0 && old(self).spec_is_full(now)
                    ==> final(self).end_offset == final(self).current_offset),
            r is Ok && !old(self).spec_is_full(now) ==> final(self).end_offset
                == old(self).end_offset && final(self).is_closed == old(self).is_closed,
            r is Ok && !old(self).spec_is_full(now) && old(self).unsaved_views().len() > 0
                ==> final(self).unsaved_messages is Some
                    && final(self).unsaved_views().len() == 0,
            r is Err ==> *final(self) == *old(self),
    {
        let unsaved_empty = match &self.unsaved_messages {
            Some(v) => v.len() == 0,
            None => true,
        };
        if unsaved_empty {
            proof {
                assert(self.unsaved_views().len() == 0);
            }
            return Ok(());
        }
        let key = self.make_key();
        let ghost old_saved = self.saved@;
        let ghost tail = self.unsaved_views();
        proof {
            lemma_batches_size_add(self.saved@, self.unsaved_views());
            crate::storage::lemma_batches_size_nonneg(self.saved@);
            crate::storage::lemma_batches_size_nonneg(self.unsaved_views());
            lemma_all_batch_offsets(*self);
        }
        let saved_bytes: u32;
        let index_result: Result<(), Error>;
        let time_result: Result<(), Error>;
        match &self.unsaved_messages {
            Some(unsaved_messages) => {
                proof {
                    assert(unsaved_messages.deep_view() == tail);
                    assert forall|i: int| 0 <= i < tail.len() implies (#[trigger] tail[i]).wf()
                        && tail[i].last_offset() >= key.start_offset
                        && tail[i].last_offset() - key.start_offset <= u32::MAX by {
                        assert(self.all_batches()[old_saved.len() + i] == tail[i]);
                    }
                }
                saved_bytes = match storage.save_messages(key, unsaved_messages) {
                    Ok(n) => n,
                    Err(e) => {
                        return Err(e);
                    },
                };
                let current_position = self.current_size_bytes - saved_bytes;
                proof {
                    assert(current_position == spec_batches_size(old_saved));
                }
                index_result = storage.save_index(key, current_position, unsaved_messages);
                time_result = storage.save_time_index(key, unsaved_messages);
            },
            None => {
                return Ok(());
            },
        }
        match index_result {
            Ok(_) => {},
            Err(e) => {
                return Err(e);
            },
        }
        match time_result {
            Ok(_) => {},
            Err(e) => {
                return Err(e);
            },
        }
        let full = self.is_full(now);
        proof {
            self.saved@ = old_saved + tail;
        }
        if full {
            self.end_offset = self.current_offset;
            self.is_closed = true;
            self.unsaved_messages = None;
        } else {
            self.unsaved_messages = Some(Vec::new());
        }
        proof {
            lemma_index_entries_concat(self.start_offset, 0, old_saved, tail);
            lemma_time_entries_concat(self.start_offset, old_saved, tail);
            assert(self.all_batches() =~= old(self).all_batches());
            assert(self.unsaved_views().len() == 0);
            assert(self.all_msgs() == old(self).all_msgs());
            assert(self.synced(storage));
        }
        Ok(())
    }

    /// Seal an open segment whose tail was already persisted.
    pub fn close(&mut self)
        requires
            old(self).inv(),
            old(self).unsaved_views().len() == 0,
        ensures
            final(self).inv(),
            final(self).is_closed,
            final(self).end_offset == final(self).current_offset,
            final(self).all_msgs() == old(self).all_msgs(),
            final(self).all_batches() == old(self).all_batches(),
            final(self).saved == old(self).saved,
            final(self).unsaved_messages == old(self).unsaved_messages,
            final(self).current_offset == old(self).current_offset,
            final(self).current_size_bytes == old(self).current_size_bytes,
            final(self).start_offset == old(self).start_offset,
            final(self).stream_id == old(self).stream_id,
            final(self).topic_id == old(self).topic_id,
            final(self).partition_id == old(self).partition_id,
            final(self).max_size_bytes == old(self).max_size_bytes,
            final(self).spec_count() == old(self).spec_count(),
            final(self).indexes == old(self).indexes,
            final(self).time_indexes == old(self).time_indexes,
            final(self).message_expiry == old(self).message_expiry,
    {
        self.end_offset = self.current_offset;
        self.is_closed = true;
    }
}

/// Where each batch of a well-formed segment begins and ends: bases follow
/// the message run, and every batch ends at or before the current offset.
#[verifier::rlimit(100)]
pub proof fn lemma_all_batch_offsets(s: Segment)
    requires
        s.inv(),
    ensures
        forall|i: int| 0 <= i < s.all_batches().len()
            ==> (#[trigger] s.all_batches()[i]).base_offset == s.start_offset
                + spec_flat_msgs(s.all_batches().subrange(0, i)).len()
                && s.all_batches()[i].last_offset() <= s.current_offset
                && s.all_batches()[i].base_offset >= s.start_offset,
{
    let all = s.all_batches();
    let msgs = s.all_msgs();
    assert forall|i: int| 0 <= i < all.len() implies (#[trigger] all[i]).base_offset
        == s.start_offset + spec_flat_msgs(all.subrange(0, i)).len()
        && all[i].last_offset() <= s.current_offset
        && all[i].base_offset >= s.start_offset by {
        let pre = all.subrange(0, i);
        let cur = all.subrange(0, i + 1);
        let rest = all.subrange(i + 1, all.len() as int);
        assert(all =~= cur + rest);
        lemma_flat_add(cur, rest);
        assert(cur.drop_last() =~= pre);
        assert(cur.last() == all[i]);
        assert(spec_flat_msgs(cur) == spec_flat_msgs(pre) + all[i].messages);
        let p = spec_flat_msgs(pre).len() as int;
        assert(all[i].wf());
        assert(all[i].messages.len() >= 1);
        assert(msgs == spec_flat_msgs(cur) + spec_flat_msgs(rest));
        assert(msgs[p] == all[i].messages[0]);
        assert(all[i].messages[0].offset == all[i].base_offset + 0);
        assert(msgs[p].offset == s.start_offset + p);
        let q = p + all[i].messages.len() - 1;
        assert(msgs[q] == all[i].messages[all[i].messages.len() - 1]);
        assert(all[i].messages[all[i].messages.len() - 1].offset == all[i].base_offset
            + all[i].messages.len() - 1);
        assert(msgs[q].offset == s.start_offset + q);
        assert(q < msgs.len());
        assert(msgs.len() == s.spec_count());
    }
}

/// The flattened run of a well-formed segment splits at the saved batches:
/// the unsaved messages start right after the saved ones.
proof fn lemma_segment_runs(s: Segment)
    requires
        s.inv(),
    ensures
        forall|j: int| 0 <= j < spec_flat_msgs(s.saved@).len()
            ==> (#[trigger] spec_flat_msgs(s.saved@)[j]).offset == s.start_offset + j,
        forall|j: int| 0 <= j < spec_flat_msgs(s.unsaved_views()).len()
            ==> (#[trigger] spec_flat_msgs(s.unsaved_views())[j]).offset == s.start_offset
                + spec_flat_msgs(s.saved@).len() + j,
        s.unsaved_views().len() > 0 ==> s.unsaved_views()[0].base_offset == s.start_offset
            + spec_flat_msgs(s.saved@).len(),
{
    lemma_flat_add(s.saved@, s.unsaved_views());
    let a = spec_flat_msgs(s.saved@);
    let b = spec_flat_msgs(s.unsaved_views());
    let msgs = s.all_msgs();
    assert(msgs == a + b);
    assert forall|j: int| 0 <= j < a.len() implies (#[trigger] a[j]).offset
        == s.start_offset + j by {
        assert(a[j] == msgs[j]);
    }
    assert forall|j: int| 0 <= j < b.len() implies (#[trigger] b[j]).offset
        == s.start_offset + a.len() + j by {
        assert(b[j] == msgs[a.len() + j]);
    }
}

/// Shape of one byte-index entry of a well-formed segment: it names the
/// last relative offset of its batch and the bytes before the batch.
#[verifier::rlimit(100)]
proof fn lemma_entry_facts(s: Segment, i: int)
    requires
        s.inv(),
        s.indexes is Some,
        0 <= i < s.indexes->0@.len(),
    ensures
        s.indexes->0@.len() == s.all_batches().len(),
        s.indexes->0@[i].relative_offset
            == spec_flat_msgs(s.all_batches().subrange(0, i + 1)).len() - 1,
        s.indexes->0@[i].position == spec_batches_size(s.all_batches().subrange(0, i)),
        s.indexes->0@[i].position <= s.current_size_bytes,
        spec_flat_msgs(s.all_batches().subrange(0, i + 1)).len()
            == spec_flat_msgs(s.all_batches().subrange(0, i)).len()
                + s.all_batches()[i].messages.len(),
        s.all_batches()[i].messages.len() >= 1,
        spec_flat_msgs(s.all_batches().subrange(0, i + 1)).len() <= s.spec_count(),
{
    let all = s.all_batches();
    let ix = s.indexes->0@;
    lemma_all_batch_offsets(s);
    lemma_batches_size_prefix(all, i);
    let pre = all.subrange(0, i);
    let cur = all.subrange(0, i + 1);
    assert(cur.drop_last() =~= pre);
    assert(cur.last() == all[i]);
    lemma_flat_add(pre, seq![all[i]]);
    assert(cur =~= pre + seq![all[i]]);
    assert(spec_flat_msgs(seq![all[i]]) =~= all[i].messages) by {
        assert(seq![all[i]].drop_last() =~= Seq::<BatchView>::empty());
        assert(spec_flat_msgs(Seq::<BatchView>::empty()) == Seq::<MsgView>::empty());
        assert(seq![all[i]].last() == all[i]);
    }
    assert(spec_flat_msgs(cur).len() == spec_flat_msgs(pre).len() + all[i].messages.len());
    assert(all[i].wf());
    lemma_flat_prefix_mono(all, i + 1, all.len() as int);
    assert(all.subrange(0, all.len() as int) =~= all);
    assert(all[i].last_offset() == all[i].base_offset + all[i].messages.len() - 1);
    assert(all[i].base_offset == s.start_offset + spec_flat_msgs(pre).len());
    assert(ix[i].relative_offset == (all[i].base_offset + all[i].last_offset_delta
        - s.start_offset) as u32);
    assert(all[i].last_offset_delta == all[i].messages.len() - 1);
}

/// The byte index of a well-formed segment is sorted: relative offsets
/// strictly increase, positions never decrease, and no position passes the
/// segment's size. When entries exist, the last one names the segment's
/// current offset.
pub proof fn lemma_segment_indexes_sorted(s: Segment)
    requires
        s.inv(),
    ensures
        s.indexes is Some ==> indexes_sorted(s.indexes->0@, s.current_size_bytes as int),
        s.indexes is Some && s.indexes->0@.len() > 0 ==> s.indexes->0@.last().relative_offset
            == s.current_offset - s.start_offset,
{
    if s.indexes is Some {
        let all = s.all_batches();
        let ix = s.indexes->0@;
        assert forall|i: int, j: int| 0 <= i < j < ix.len() implies (#[trigger] ix[i])
            .relative_offset < (#[trigger] ix[j]).relative_offset by {
            lemma_entry_facts(s, i);
            lemma_entry_facts(s, j);
            lemma_flat_prefix_mono(all, i + 1, j);
        }
        assert forall|i: int, j: int| 0 <= i < j < ix.len() implies (#[trigger] ix[i]).position
            <= (#[trigger] ix[j]).position by {
            lemma_entry_facts(s, i);
            lemma_entry_facts(s, j);
            lemma_batches_size_range(all, i, j);
        }
        assert forall|i: int| 0 <= i < ix.len() implies (#[trigger] ix[i]).position
            <= s.current_size_bytes by {
            lemma_entry_facts(s, i);
        }
        if ix.len() > 0 {
            let n = ix.len() - 1;
            lemma_entry_facts(s, n);
            assert(all.subrange(0, n + 1) =~= all);
            assert(spec_flat_msgs(all).len() == s.spec_count());
            assert(ix.last() == ix[n]);
        }
    }
}

/// Flattened prefixes only grow.
proof fn lemma_flat_prefix_mono(all: Seq<BatchView>, i: int, j: int)
    requires
        0 <= i <= j <= all.len(),
    ensures
        spec_flat_msgs(all.subrange(0, i)).len() <= spec_flat_msgs(all.subrange(0, j)).len(),
{
    let a = all.subrange(0, i);
    let b = all.subrange(i, j);
    assert(all.subrange(0, j) =~= a + b);
    lemma_flat_add(a, b);
}

/// Batch sizes of a middle run never go negative.
proof fn lemma_batches_size_range(all: Seq<BatchView>, i: int, j: int)
    requires
        0 <= i <= j <= all.len(),
    ensures
        spec_batches_size(all.subrange(0, i)) <= spec_batches_size(all.subrange(0, j)),
{
    let a = all.subrange(0, i);
    let b = all.subrange(i, j);
    assert(all.subrange(0, j) =~= a + b);
    lemma_batches_size_add(a, b);
    crate::storage::lemma_batches_size_nonneg(b);
}

/// The index entries of a concatenation are those of the first part
/// followed by those of the second, whose positions continue where the
/// first part's bytes end.
pub proof fn lemma_index_entries_concat(start_offset: u64, pos: u32, a: Seq<BatchView>,
    b: Seq<BatchView>)
    requires
        pos + spec_batches_size(a) + spec_batches_size(b) <= u32::MAX,
        spec_batches_size(a) >= 0,
    ensures
        spec_index_entries(start_offset, pos, a + b) == spec_index_entries(start_offset, pos, a)
            + spec_index_entries(start_offset, (pos + spec_batches_size(a)) as u32, b),
{
    let whole = spec_index_entries(start_offset, pos, a + b);
    let ea = spec_index_entries(start_offset, pos, a);
    let eb = spec_index_entries(start_offset, (pos + spec_batches_size(a)) as u32, b);
    assert(whole.len() == a.len() + b.len());
    assert forall|i: int| 0 <= i < whole.len() implies whole[i] == (ea + eb)[i] by {
        if i < a.len() {
            assert((a + b)[i] == a[i]);
            assert((a + b).subrange(0, i) =~= a.subrange(0, i));
            assert(whole[i] == Index {
                relative_offset: ((a + b)[i].base_offset + (a + b)[i].last_offset_delta
                    - start_offset) as u32,
                position: (pos + spec_batches_size((a + b).subrange(0, i))) as u32,
            });
            assert((ea + eb)[i] == ea[i]);
        } else {
            let k = i - a.len();
            assert((a + b)[i] == b[k]);
            assert((a + b).subrange(0, i) =~= a + b.subrange(0, k));
            lemma_batches_size_add(a, b.subrange(0, k));
            lemma_batches_size_prefix(b, k);
            crate::storage::lemma_batches_size_nonneg(b.subrange(0, k));
            assert(spec_batches_size(b.subrange(0, k)) <= spec_batches_size(b)) by {
                assert(b.subrange(0, k) =~= b.subrange(0, k));
            }
            assert((ea + eb)[i] == eb[k]);
            assert(whole[i] == Index {
                relative_offset: ((a + b)[i].base_offset + (a + b)[i].last_offset_delta
                    - start_offset) as u32,
                position: (pos + spec_batches_size((a + b).subrange(0, i))) as u32,
            });
            assert(eb[k] == Index {
                relative_offset: (b[k].base_offset + b[k].last_offset_delta
                    - start_offset) as u32,
                position: ((pos + spec_batches_size(a)) as u32
                    + spec_batches_size(b.subrange(0, k))) as u32,
            });
        }
    }
    assert(whole =~= ea + eb);
}

/// The time-index entries of a concatenation are those of the parts.
pub proof fn lemma_time_entries_concat(start_offset: u64, a: Seq<BatchView>, b: Seq<BatchView>)
    ensures
        spec_time_entries(start_offset, a + b) == spec_time_entries(start_offset, a)
            + spec_time_entries(start_offset, b),
{
    let whole = spec_time_entries(start_offset, a + b);
    let ea = spec_time_entries(start_offset, a);
    let eb = spec_time_entries(start_offset, b);
    assert forall|i: int| 0 <= i < whole.len() implies whole[i] == (ea + eb)[i] by {
        if i < a.len() {
            assert((a + b)[i] == a[i]);
        } else {
            assert((a + b)[i] == b[i - a.len()]);
        }
    }
    assert(whole =~= ea + eb);
}


/// The field bounds a well-formed segment guarantees.
pub proof fn lemma_inv_facts(s: Segment)
    requires
        s.inv(),
    ensures
        s.start_offset <= s.current_offset,
        s.current_offset - s.start_offset + 1 <= u32::MAX,
        s.current_size_bytes <= s.max_size_bytes,
        s.is_closed ==> s.end_offset == s.current_offset && s.unsaved_views().len() == 0,
        s.all_msgs().len() == s.spec_count(),
        s.spec_count() == 0 ==> s.current_size_bytes == 0,
{
    if s.spec_count() == 0 {
    }
}

/// A segment with nothing saved is in step with a backend that holds
/// nothing for it.
pub proof fn lemma_synced_fresh<S: SegmentStorage>(s: Segment, storage: &S)
    requires
        s.saved@ == Seq::<BatchView>::empty(),
        storage.seg_batches(s.key()) == Seq::<BatchView>::empty(),
        storage.seg_indexes(s.key()) == Seq::<Index>::empty(),
        storage.seg_time_indexes(s.key()) == Seq::<TimeIndex>::empty(),
    ensures
        s.synced(storage),
{
    assert(spec_index_entries(s.start_offset, 0, s.saved@) =~= Seq::<Index>::empty());
    assert(spec_time_entries(s.start_offset, s.saved@) =~= Seq::<TimeIndex>::empty());
}

/// Being in step depends only on the segment's key and saved run, and on
/// what the backend holds under that key.
pub proof fn lemma_synced_same_key<S: SegmentStorage>(a: Segment, b: Segment, storage: &S)
    requires
        a.synced(storage),
        b.key() == a.key(),
        b.saved == a.saved,
    ensures
        b.synced(storage),
{
    assert(b.start_offset == a.start_offset);
}

/// A backend change that leaves a segment's key untouched leaves the
/// segment in step.
pub proof fn lemma_synced_frame<S: SegmentStorage>(s: Segment, a: &S, b: &S)
    requires
        s.synced(a),
        b.seg_batches(s.key()) == a.seg_batches(s.key()),
        b.seg_indexes(s.key()) == a.seg_indexes(s.key()),
        b.seg_time_indexes(s.key()) == a.seg_time_indexes(s.key()),
    ensures
        s.synced(b),
{
}

} // verus!
