//! The storage abstraction: the capability set segments and partitions
//! need from a backend, stated over views so that any implementation can
//! substitute — the crate ships a verified in-memory one, a file-backed one
//! stands outside.
use vstd::prelude::*;
use crate::batch::BatchView;
use crate::batch::MessagesBatch;
use crate::consumer::ConsumerKind;
use crate::consumer::ConsumerOffset;
use crate::error::Error;
use crate::index::Index;
use crate::index::IndexRange;
use crate::index::TimeIndex;
use crate::message::Message;
use crate::message::MsgView;

verus! {

/// What identifies a segment towards the storage: its partition and its
/// start offset.
#[derive(Clone, Copy, Debug, PartialEq, Eq, Structural)]
pub struct SegmentKey {
    pub stream_id: u32,
    pub topic_id: u32,
    pub partition_id: u32,
    pub start_offset: u64,
}

/// All messages of a run of batches, in order.
pub open spec fn spec_flat_msgs(batches: Seq<BatchView>) -> Seq<MsgView>
    decreases batches.len(),
{
    if batches.len() == 0 {
        Seq::empty()
    } else {
        spec_flat_msgs(batches.drop_last()) + batches.last().messages
    }
}

/// Total wire size of a run of batches, framing included.
pub open spec fn spec_batches_size(batches: Seq<BatchView>) -> int
    decreases batches.len(),
{
    if batches.len() == 0 {
        0
    } else {
        spec_batches_size(batches.drop_last()) + batches.last().length
    }
}

pub open spec fn spec_in_range(m: MsgView, lo: u64, hi: u64) -> bool {
    lo <= m.offset <= hi
}

/// The messages with offsets inside the inclusive range, order kept.
pub open spec fn spec_filter_range(msgs: Seq<MsgView>, lo: u64, hi: u64) -> Seq<MsgView>
    decreases msgs.len(),
{
    if msgs.len() == 0 {
        Seq::empty()
    } else {
        spec_filter_range(msgs.drop_last(), lo, hi) + if spec_in_range(msgs.last(), lo, hi) {
            seq![msgs.last()]
        } else {
            Seq::empty()
        }
    }
}

/// The byte-index entries one per batch: each batch indexed at its last
/// relative offset, at the byte position where it begins.
pub open spec fn spec_index_entries(start_offset: u64, pos: u32, batches: Seq<BatchView>)
    -> Seq<Index> {
    Seq::new(batches.len(), |i: int| Index {
        relative_offset: (batches[i].base_offset + batches[i].last_offset_delta
            - start_offset) as u32,
        position: (pos + spec_batches_size(batches.subrange(0, i))) as u32,
    })
}

/// The time-index entries one per batch: each batch stamped with its last
/// message's timestamp.
pub open spec fn spec_time_entries(start_offset: u64, batches: Seq<BatchView>)
    -> Seq<TimeIndex> {
    Seq::new(batches.len(), |i: int| TimeIndex {
        relative_offset: (batches[i].base_offset + batches[i].last_offset_delta
            - start_offset) as u32,
        timestamp: batches[i].messages.last().timestamp,
    })
}

/// Start of the shortest batch suffix whose cumulative size reaches
/// `size_bytes`, or zero when the whole run stays below it.
pub open spec fn spec_newest_start(batches: Seq<BatchView>, size_bytes: u64) -> int
    decreases batches.len(),
{
    if batches.len() == 0 {
        0
    } else if batches.last().length >= size_bytes {
        batches.len() - 1
    } else {
        spec_newest_start(batches.drop_last(), (size_bytes - batches.last().length) as u64)
    }
}

pub proof fn lemma_flat_add(a: Seq<BatchView>, b: Seq<BatchView>)
    ensures
        spec_flat_msgs(a + b) == spec_flat_msgs(a) + spec_flat_msgs(b),
    decreases b.len(),
{
    if b.len() == 0 {
        assert(a + b =~= a);
        assert(spec_flat_msgs(a) + spec_flat_msgs(b) =~= spec_flat_msgs(a));
    } else {
        lemma_flat_add(a, b.drop_last());
        assert((a + b).drop_last() =~= a + b.drop_last());
        assert((a + b).last() == b.last());
        assert(spec_flat_msgs(a + b) =~= spec_flat_msgs(a) + spec_flat_msgs(b));
    }
}

pub proof fn lemma_batches_size_add(a: Seq<BatchView>, b: Seq<BatchView>)
    ensures
        spec_batches_size(a + b) == spec_batches_size(a) + spec_batches_size(b),
    decreases b.len(),
{
    if b.len() == 0 {
        assert(a + b =~= a);
    } else {
        lemma_batches_size_add(a, b.drop_last());
        assert((a + b).drop_last() =~= a + b.drop_last());
        assert((a + b).last() == b.last());
    }
}

pub proof fn lemma_batches_size_nonneg(batches: Seq<BatchView>)
    ensures
        spec_batches_size(batches) >= 0,
    decreases batches.len(),
{
    if batches.len() > 0 {
        lemma_batches_size_nonneg(batches.drop_last());
    }
}

/// Batch sizes never go negative, and a prefix never outweighs the whole.
pub proof fn lemma_batches_size_prefix(batches: Seq<BatchView>, i: int)
    requires
        0 <= i <= batches.len(),
    ensures
        0 <= spec_batches_size(batches.subrange(0, i)),
        spec_batches_size(batches.subrange(0, i)) <= spec_batches_size(batches),
    decreases batches.len(),
{
    if i == batches.len() {
        assert(batches.subrange(0, i) =~= batches);
        if batches.len() > 0 {
            lemma_batches_size_prefix(batches.drop_last(), i - 1);
            assert(batches.drop_last().subrange(0, i - 1) =~= batches.drop_last());
        }
    } else {
        let t = batches.drop_last();
        assert(batches.subrange(0, i) =~= t.subrange(0, i));
        lemma_batches_size_prefix(t, i);
    }
}

pub proof fn lemma_filter_range_add(a: Seq<MsgView>, b: Seq<MsgView>, lo: u64, hi: u64)
    ensures
        spec_filter_range(a + b, lo, hi) == spec_filter_range(a, lo, hi)
            + spec_filter_range(b, lo, hi),
    decreases b.len(),
{
    if b.len() == 0 {
        assert(a + b =~= a);
        assert(spec_filter_range(a, lo, hi) + spec_filter_range(b, lo, hi)
            =~= spec_filter_range(a, lo, hi));
    } else {
        lemma_filter_range_add(a, b.drop_last(), lo, hi);
        assert((a + b).drop_last() =~= a + b.drop_last());
        assert((a + b).last() == b.last());
        assert(spec_filter_range(a + b, lo, hi) =~= spec_filter_range(a, lo, hi)
            + spec_filter_range(b, lo, hi));
    }
}

/// On a run of contiguous offsets starting at `first`, filtering by an
/// offset range cuts a subrange.
pub proof fn lemma_filter_contiguous(msgs: Seq<MsgView>, first: int, lo: u64, hi: u64)
    requires
        forall|j: int| 0 <= j < msgs.len() ==> (#[trigger] msgs[j]).offset == first + j,
    ensures
        spec_filter_range(msgs, lo, hi) == ({
            let a = if lo <= first { 0 } else { lo - first };
            let b = if hi + 1 - first >= msgs.len() { msgs.len() as int } else { hi + 1 - first };
            if a >= b { Seq::<MsgView>::empty() } else { msgs.subrange(a, b) }
        }),
    decreases msgs.len(),
{
    let a = if lo <= first { 0int } else { lo - first };
    let b = if hi + 1 - first >= msgs.len() { msgs.len() as int } else { hi + 1 - first };
    if msgs.len() == 0 {
    } else {
        let t = msgs.drop_last();
        lemma_filter_contiguous(t, first, lo, hi);
        let ta = if lo <= first { 0int } else { lo - first };
        let tb = if hi + 1 - first >= t.len() { t.len() as int } else { hi + 1 - first };
        let last = msgs.last();
        assert(last.offset == first + msgs.len() - 1);
        if spec_in_range(last, lo, hi) {
            assert(b == msgs.len());
            assert(tb == t.len());
            if ta >= tb {
                assert(a == msgs.len() - 1);
                assert(spec_filter_range(msgs, lo, hi) =~= msgs.subrange(a, b));
            } else {
                assert(spec_filter_range(msgs, lo, hi) =~= msgs.subrange(a, b));
            }
        } else {
            if a >= b {
                assert(spec_filter_range(msgs, lo, hi) =~= Seq::<MsgView>::empty());
            } else {
                assert(spec_filter_range(msgs, lo, hi) =~= msgs.subrange(a, b));
            }
        }
    }
}

/// What a backend offers a segment: durable batches, a byte index and a
/// time index per segment key.
pub trait SegmentStorage: Sized {
    /// The batches saved for a segment, in the order they were saved.
    spec fn seg_batches(&self, key: SegmentKey) -> Seq<BatchView>;

    /// The byte-index entries saved for a segment.
    spec fn seg_indexes(&self, key: SegmentKey) -> Seq<Index>;

    /// The time-index entries saved for a segment.
    spec fn seg_time_indexes(&self, key: SegmentKey) -> Seq<TimeIndex>;

    /// Append the batches to the segment's log and report how many bytes
    /// that wrote.
    fn save_messages(&mut self, key: SegmentKey, batches: &Vec<MessagesBatch>)
        -> (r: Result<u32, Error>)
        requires
            spec_batches_size(batches.deep_view()) <= u32::MAX,
        ensures
            r is Ok ==> r->Ok_0 == spec_batches_size(batches.deep_view())
                && final(self).seg_batches(key) == old(self).seg_batches(key) + batches.deep_view(),
            r is Err ==> final(self).seg_batches(key) == old(self).seg_batches(key),
            forall|k: SegmentKey| k != key ==> #[trigger] final(self).seg_batches(k)
                == old(self).seg_batches(k),
            forall|k: SegmentKey| #[trigger] final(self).seg_indexes(k) == old(self).seg_indexes(k),
            forall|k: SegmentKey| #[trigger] final(self).seg_time_indexes(k)
                == old(self).seg_time_indexes(k),
    ;

    /// Append the byte-index entries for the batches, the first of which
    /// begins at `current_position` in the log.
    fn save_index(&mut self, key: SegmentKey, current_position: u32,
        batches: &Vec<MessagesBatch>) -> (r: Result<(), Error>)
        requires
            current_position + spec_batches_size(batches.deep_view()) <= u32::MAX,
            forall|i: int| 0 <= i < batches.deep_view().len()
                ==> (#[trigger] batches.deep_view()[i]).wf(),
            forall|i: int| 0 <= i < batches.deep_view().len()
                ==> (#[trigger] batches.deep_view()[i]).last_offset() >= key.start_offset,
            forall|i: int| 0 <= i < batches.deep_view().len()
                ==> (#[trigger] batches.deep_view()[i]).last_offset() - key.start_offset
                    <= u32::MAX,
        ensures
            r is Ok ==> final(self).seg_indexes(key) == old(self).seg_indexes(key)
                + spec_index_entries(key.start_offset, current_position, batches.deep_view()),
            r is Err ==> final(self).seg_indexes(key) == old(self).seg_indexes(key),
            forall|k: SegmentKey| k != key ==> #[trigger] final(self).seg_indexes(k)
                == old(self).seg_indexes(k),
            forall|k: SegmentKey| #[trigger] final(self).seg_batches(k) == old(self).seg_batches(k),
            forall|k: SegmentKey| #[trigger] final(self).seg_time_indexes(k)
                == old(self).seg_time_indexes(k),
    ;

    /// Append the time-index entries for the batches.
    fn save_time_index(&mut self, key: SegmentKey, batches: &Vec<MessagesBatch>)
        -> (r: Result<(), Error>)
        requires
            forall|i: int| 0 <= i < batches.deep_view().len()
                ==> (#[trigger] batches.deep_view()[i]).wf(),
            forall|i: int| 0 <= i < batches.deep_view().len()
                ==> (#[trigger] batches.deep_view()[i]).last_offset() >= key.start_offset,
            forall|i: int| 0 <= i < batches.deep_view().len()
                ==> (#[trigger] batches.deep_view()[i]).last_offset() - key.start_offset
                    <= u32::MAX,
        ensures
            r is Ok ==> final(self).seg_time_indexes(key) == old(self).seg_time_indexes(key)
                + spec_time_entries(key.start_offset, batches.deep_view()),
            r is Err ==> final(self).seg_time_indexes(key) == old(self).seg_time_indexes(key),
            forall|k: SegmentKey| k != key ==> #[trigger] final(self).seg_time_indexes(k)
                == old(self).seg_time_indexes(k),
            forall|k: SegmentKey| #[trigger] final(self).seg_batches(k) == old(self).seg_batches(k),
            forall|k: SegmentKey| #[trigger] final(self).seg_indexes(k) == old(self).seg_indexes(k),
    ;

    /// The saved messages inside the offset range the index range names,
    /// relative to the segment's start offset.
    fn load_messages(&self, key: SegmentKey, index_range: &IndexRange)
        -> (r: Result<Vec<Message>, Error>)
        requires
            key.start_offset + index_range.start.relative_offset <= u64::MAX,
            key.start_offset + index_range.end.relative_offset <= u64::MAX,
        ensures
            r is Ok ==> r->Ok_0.deep_view() == spec_filter_range(
                spec_flat_msgs(self.seg_batches(key)),
                (key.start_offset + index_range.start.relative_offset) as u64,
                (key.start_offset + index_range.end.relative_offset) as u64,
            ),
    ;

    /// The messages of the shortest saved suffix whose cumulative size
    /// reaches `size_bytes`; everything saved when the whole log stays
    /// below it.
    fn load_newest_messages_by_size(&self, key: SegmentKey, size_bytes: u64)
        -> (r: Result<Vec<Message>, Error>)
        ensures
            r is Ok ==> r->Ok_0.deep_view() == spec_flat_msgs(self.seg_batches(key).subrange(
                spec_newest_start(self.seg_batches(key), size_bytes),
                self.seg_batches(key).len() as int,
            )),
    ;

    /// Cut an index range for the offsets from the saved byte index; there
    /// is none when the saved index is empty.
    fn load_index_range(&self, key: SegmentKey, index_start_offset: u64, start_offset: u64,
        end_offset: u64) -> (r: Result<Option<IndexRange>, Error>)
        requires
            index_start_offset <= start_offset <= end_offset,
            end_offset - index_start_offset <= u32::MAX,
        ensures
            r is Ok && r->Ok_0 is Some ==> {
                let range = r->Ok_0->0;
                range.start.relative_offset == start_offset - index_start_offset
                    && range.end.relative_offset == end_offset - index_start_offset
            },
            r is Ok && r->Ok_0 is None ==> self.seg_indexes(key).len() == 0,
    ;
}

/// What a backend offers a partition: durable consumer cursors.
pub trait PartitionStorage: Sized {
    /// The cursor last saved under the full key, if any.
    spec fn saved_offset(&self, kind: ConsumerKind, consumer_id: u32, stream_id: u32,
        topic_id: u32, partition_id: u32) -> Option<u64>;

    /// Persist one cursor record.
    fn save_consumer_offset(&mut self, offset: &ConsumerOffset) -> (r: Result<(), Error>)
        ensures
            r is Ok ==> final(self).saved_offset(offset.kind, offset.consumer_id, offset.stream_id,
                offset.topic_id, offset.partition_id) == Some(offset.offset),
            r is Err ==> final(self).saved_offset(offset.kind, offset.consumer_id, offset.stream_id,
                offset.topic_id, offset.partition_id) == old(self).saved_offset(offset.kind,
                offset.consumer_id, offset.stream_id, offset.topic_id, offset.partition_id),
            forall|kd: ConsumerKind, c: u32, s: u32, t: u32, p: u32|
                !(kd == offset.kind && c == offset.consumer_id && s == offset.stream_id
                    && t == offset.topic_id && p == offset.partition_id)
                    ==> #[trigger] final(self).saved_offset(kd, c, s, t, p)
                        == old(self).saved_offset(kd, c, s, t, p),
    ;

    /// All cursors of one kind saved for a partition: one record per
    /// consumer, each carrying the offset last saved for it.
    fn load_consumer_offsets(&self, kind: ConsumerKind, stream_id: u32, topic_id: u32,
        partition_id: u32) -> (r: Result<Vec<ConsumerOffset>, Error>)
        ensures
            r is Ok ==> {
                let recs = r->Ok_0@;
                (forall|i: int| 0 <= i < recs.len() ==> (#[trigger] recs[i]).kind == kind
                    && recs[i].stream_id == stream_id && recs[i].topic_id == topic_id
                    && recs[i].partition_id == partition_id
                    && self.saved_offset(kind, recs[i].consumer_id, stream_id, topic_id,
                        partition_id) == Some(recs[i].offset))
                && (forall|i: int, j: int| 0 <= i < j < recs.len()
                    ==> (#[trigger] recs[i]).consumer_id != (#[trigger] recs[j]).consumer_id)
                && (forall|c: u32| #[trigger] self.saved_offset(kind, c, stream_id, topic_id,
                    partition_id) is Some ==> exists|i: int| 0 <= i < recs.len()
                        && (#[trigger] recs[i]).consumer_id == c)
            },
    ;
}

} // verus!
