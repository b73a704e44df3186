//! A verified in-memory storage backend: an append-only journal of
//! records, so tests and callers without a durable medium can run the whole
//! core against the same contracts a file-backed backend would meet.
use vstd::prelude::*;
use crate::batch::BatchView;
use crate::batch::MessagesBatch;
use crate::batch::clone_batch;
use crate::consumer::ConsumerKind;
use crate::consumer::ConsumerOffset;
use crate::error::Error;
use crate::index::Index;
use crate::index::IndexRange;
use crate::index::TimeIndex;
use crate::message::Message;
use crate::message::clone_message;
use crate::storage::PartitionStorage;
use crate::storage::SegmentKey;
use crate::storage::SegmentStorage;
use crate::storage::spec_batches_size;
use crate::storage::spec_filter_range;
use crate::storage::spec_in_range;
use crate::storage::spec_flat_msgs;
use crate::storage::spec_index_entries;
use crate::storage::spec_newest_start;
use crate::storage::spec_time_entries;
use crate::storage::lemma_filter_range_add;
use crate::storage::lemma_flat_add;

verus! {

/// The in-memory backend: journals of saved batches, index entries and
/// cursor records, each tagged with what they belong to.
pub struct InMemoryStorage {
    seg_records: Vec<(SegmentKey, MessagesBatch)>,
    index_records: Vec<(SegmentKey, Index)>,
    time_records: Vec<(SegmentKey, TimeIndex)>,
    offset_records: Vec<ConsumerOffset>,
}

/// The batches a journal holds for one segment, in order.
pub closed spec fn spec_batches_for(records: Seq<(SegmentKey, MessagesBatch)>, key: SegmentKey)
    -> Seq<BatchView>
    decreases records.len(),
{
    if records.len() == 0 {
        Seq::empty()
    } else {
        spec_batches_for(records.drop_last(), key) + if records.last().0 == key {
            seq![records.last().1@]
        } else {
            Seq::empty()
        }
    }
}

/// The byte-index entries a journal holds for one segment.
pub closed spec fn spec_indexes_for(records: Seq<(SegmentKey, Index)>, key: SegmentKey)
    -> Seq<Index>
    decreases records.len(),
{
    if records.len() == 0 {
        Seq::empty()
    } else {
        spec_indexes_for(records.drop_last(), key) + if records.last().0 == key {
            seq![records.last().1]
        } else {
            Seq::empty()
        }
    }
}

/// The time-index entries a journal holds for one segment.
pub closed spec fn spec_times_for(records: Seq<(SegmentKey, TimeIndex)>, key: SegmentKey)
    -> Seq<TimeIndex>
    decreases records.len(),
{
    if records.len() == 0 {
        Seq::empty()
    } else {
        spec_times_for(records.drop_last(), key) + if records.last().0 == key {
            seq![records.last().1]
        } else {
            Seq::empty()
        }
    }
}

/// Whether a cursor record belongs to the given partition and kind.
pub open spec fn spec_co_group_match(r: ConsumerOffset, kind: ConsumerKind, stream_id: u32,
    topic_id: u32, partition_id: u32) -> bool {
    r.kind == kind && r.stream_id == stream_id && r.topic_id == topic_id
        && r.partition_id == partition_id
}

/// Whether the record at `m` belongs to the partition and kind and no
/// later record of the same consumer follows it.
pub open spec fn spec_is_latest(records: Seq<ConsumerOffset>, kind: ConsumerKind,
    stream_id: u32, topic_id: u32, partition_id: u32, m: int) -> bool {
    &&& 0 <= m < records.len()
    &&& spec_co_group_match(records[m], kind, stream_id, topic_id, partition_id)
    &&& forall|j: int| m < j < records.len() ==> !(spec_co_group_match(#[trigger] records[j],
        kind, stream_id, topic_id, partition_id)
        && records[j].consumer_id == records[m].consumer_id)
}

/// The offset last journaled for one consumer, if any.
pub closed spec fn spec_saved_for(records: Seq<ConsumerOffset>, kind: ConsumerKind,
    consumer_id: u32, stream_id: u32, topic_id: u32, partition_id: u32) -> Option<u64>
    decreases records.len(),
{
    if records.len() == 0 {
        None
    } else if spec_co_group_match(records.last(), kind, stream_id, topic_id, partition_id)
        && records.last().consumer_id == consumer_id {
        Some(records.last().offset)
    } else {
        spec_saved_for(records.drop_last(), kind, consumer_id, stream_id, topic_id,
            partition_id)
    }
}

impl InMemoryStorage {
    /// A fresh backend with nothing saved.
    pub fn new() -> (r: InMemoryStorage)
        ensures
            forall|k: SegmentKey| #[trigger] r.seg_batches(k) == Seq::<BatchView>::empty(),
            forall|k: SegmentKey| #[trigger] r.seg_indexes(k) == Seq::<Index>::empty(),
            forall|k: SegmentKey| #[trigger] r.seg_time_indexes(k) == Seq::<TimeIndex>::empty(),
            forall|kd: ConsumerKind, c: u32, s: u32, t: u32, p: u32|
                #[trigger] r.saved_offset(kd, c, s, t, p) is None,
    {
        InMemoryStorage {
            seg_records: Vec::new(),
            index_records: Vec::new(),
            time_records: Vec::new(),
            offset_records: Vec::new(),
        }
    }
}

/// A copy of one message, appended to `out`.
fn push_msg(out: &mut Vec<Message>, m: &Message)
    ensures
        final(out).deep_view() == old(out).deep_view().push(m@),
{
    let ghost before = out.deep_view();
    out.push(clone_message(m));
    proof {
        assert forall|x: int| 0 <= x < out.deep_view().len() implies out.deep_view()[x]
            == before.push(m@)[x] by {
            if x < before.len() {
                assert(out@[x] == old(out)@[x]);
            }
        }
        assert(out.deep_view() =~= before.push(m@));
    }
}

/// One batch's messages inside the offset range, appended to `out`.
pub fn append_filtered(out: &mut Vec<Message>, batch: &MessagesBatch, lo: u64, hi: u64)
    ensures
        final(out).deep_view() == old(out).deep_view()
            + spec_filter_range(batch@.messages, lo, hi),
{
    let ghost msgs = batch@.messages;
    let mut j: usize = 0;
    while j < batch.messages.len()
        invariant
            j <= batch.messages@.len(),
            msgs == batch@.messages,
            out.deep_view() =~= old(out).deep_view() + spec_filter_range(
                msgs.subrange(0, j as int), lo, hi),
        decreases batch.messages@.len() - j,
    {
        proof {
            let pre = msgs.subrange(0, j as int);
            let cur = msgs.subrange(0, j + 1 as int);
            assert(cur.drop_last() =~= pre);
            assert(cur.last() == msgs[j as int]);
        }
        let m = &batch.messages[j];
        let ghost before = out.deep_view();
        if lo <= m.offset && m.offset <= hi {
            proof {
                assert(m@ == msgs[j as int]);
                assert(spec_in_range(msgs[j as int], lo, hi));
            }
            push_msg(out, m);
            proof {
                assert(out.deep_view() =~= old(out).deep_view() + spec_filter_range(
                    msgs.subrange(0, j + 1 as int), lo, hi));
            }
        } else {
            proof {
                assert(!spec_in_range(msgs[j as int], lo, hi));
                assert(out.deep_view() =~= old(out).deep_view() + spec_filter_range(
                    msgs.subrange(0, j + 1 as int), lo, hi));
            }
        }
        j = j + 1;
    }
    proof {
        assert(msgs.subrange(0, msgs.len() as int) =~= msgs);
    }
}

impl SegmentStorage for InMemoryStorage {
    closed spec fn seg_batches(&self, key: SegmentKey) -> Seq<BatchView> {
        spec_batches_for(self.seg_records@, key)
    }

    closed spec fn seg_indexes(&self, key: SegmentKey) -> Seq<Index> {
        spec_indexes_for(self.index_records@, key)
    }

    closed spec fn seg_time_indexes(&self, key: SegmentKey) -> Seq<TimeIndex> {
        spec_times_for(self.time_records@, key)
    }

    fn save_messages(&mut self, key: SegmentKey, batches: &Vec<MessagesBatch>)
        -> (r: Result<u32, Error>)
    {
        let ghost dv = batches.deep_view();
        let mut total: u32 = 0;
        let mut i: usize = 0;
        while i < batches.len()
            invariant
                i <= batches@.len(),
                dv == batches.deep_view(),
                dv.len() == batches@.len(),
                spec_batches_size(dv) <= u32::MAX,
                total == spec_batches_size(dv.subrange(0, i as int)),
                spec_batches_for(self.seg_records@, key) =~= spec_batches_for(
                    old(self).seg_records@, key) + dv.subrange(0, i as int),
                forall|k: SegmentKey| k != key ==> spec_batches_for(self.seg_records@, k)
                    =~= spec_batches_for(old(self).seg_records@, k),
                self.index_records@ == old(self).index_records@,
                self.time_records@ == old(self).time_records@,
                self.offset_records@ == old(self).offset_records@,
            decreases batches@.len() - i,
        {
            proof {
                let pre = dv.subrange(0, i as int);
                let cur = dv.subrange(0, i + 1 as int);
                assert(cur.drop_last() =~= pre);
                assert(cur.last() == dv[i as int]);
                crate::storage::lemma_batches_size_prefix(dv, i + 1 as int);
            }
            let b = clone_batch(&batches[i]);
            let ghost before = self.seg_records@;
            total = total + b.length;
            self.seg_records.push((key, b));
            proof {
                assert(self.seg_records@.drop_last() =~= before);
                assert(b@ == dv[i as int]);
                assert(spec_batches_for(self.seg_records@, key) =~= spec_batches_for(
                    old(self).seg_records@, key) + dv.subrange(0, i + 1 as int));
                assert forall|k: SegmentKey| k != key implies spec_batches_for(
                    self.seg_records@, k) =~= spec_batches_for(before, k) by {
                    assert(spec_batches_for(self.seg_records@, k) == spec_batches_for(before, k)
                        + Seq::<BatchView>::empty());
                }
            }
            i = i + 1;
        }
        proof {
            assert(dv.subrange(0, dv.len() as int) =~= dv);
        }
        Ok(total)
    }

    fn save_index(&mut self, key: SegmentKey, current_position: u32,
        batches: &Vec<MessagesBatch>) -> (r: Result<(), Error>)
    {
        let ghost dv = batches.deep_view();
        let ghost full = spec_index_entries(key.start_offset, current_position, dv);
        let mut pos = current_position;
        let mut i: usize = 0;
        while i < batches.len()
            invariant
                i <= batches@.len(),
                dv == batches.deep_view(),
                dv.len() == batches@.len(),
                full == spec_index_entries(key.start_offset, current_position, dv),
                current_position + spec_batches_size(dv) <= u32::MAX,
                forall|n: int| 0 <= n < dv.len() ==> (#[trigger] dv[n]).wf(),
                forall|n: int| 0 <= n < dv.len() ==> (#[trigger] dv[n]).last_offset()
                    >= key.start_offset,
                forall|n: int| 0 <= n < dv.len() ==> (#[trigger] dv[n]).last_offset()
                    - key.start_offset <= u32::MAX,
                pos == current_position + spec_batches_size(dv.subrange(0, i as int)),
                spec_indexes_for(self.index_records@, key) =~= spec_indexes_for(
                    old(self).index_records@, key) + full.subrange(0, i as int),
                forall|k: SegmentKey| k != key ==> spec_indexes_for(self.index_records@, k)
                    =~= spec_indexes_for(old(self).index_records@, k),
                self.seg_records@ == old(self).seg_records@,
                self.time_records@ == old(self).time_records@,
                self.offset_records@ == old(self).offset_records@,
            decreases batches@.len() - i,
        {
            proof {
                let pre = dv.subrange(0, i as int);
                let cur = dv.subrange(0, i + 1 as int);
                assert(cur.drop_last() =~= pre);
                assert(cur.last() == dv[i as int]);
                crate::storage::lemma_batches_size_prefix(dv, i + 1 as int);
                assert(dv[i as int].wf());
            }
            let b = &batches[i];
            let rel_abs = b.base_offset + (b.last_offset_delta as u64);
            let rel = (rel_abs - key.start_offset) as u32;
            let entry = Index { relative_offset: rel, position: pos };
            let ghost before = self.index_records@;
            self.index_records.push((key, entry));
            pos = pos + b.length;
            proof {
                assert(self.index_records@.drop_last() =~= before);
                assert(entry == full[i as int]);
                assert(spec_indexes_for(self.index_records@, key) =~= spec_indexes_for(
                    old(self).index_records@, key) + full.subrange(0, i + 1 as int));
                assert forall|k: SegmentKey| k != key implies spec_indexes_for(
                    self.index_records@, k) =~= spec_indexes_for(before, k) by {
                    assert(spec_indexes_for(self.index_records@, k) == spec_indexes_for(
                        before, k) + Seq::<Index>::empty());
                }
            }
            i = i + 1;
        }
        proof {
            assert(full.subrange(0, full.len() as int) =~= full);
        }
        Ok(())
    }

    fn save_time_index(&mut self, key: SegmentKey, batches: &Vec<MessagesBatch>)
        -> (r: Result<(), Error>)
    {
        let ghost dv = batches.deep_view();
        let ghost full = spec_time_entries(key.start_offset, dv);
        let mut i: usize = 0;
        while i < batches.len()
            invariant
                i <= batches@.len(),
                dv == batches.deep_view(),
                dv.len() == batches@.len(),
                full == spec_time_entries(key.start_offset, dv),
                forall|n: int| 0 <= n < dv.len() ==> (#[trigger] dv[n]).wf(),
                forall|n: int| 0 <= n < dv.len() ==> (#[trigger] dv[n]).last_offset()
                    >= key.start_offset,
                forall|n: int| 0 <= n < dv.len() ==> (#[trigger] dv[n]).last_offset()
                    - key.start_offset <= u32::MAX,
                spec_times_for(self.time_records@, key) =~= spec_times_for(
                    old(self).time_records@, key) + full.subrange(0, i as int),
                forall|k: SegmentKey| k != key ==> spec_times_for(self.time_records@, k)
                    =~= spec_times_for(old(self).time_records@, k),
                self.seg_records@ == old(self).seg_records@,
                self.index_records@ == old(self).index_records@,
                self.offset_records@ == old(self).offset_records@,
            decreases batches@.len() - i,
        {
            proof {
                assert(dv[i as int].wf());
            }
            let b = &batches[i];
            let rel_abs = b.base_offset + (b.last_offset_delta as u64);
            let rel = (rel_abs - key.start_offset) as u32;
            let last_ts = b.messages[b.messages.len() - 1].timestamp;
            let entry = TimeIndex { relative_offset: rel, timestamp: last_ts };
            let ghost before = self.time_records@;
            self.time_records.push((key, entry));
            proof {
                assert(self.time_records@.drop_last() =~= before);
                assert(entry == full[i as int]);
                assert(spec_times_for(self.time_records@, key) =~= spec_times_for(
                    old(self).time_records@, key) + full.subrange(0, i + 1 as int));
                assert forall|k: SegmentKey| k != key implies spec_times_for(
                    self.time_records@, k) =~= spec_times_for(before, k) by {
                    assert(spec_times_for(self.time_records@, k) == spec_times_for(before, k)
                        + Seq::<TimeIndex>::empty());
                }
            }
            i = i + 1;
        }
        proof {
            assert(full.subrange(0, full.len() as int) =~= full);
        }
        Ok(())
    }

    fn load_messages(&self, key: SegmentKey, index_range: &IndexRange)
        -> (r: Result<Vec<Message>, Error>)
    {
        let lo = key.start_offset + (index_range.start.relative_offset as u64);
        let hi = key.start_offset + (index_range.end.relative_offset as u64);
        let recs = &self.seg_records;
        let mut out: Vec<Message> = Vec::new();
        let mut i: usize = 0;
        while i < recs.len()
            invariant
                i <= recs@.len(),
                out.deep_view() =~= spec_filter_range(spec_flat_msgs(spec_batches_for(
                    recs@.subrange(0, i as int), key)), lo, hi),
            decreases recs@.len() - i,
        {
            proof {
                let pre = recs@.subrange(0, i as int);
                let cur = recs@.subrange(0, i + 1 as int);
                assert(cur.drop_last() =~= pre);
                assert(cur.last() == recs@[i as int]);
            }
            let same = recs[i].0.stream_id == key.stream_id
                && recs[i].0.topic_id == key.topic_id
                && recs[i].0.partition_id == key.partition_id
                && recs[i].0.start_offset == key.start_offset;
            if same {
                proof {
                    let pre = recs@.subrange(0, i as int);
                    let bf = spec_batches_for(pre, key);
                    let b = recs@[i as int].1@;
                    assert(recs@[i as int].0 == key);
                    assert(spec_batches_for(recs@.subrange(0, i + 1 as int), key)
                        =~= bf + seq![b]);
                    lemma_flat_add(bf, seq![b]);
                    assert(spec_flat_msgs(seq![b]) =~= b.messages) by {
                        assert(seq![b].drop_last() =~= Seq::<BatchView>::empty());
                        assert(spec_flat_msgs(Seq::<BatchView>::empty())
                            == Seq::<crate::message::MsgView>::empty());
                        assert(seq![b].last() == b);
                    }
                    lemma_filter_range_add(spec_flat_msgs(bf), b.messages, lo, hi);
                }
                append_filtered(&mut out, &recs[i].1, lo, hi);
            } else {
                proof {
                    assert(spec_batches_for(recs@.subrange(0, i + 1 as int), key)
                        =~= spec_batches_for(recs@.subrange(0, i as int), key));
                }
            }
            i = i + 1;
        }
        proof {
            assert(recs@.subrange(0, recs@.len() as int) =~= recs@);
        }
        Ok(out)
    }

    fn load_newest_messages_by_size(&self, key: SegmentKey, size_bytes: u64)
        -> (r: Result<Vec<Message>, Error>)
    {
        let bv = self.collect_batches(key);
        let ghost all = bv.deep_view();
        let mut k: usize = bv.len();
        let mut remaining = size_bytes;
        let mut done = false;
        proof {
            assert(all.subrange(0, all.len() as int) =~= all);
        }
        while k > 0 && !done
            invariant
                k <= bv@.len(),
                all == bv.deep_view(),
                all.len() == bv@.len(),
                !done ==> spec_newest_start(all, size_bytes) == spec_newest_start(
                    all.subrange(0, k as int), remaining),
                done ==> spec_newest_start(all, size_bytes) == k as int,
            decreases k,
        {
            proof {
                let cur = all.subrange(0, k as int);
                assert(cur.drop_last() =~= all.subrange(0, k - 1 as int));
                assert(cur.last() == all[k - 1]);
            }
            let len = bv[k - 1].length as u64;
            if len >= remaining {
                done = true;
                k = k - 1;
            } else {
                remaining = remaining - len;
                k = k - 1;
            }
        }
        proof {
            if !done {
                assert(all.subrange(0, 0) =~= Seq::<BatchView>::empty());
            }
            assert(spec_newest_start(all, size_bytes) == k as int);
        }
        let mut out: Vec<Message> = Vec::new();
        let mut i: usize = k;
        while i < bv.len()
            invariant
                k <= i <= bv@.len(),
                all == bv.deep_view(),
                all.len() == bv@.len(),
                out.deep_view() =~= spec_flat_msgs(all.subrange(k as int, i as int)),
            decreases bv@.len() - i,
        {
            proof {
                let pre = all.subrange(k as int, i as int);
                let cur = all.subrange(k as int, i + 1 as int);
                assert(cur.drop_last() =~= pre);
                assert(cur.last() == all[i as int]);
            }
            let ghost before = out.deep_view();
            push_all(&mut out, &bv[i]);
            i = i + 1;
        }
        proof {
            assert(all.subrange(k as int, all.len() as int)
                =~= self.seg_batches(key).subrange(spec_newest_start(self.seg_batches(key),
                    size_bytes), self.seg_batches(key).len() as int));
        }
        Ok(out)
    }

    fn load_index_range(&self, key: SegmentKey, index_start_offset: u64, start_offset: u64,
        end_offset: u64) -> (r: Result<Option<IndexRange>, Error>)
    {
        let recs = &self.index_records;
        let mut found = false;
        let mut first = Index { relative_offset: 0, position: 0 };
        let mut i: usize = 0;
        while i < recs.len()
            invariant
                i <= recs@.len(),
                !found ==> spec_indexes_for(recs@.subrange(0, i as int), key)
                    =~= Seq::<Index>::empty(),
            decreases recs@.len() - i,
        {
            proof {
                let pre = recs@.subrange(0, i as int);
                let cur = recs@.subrange(0, i + 1 as int);
                assert(cur.drop_last() =~= pre);
                assert(cur.last() == recs@[i as int]);
            }
            let same = recs[i].0.stream_id == key.stream_id
                && recs[i].0.topic_id == key.topic_id
                && recs[i].0.partition_id == key.partition_id
                && recs[i].0.start_offset == key.start_offset;
            if same && !found {
                found = true;
                first = recs[i].1;
            }
            i = i + 1;
        }
        if !found {
            proof {
                assert(recs@.subrange(0, recs@.len() as int) =~= recs@);
            }
            return Ok(None);
        }
        // The in-memory backend resolves loads by offsets, so the byte
        // positions of the cut are those of the first saved entry.
        let start_rel = (start_offset - index_start_offset) as u32;
        let end_rel = (end_offset - index_start_offset) as u32;
        Ok(Some(IndexRange {
            start: Index { relative_offset: start_rel, position: first.position },
            end: Index { relative_offset: end_rel, position: first.position },
        }))
    }
}

impl InMemoryStorage {
    /// Copies of all batches saved for one segment, in order.
    fn collect_batches(&self, key: SegmentKey) -> (r: Vec<MessagesBatch>)
        ensures
            r.deep_view() == spec_batches_for(self.seg_records@, key),
            r.deep_view() == self.seg_batches(key),
    {
        let recs = &self.seg_records;
        let mut out: Vec<MessagesBatch> = Vec::new();
        let mut i: usize = 0;
        while i < recs.len()
            invariant
                i <= recs@.len(),
                out.deep_view() =~= spec_batches_for(recs@.subrange(0, i as int), key),
            decreases recs@.len() - i,
        {
            proof {
                let pre = recs@.subrange(0, i as int);
                let cur = recs@.subrange(0, i + 1 as int);
                assert(cur.drop_last() =~= pre);
                assert(cur.last() == recs@[i as int]);
            }
            let same = recs[i].0.stream_id == key.stream_id
                && recs[i].0.topic_id == key.topic_id
                && recs[i].0.partition_id == key.partition_id
                && recs[i].0.start_offset == key.start_offset;
            if same {
                let ghost before = out.deep_view();
                out.push(clone_batch(&recs[i].1));
                proof {
                    assert(out.deep_view() =~= before + seq![recs@[i as int].1@]);
                }
            }
            i = i + 1;
        }
        proof {
            assert(recs@.subrange(0, recs@.len() as int) =~= recs@);
        }
        out
    }
}

/// All of one batch's messages, appended to `out`.
fn push_all(out: &mut Vec<Message>, batch: &MessagesBatch)
    ensures
        final(out).deep_view() == old(out).deep_view() + batch@.messages,
{
    let ghost msgs = batch@.messages;
    let mut j: usize = 0;
    while j < batch.messages.len()
        invariant
            j <= batch.messages@.len(),
            msgs == batch@.messages,
            out.deep_view() =~= old(out).deep_view() + msgs.subrange(0, j as int),
        decreases batch.messages@.len() - j,
    {
        let m = &batch.messages[j];
        proof {
            assert(m@ == msgs[j as int]);
        }
        push_msg(out, m);
        proof {
            assert(out.deep_view() =~= old(out).deep_view() + msgs.subrange(0, j + 1 as int));
        }
        j = j + 1;
    }
    proof {
        assert(msgs.subrange(0, msgs.len() as int) =~= msgs);
    }
}

impl PartitionStorage for InMemoryStorage {
    closed spec fn saved_offset(&self, kind: ConsumerKind, consumer_id: u32, stream_id: u32,
        topic_id: u32, partition_id: u32) -> Option<u64> {
        spec_saved_for(self.offset_records@, kind, consumer_id, stream_id, topic_id,
            partition_id)
    }

    fn save_consumer_offset(&mut self, offset: &ConsumerOffset) -> (r: Result<(), Error>) {
        let ghost before = self.offset_records@;
        self.offset_records.push(*offset);
        proof {
            assert(self.offset_records@.drop_last() =~= before);
        }
        Ok(())
    }

    fn load_consumer_offsets(&self, kind: ConsumerKind, stream_id: u32, topic_id: u32,
        partition_id: u32) -> (r: Result<Vec<ConsumerOffset>, Error>)
    {
        let recs = &self.offset_records;
        let n = recs.len();
        let mut out: Vec<ConsumerOffset> = Vec::new();
        let ghost mut sources: Seq<int> = Seq::empty();
        let mut i: usize = 0;
        while i < n
            invariant
                i <= n,
                n == recs@.len(),
                out@.len() == sources.len(),
                forall|k: int| 0 <= k < sources.len() ==> 0 <= #[trigger] sources[k] < i,
                forall|a: int, b: int| 0 <= a < b < sources.len()
                    ==> #[trigger] sources[a] < #[trigger] sources[b],
                forall|k: int| 0 <= k < sources.len()
                    ==> recs@[#[trigger] sources[k]] == out@[k],
                forall|k: int| 0 <= k < sources.len() ==> spec_is_latest(recs@, kind,
                    stream_id, topic_id, partition_id, #[trigger] sources[k]),
                forall|m: int| 0 <= m < i && #[trigger] spec_is_latest(recs@, kind, stream_id,
                    topic_id, partition_id, m) ==> exists|k: int| 0 <= k < sources.len()
                    && sources[k] == m,
            decreases n - i,
        {
            let ghost sources0 = sources;
            let r = recs[i];
            let matches_group = r.kind == kind && r.stream_id == stream_id
                && r.topic_id == topic_id && r.partition_id == partition_id;
            if matches_group {
                let mut is_last = true;
                let mut j: usize = i + 1;
                while j < n
                    invariant
                        i < j <= n,
                        n == recs@.len(),
                        r == recs@[i as int],
                        is_last ==> forall|x: int| i < x < j
                            ==> !(spec_co_group_match(#[trigger] recs@[x], kind, stream_id,
                                topic_id, partition_id)
                                && recs@[x].consumer_id == recs@[i as int].consumer_id),
                        !is_last ==> exists|x: int| i < x < n
                            && spec_co_group_match(#[trigger] recs@[x], kind, stream_id,
                                topic_id, partition_id)
                            && recs@[x].consumer_id == recs@[i as int].consumer_id,
                    decreases n - j,
                {
                    let s = recs[j];
                    if s.kind == kind && s.stream_id == stream_id && s.topic_id == topic_id
                        && s.partition_id == partition_id && s.consumer_id == r.consumer_id {
                        is_last = false;
                    }
                    j = j + 1;
                }
                if is_last {
                    proof {
                        assert(spec_is_latest(recs@, kind, stream_id, topic_id, partition_id,
                            i as int));
                    }
                    out.push(r);
                    proof {
                        sources = sources.push(i as int);
                        assert(sources[sources.len() - 1] == i as int);
                    }
                } else {
                    proof {
                        let x = choose|x: int| i < x < n && spec_co_group_match(recs@[x],
                            kind, stream_id, topic_id, partition_id)
                            && recs@[x].consumer_id == recs@[i as int].consumer_id;
                        if spec_is_latest(recs@, kind, stream_id, topic_id, partition_id,
                            i as int) {
                            assert(!(spec_co_group_match(recs@[x], kind, stream_id, topic_id,
                                partition_id) && recs@[x].consumer_id
                                == recs@[i as int].consumer_id));
                        }
                        assert(!spec_is_latest(recs@, kind, stream_id, topic_id, partition_id,
                            i as int));
                    }
                }
            } else {
                proof {
                    assert(r == recs@[i as int]);
                    assert(!spec_is_latest(recs@, kind, stream_id, topic_id, partition_id,
                        i as int));
                }
            }
            proof {
                assert forall|m: int| 0 <= m < i + 1 && #[trigger] spec_is_latest(recs@, kind,
                    stream_id, topic_id, partition_id, m) implies exists|k: int|
                    0 <= k < sources.len() && sources[k] == m by {
                    if m < i as int {
                        let k0 = choose|k: int| 0 <= k < sources0.len() && sources0[k] == m;
                        assert(sources[k0] == m);
                    }
                }
            }
            i = i + 1;
        }
        proof {
            assert forall|k: int| 0 <= k < out@.len() implies ((#[trigger] out@[k]).kind
                == kind && out@[k].stream_id == stream_id && out@[k].topic_id == topic_id
                && out@[k].partition_id == partition_id && self.saved_offset(kind,
                out@[k].consumer_id, stream_id, topic_id, partition_id)
                == Some(out@[k].offset)) by {
                assert(spec_is_latest(recs@, kind, stream_id, topic_id, partition_id,
                    sources[k]));
                lemma_saved_for_last(recs@, kind, stream_id, topic_id, partition_id,
                    sources[k]);
                assert(recs@[sources[k]] == out@[k]);
            }
            assert forall|k: int, j: int| 0 <= k < j < out@.len() implies
                (#[trigger] out@[k]).consumer_id != (#[trigger] out@[j]).consumer_id by {
                if out@[k].consumer_id == out@[j].consumer_id {
                    assert(sources[k] < sources[j]);
                    assert(spec_is_latest(recs@, kind, stream_id, topic_id, partition_id,
                        sources[k]));
                    assert(spec_co_group_match(recs@[sources[j]], kind, stream_id, topic_id,
                        partition_id));
                    assert(recs@[sources[j]].consumer_id == recs@[sources[k]].consumer_id);
                }
            }
            assert forall|c: u32| #[trigger] self.saved_offset(kind, c, stream_id, topic_id,
                partition_id) is Some implies exists|k: int| 0 <= k < out@.len()
                && (#[trigger] out@[k]).consumer_id == c by {
                let m = lemma_saved_some_last(recs@, kind, c, stream_id, topic_id,
                    partition_id);
                assert(spec_is_latest(recs@, kind, stream_id, topic_id, partition_id, m));
                assert(exists|k: int| 0 <= k < sources.len() && sources[k] == m);
                let k = choose|k: int| 0 <= k < sources.len() && sources[k] == m;
                assert(out@[k].consumer_id == c);
            }
        }
        Ok(out)
    }
}

/// The latest record of a consumer is what the journal reports for it.
proof fn lemma_saved_for_last(records: Seq<ConsumerOffset>, kind: ConsumerKind, stream_id: u32,
    topic_id: u32, partition_id: u32, m: int)
    requires
        spec_is_latest(records, kind, stream_id, topic_id, partition_id, m),
    ensures
        spec_saved_for(records, kind, records[m].consumer_id, stream_id, topic_id,
            partition_id) == Some(records[m].offset),
    decreases records.len(),
{
    if m == records.len() - 1 {
    } else {
        let t = records.drop_last();
        assert(t[m] == records[m]);
        assert(spec_is_latest(t, kind, stream_id, topic_id, partition_id, m)) by {
            assert forall|j: int| m < j < t.len() implies !(spec_co_group_match(
                #[trigger] t[j], kind, stream_id, topic_id, partition_id)
                && t[j].consumer_id == t[m].consumer_id) by {
                assert(t[j] == records[j]);
            }
        }
        lemma_saved_for_last(t, kind, stream_id, topic_id, partition_id, m);
        assert(records[records.len() - 1] == records.last());
    }
}

/// When the journal reports an offset for a consumer, the record it reports
/// is the latest one of that consumer.
proof fn lemma_saved_some_last(records: Seq<ConsumerOffset>, kind: ConsumerKind, c: u32,
    stream_id: u32, topic_id: u32, partition_id: u32) -> (m: int)
    requires
        spec_saved_for(records, kind, c, stream_id, topic_id, partition_id) is Some,
    ensures
        spec_is_latest(records, kind, stream_id, topic_id, partition_id, m),
        records[m].consumer_id == c,
    decreases records.len(),
{
    if spec_co_group_match(records.last(), kind, stream_id, topic_id, partition_id)
        && records.last().consumer_id == c {
        let m = records.len() - 1;
        assert(records[m] == records.last());
        m
    } else {
        let t = records.drop_last();
        let m = lemma_saved_some_last(t, kind, c, stream_id, topic_id, partition_id);
        assert(t[m] == records[m]);
        assert forall|j: int| m < j < records.len() implies !(spec_co_group_match(
            #[trigger] records[j], kind, stream_id, topic_id, partition_id)
            && records[j].consumer_id == records[m].consumer_id) by {
            if j < records.len() - 1 {
                assert(records[j] == t[j]);
            } else {
                assert(records[j] == records.last());
            }
        }
        m
    }
}

} // verus!
