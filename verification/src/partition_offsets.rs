//! A partition's consumer-cursor store: the two maps from consumer id to
//! stored offset, validated against the partition's current offset and
//! persisted through the partition storage.
use vstd::prelude::*;
use std::collections::HashMap;
use crate::consumer::ConsumerKind;
use crate::consumer::ConsumerOffset;
use crate::consumer::PollingConsumer;
use crate::error::Error;
use crate::storage::PartitionStorage;

verus! {

broadcast use vstd::std_specs::hash::group_hash_axioms;

/// The kind a polling consumer stores under.
pub open spec fn spec_consumer_kind(consumer: PollingConsumer) -> ConsumerKind {
    match consumer {
        PollingConsumer::Consumer(_, _) => ConsumerKind::Consumer,
        PollingConsumer::ConsumerGroup(_, _) => ConsumerKind::ConsumerGroup,
    }
}

/// The id a polling consumer stores under.
pub open spec fn spec_consumer_id(consumer: PollingConsumer) -> u32 {
    match consumer {
        PollingConsumer::Consumer(id, _) => id,
        PollingConsumer::ConsumerGroup(id, _) => id,
    }
}

/// The progress cursors of one partition: individual consumers and
/// consumer groups, each keyed by id.
pub struct PartitionOffsets {
    pub stream_id: u32,
    pub topic_id: u32,
    pub partition_id: u32,
    /// Offset of the last message the partition accepted.
    pub current_offset: u64,
    pub consumer_offsets: HashMap<u32, ConsumerOffset>,
    pub consumer_group_offsets: HashMap<u32, ConsumerOffset>,
}

impl PartitionOffsets {
    /// Every stored cursor sits at or below the current offset and names
    /// this partition, its own id and its kind.
    pub open spec fn wf(self) -> bool {
        &&& (forall|c: u32| self.consumer_offsets@.contains_key(c)
            ==> (#[trigger] self.consumer_offsets@[c]).offset <= self.current_offset
                && self.consumer_offsets@[c].kind == ConsumerKind::Consumer
                && self.consumer_offsets@[c].consumer_id == c
                && self.consumer_offsets@[c].stream_id == self.stream_id
                && self.consumer_offsets@[c].topic_id == self.topic_id
                && self.consumer_offsets@[c].partition_id == self.partition_id)
        &&& (forall|c: u32| self.consumer_group_offsets@.contains_key(c)
            ==> (#[trigger] self.consumer_group_offsets@[c]).offset <= self.current_offset
                && self.consumer_group_offsets@[c].kind == ConsumerKind::ConsumerGroup
                && self.consumer_group_offsets@[c].consumer_id == c
                && self.consumer_group_offsets@[c].stream_id == self.stream_id
                && self.consumer_group_offsets@[c].topic_id == self.topic_id
                && self.consumer_group_offsets@[c].partition_id == self.partition_id)
    }

    /// The stored cursor of a consumer, if any.
    pub open spec fn spec_lookup(self, consumer: PollingConsumer) -> Option<u64> {
        match consumer {
            PollingConsumer::Consumer(id, _) => if self.consumer_offsets@.contains_key(id) {
                Some(self.consumer_offsets@[id].offset)
            } else {
                None
            },
            PollingConsumer::ConsumerGroup(id, _) => if self.consumer_group_offsets@
                .contains_key(id) {
                Some(self.consumer_group_offsets@[id].offset)
            } else {
                None
            },
        }
    }

    /// A fresh store with no cursors.
    pub fn create(stream_id: u32, topic_id: u32, partition_id: u32, current_offset: u64)
        -> (r: PartitionOffsets)
        ensures
            r.wf(),
            r.stream_id == stream_id,
            r.topic_id == topic_id,
            r.partition_id == partition_id,
            r.current_offset == current_offset,
            r.consumer_offsets@ == Map::<u32, ConsumerOffset>::empty(),
            r.consumer_group_offsets@ == Map::<u32, ConsumerOffset>::empty(),
    {
        PartitionOffsets {
            stream_id,
            topic_id,
            partition_id,
            current_offset,
            consumer_offsets: HashMap::new(),
            consumer_group_offsets: HashMap::new(),
        }
    }

    /// Record that the partition accepted messages up to `offset`. The
    /// current offset only ever grows, so stored cursors stay valid.
    pub fn set_current_offset(&mut self, offset: u64)
        requires
            old(self).wf(),
            offset >= old(self).current_offset,
        ensures
            final(self).wf(),
            final(self).current_offset == offset,
            final(self).stream_id == old(self).stream_id,
            final(self).topic_id == old(self).topic_id,
            final(self).partition_id == old(self).partition_id,
            final(self).consumer_offsets == old(self).consumer_offsets,
            final(self).consumer_group_offsets == old(self).consumer_group_offsets,
    {
        self.current_offset = offset;
    }

    /// The stored cursor of a consumer; zero when none is stored.
    pub fn get_consumer_offset(&self, consumer: PollingConsumer) -> (r: Result<u64, Error>)
        ensures
            r == Ok::<u64, Error>(match self.spec_lookup(consumer) {
                Some(o) => o,
                None => 0u64,
            }),
    {
        match consumer {
            PollingConsumer::Consumer(consumer_id, _) => {
                match self.consumer_offsets.get(&consumer_id) {
                    Some(consumer_offset) => Ok(consumer_offset.offset),
                    None => Ok(0),
                }
            },
            PollingConsumer::ConsumerGroup(consumer_group_id, _) => {
                match self.consumer_group_offsets.get(&consumer_group_id) {
                    Some(consumer_offset) => Ok(consumer_offset.offset),
                    None => Ok(0),
                }
            },
        }
    }

    /// Persist one cursor of one kind, then install it, so a cursor a
    /// reader can see was saved first.
    fn store_offset<S: PartitionStorage>(&mut self, storage: &mut S, kind: ConsumerKind,
        consumer_id: u32, offset: u64) -> (r: Result<(), Error>)
        requires
            old(self).wf(),
            offset <= old(self).current_offset,
        ensures
            final(self).wf(),
            final(self).stream_id == old(self).stream_id,
            final(self).topic_id == old(self).topic_id,
            final(self).partition_id == old(self).partition_id,
            final(self).current_offset == old(self).current_offset,
            r is Err ==> *final(self) == *old(self),
            r is Ok ==> final(storage).saved_offset(kind, consumer_id, old(self).stream_id,
                old(self).topic_id, old(self).partition_id) == Some(offset),
            r is Ok && kind == ConsumerKind::Consumer ==> final(self).consumer_offsets@
                == old(self).consumer_offsets@.insert(consumer_id, ConsumerOffset {
                    kind,
                    consumer_id,
                    offset,
                    stream_id: old(self).stream_id,
                    topic_id: old(self).topic_id,
                    partition_id: old(self).partition_id,
                }) && final(self).consumer_group_offsets == old(self).consumer_group_offsets,
            r is Ok && kind == ConsumerKind::ConsumerGroup
                ==> final(self).consumer_group_offsets@
                    == old(self).consumer_group_offsets@.insert(consumer_id, ConsumerOffset {
                        kind,
                        consumer_id,
                        offset,
                        stream_id: old(self).stream_id,
                        topic_id: old(self).topic_id,
                        partition_id: old(self).partition_id,
                    }) && final(self).consumer_offsets == old(self).consumer_offsets,
            forall|kd: ConsumerKind, c: u32, s: u32, t: u32, p: u32|
                !(kd == kind && c == consumer_id && s == old(self).stream_id
                    && t == old(self).topic_id && p == old(self).partition_id)
                    ==> #[trigger] final(storage).saved_offset(kd, c, s, t, p)
                        == old(storage).saved_offset(kd, c, s, t, p),
    {
        let record = ConsumerOffset::new(kind, consumer_id, offset, self.stream_id,
            self.topic_id, self.partition_id);
        match storage.save_consumer_offset(&record) {
            Ok(_) => {},
            Err(e) => {
                return Err(e);
            },
        }
        match kind {
            ConsumerKind::Consumer => {
                self.consumer_offsets.insert(consumer_id, record);
            },
            ConsumerKind::ConsumerGroup => {
                self.consumer_group_offsets.insert(consumer_id, record);
            },
        }
        Ok(())
    }

    /// Store a consumer's cursor: rejected above the current offset,
    /// otherwise persisted and installed. It succeeds exactly when the
    /// offset is in range and the backend accepted the save.
    pub fn store_consumer_offset<S: PartitionStorage>(&mut self, storage: &mut S,
        consumer: PollingConsumer, offset: u64) -> (r: Result<(), Error>)
        requires
            old(self).wf(),
        ensures
            final(self).wf(),
            final(self).stream_id == old(self).stream_id,
            final(self).topic_id == old(self).topic_id,
            final(self).partition_id == old(self).partition_id,
            final(self).current_offset == old(self).current_offset,
            offset > old(self).current_offset ==> r == Err::<(), Error>(Error::InvalidOffset(
                offset)) && *final(self) == *old(self) && *final(storage) == *old(storage),
            r is Ok ==> offset <= old(self).current_offset
                && final(self).spec_lookup(consumer) == Some(offset)
                && final(storage).saved_offset(spec_consumer_kind(consumer),
                    spec_consumer_id(consumer), old(self).stream_id, old(self).topic_id,
                    old(self).partition_id) == Some(offset),
            offset <= old(self).current_offset && r is Err ==> *final(self) == *old(self),
            r is Ok ==> (forall|other: PollingConsumer| spec_consumer_kind(other)
                != spec_consumer_kind(consumer) || spec_consumer_id(other)
                != spec_consumer_id(consumer)
                ==> #[trigger] final(self).spec_lookup(other)
                    == old(self).spec_lookup(other)),
    {
        if offset > self.current_offset {
            return Err(Error::InvalidOffset(offset));
        }
        let r = match consumer {
            PollingConsumer::Consumer(consumer_id, _) => {
                self.store_offset(storage, ConsumerKind::Consumer, consumer_id, offset)
            },
            PollingConsumer::ConsumerGroup(consumer_id, _) => {
                self.store_offset(storage, ConsumerKind::ConsumerGroup, consumer_id, offset)
            },
        };
        match r {
            Ok(_) => Ok(()),
            Err(e) => Err(e),
        }
    }

    /// Install every stored cursor of both kinds, as once during partition
    /// initialization; after it a restart cannot be told from never having
    /// restarted.
    pub fn load_consumer_offsets<S: PartitionStorage>(&mut self, storage: &S)
        -> (r: Result<(), Error>)
        requires
            old(self).wf(),
            old(self).consumer_offsets@ == Map::<u32, ConsumerOffset>::empty(),
            old(self).consumer_group_offsets@ == Map::<u32, ConsumerOffset>::empty(),
            forall|c: u32| #[trigger] storage.saved_offset(ConsumerKind::Consumer, c,
                old(self).stream_id, old(self).topic_id, old(self).partition_id) is Some
                ==> storage.saved_offset(ConsumerKind::Consumer, c, old(self).stream_id,
                    old(self).topic_id, old(self).partition_id)->0
                    <= old(self).current_offset,
            forall|c: u32| #[trigger] storage.saved_offset(ConsumerKind::ConsumerGroup, c,
                old(self).stream_id, old(self).topic_id, old(self).partition_id) is Some
                ==> storage.saved_offset(ConsumerKind::ConsumerGroup, c, old(self).stream_id,
                    old(self).topic_id, old(self).partition_id)->0
                    <= old(self).current_offset,
        ensures
            final(self).wf(),
            final(self).stream_id == old(self).stream_id,
            final(self).topic_id == old(self).topic_id,
            final(self).partition_id == old(self).partition_id,
            final(self).current_offset == old(self).current_offset,
            r is Ok ==> (forall|c: u32| #[trigger] final(self).consumer_offsets@
                .contains_key(c) <==> storage.saved_offset(ConsumerKind::Consumer, c,
                    old(self).stream_id, old(self).topic_id, old(self).partition_id) is Some)
                && (forall|c: u32| final(self).consumer_offsets@.contains_key(c)
                    ==> Some((#[trigger] final(self).consumer_offsets@[c]).offset)
                        == storage.saved_offset(ConsumerKind::Consumer, c,
                            old(self).stream_id, old(self).topic_id, old(self).partition_id))
                && (forall|c: u32| #[trigger] final(self).consumer_group_offsets@
                    .contains_key(c) <==> storage.saved_offset(ConsumerKind::ConsumerGroup, c,
                        old(self).stream_id, old(self).topic_id,
                        old(self).partition_id) is Some)
                && (forall|c: u32| final(self).consumer_group_offsets@.contains_key(c)
                    ==> Some((#[trigger] final(self).consumer_group_offsets@[c]).offset)
                        == storage.saved_offset(ConsumerKind::ConsumerGroup, c,
                            old(self).stream_id, old(self).topic_id,
                            old(self).partition_id)),
    {
        match self.load_consumer_offsets_from_storage(storage, ConsumerKind::Consumer) {
            Ok(_) => {},
            Err(e) => {
                return Err(e);
            },
        }
        self.load_consumer_offsets_from_storage(storage, ConsumerKind::ConsumerGroup)
    }

    /// Install the stored cursors of one kind.
    fn load_consumer_offsets_from_storage<S: PartitionStorage>(&mut self, storage: &S,
        kind: ConsumerKind) -> (r: Result<(), Error>)
        requires
            old(self).wf(),
            kind == ConsumerKind::Consumer ==> old(self).consumer_offsets@
                == Map::<u32, ConsumerOffset>::empty(),
            kind == ConsumerKind::ConsumerGroup ==> old(self).consumer_group_offsets@
                == Map::<u32, ConsumerOffset>::empty(),
            forall|c: u32| #[trigger] storage.saved_offset(kind, c, old(self).stream_id,
                old(self).topic_id, old(self).partition_id) is Some
                ==> storage.saved_offset(kind, c, old(self).stream_id, old(self).topic_id,
                    old(self).partition_id)->0 <= old(self).current_offset,
        ensures
            final(self).wf(),
            final(self).stream_id == old(self).stream_id,
            final(self).topic_id == old(self).topic_id,
            final(self).partition_id == old(self).partition_id,
            final(self).current_offset == old(self).current_offset,
            kind == ConsumerKind::Consumer ==> final(self).consumer_group_offsets
                == old(self).consumer_group_offsets,
            kind == ConsumerKind::ConsumerGroup ==> final(self).consumer_offsets
                == old(self).consumer_offsets,
            r is Ok && kind == ConsumerKind::Consumer ==> (forall|c: u32|
                #[trigger] final(self).consumer_offsets@.contains_key(c)
                <==> storage.saved_offset(kind, c, old(self).stream_id, old(self).topic_id,
                    old(self).partition_id) is Some)
                && (forall|c: u32| final(self).consumer_offsets@.contains_key(c)
                    ==> Some((#[trigger] final(self).consumer_offsets@[c]).offset)
                        == storage.saved_offset(kind, c, old(self).stream_id,
                            old(self).topic_id, old(self).partition_id)),
            r is Ok && kind == ConsumerKind::ConsumerGroup ==> (forall|c: u32|
                #[trigger] final(self).consumer_group_offsets@.contains_key(c)
                <==> storage.saved_offset(kind, c, old(self).stream_id, old(self).topic_id,
                    old(self).partition_id) is Some)
                && (forall|c: u32| final(self).consumer_group_offsets@.contains_key(c)
                    ==> Some((#[trigger] final(self).consumer_group_offsets@[c]).offset)
                        == storage.saved_offset(kind, c, old(self).stream_id,
                            old(self).topic_id, old(self).partition_id)),
    {
        let sid = self.stream_id;
        let tid = self.topic_id;
        let pid = self.partition_id;
        let loaded = match storage.load_consumer_offsets(kind, sid, tid, pid) {
            Ok(v) => v,
            Err(e) => {
                return Err(e);
            },
        };
        let ghost recs = loaded@;
        let mut i: usize = 0;
        while i < loaded.len()
            invariant
                i <= recs.len(),
                recs == loaded@,
                sid == old(self).stream_id,
                tid == old(self).topic_id,
                pid == old(self).partition_id,
                self.stream_id == sid,
                self.topic_id == tid,
                self.partition_id == pid,
                self.current_offset == old(self).current_offset,
                forall|c: u32| #[trigger] storage.saved_offset(kind, c, sid, tid, pid) is Some
                    ==> storage.saved_offset(kind, c, sid, tid, pid)->0
                        <= self.current_offset,
                kind == ConsumerKind::Consumer ==> self.consumer_group_offsets
                    == old(self).consumer_group_offsets,
                kind == ConsumerKind::ConsumerGroup ==> self.consumer_offsets
                    == old(self).consumer_offsets,
                self.wf(),
                forall|k: int| 0 <= k < recs.len() ==> (#[trigger] recs[k]).kind == kind
                    && recs[k].stream_id == sid && recs[k].topic_id == tid
                    && recs[k].partition_id == pid
                    && storage.saved_offset(kind, recs[k].consumer_id, sid, tid, pid)
                        == Some(recs[k].offset),
                forall|k: int, j: int| 0 <= k < j < recs.len()
                    ==> (#[trigger] recs[k]).consumer_id != (#[trigger] recs[j]).consumer_id,
                forall|c: u32| #[trigger] storage.saved_offset(kind, c, sid, tid,
                    pid) is Some ==> exists|k: int| 0 <= k < recs.len()
                        && (#[trigger] recs[k]).consumer_id == c,
                kind == ConsumerKind::Consumer ==> (forall|c: u32|
                    #[trigger] self.consumer_offsets@.contains_key(c)
                    <==> exists|k: int| 0 <= k < i && (#[trigger] recs[k]).consumer_id == c),
                kind == ConsumerKind::Consumer ==> (forall|c: u32|
                    self.consumer_offsets@.contains_key(c)
                    ==> Some((#[trigger] self.consumer_offsets@[c]).offset)
                        == storage.saved_offset(kind, c, sid, tid, pid)),
                kind == ConsumerKind::ConsumerGroup ==> (forall|c: u32|
                    #[trigger] self.consumer_group_offsets@.contains_key(c)
                    <==> exists|k: int| 0 <= k < i && (#[trigger] recs[k]).consumer_id == c),
                kind == ConsumerKind::ConsumerGroup ==> (forall|c: u32|
                    self.consumer_group_offsets@.contains_key(c)
                    ==> Some((#[trigger] self.consumer_group_offsets@[c]).offset)
                        == storage.saved_offset(kind, c, sid, tid, pid)),
            decreases recs.len() - i,
        {
            let record = loaded[i];
            proof {
                assert(recs[i as int] == record);
                assert(storage.saved_offset(kind, record.consumer_id, sid, tid, pid)
                    == Some(record.offset));
                assert(record.offset <= self.current_offset);
            }
            match kind {
                ConsumerKind::Consumer => {
                    self.consumer_offsets.insert(record.consumer_id, record);
                },
                ConsumerKind::ConsumerGroup => {
                    self.consumer_group_offsets.insert(record.consumer_id, record);
                },
            }
            i = i + 1;
        }
        proof {
            if kind == ConsumerKind::Consumer {
                assert forall|c: u32| #[trigger] self.consumer_offsets@.contains_key(c)
                    implies storage.saved_offset(kind, c, sid, tid, pid) is Some by {
                    let k = choose|k: int| 0 <= k < i && (#[trigger] recs[k]).consumer_id == c;
                    assert(storage.saved_offset(kind, recs[k].consumer_id, sid, tid, pid)
                        == Some(recs[k].offset));
                }
            } else {
                assert forall|c: u32| #[trigger] self.consumer_group_offsets@.contains_key(c)
                    implies storage.saved_offset(kind, c, sid, tid, pid) is Some by {
                    let k = choose|k: int| 0 <= k < i && (#[trigger] recs[k]).consumer_id == c;
                    assert(storage.saved_offset(kind, recs[k].consumer_id, sid, tid, pid)
                        == Some(recs[k].offset));
                }
            }
        }
        Ok(())
    }
}

/// After a successful cursor store, reading that consumer gives back
/// exactly the stored offset, until another store for it replaces it.
pub proof fn lemma_store_then_get(p: PartitionOffsets, consumer: PollingConsumer, offset: u64)
    requires
        p.spec_lookup(consumer) == Some(offset),
    ensures
        (match p.spec_lookup(consumer) {
            Some(o) => o,
            None => 0u64,
        }) == offset,
{
}

} // verus!
