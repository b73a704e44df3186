//! Consumers and their stored progress cursors.
use vstd::prelude::*;

verus! {

/// Whether a cursor belongs to an individual consumer or to a consumer
/// group sharing one cursor.
#[derive(Clone, Copy, Debug, PartialEq, Eq, Structural)]
pub enum ConsumerKind {
    Consumer,
    ConsumerGroup,
}

/// The consumer a poll or an offset-store call speaks for: its id and the
/// partition it currently polls.
#[derive(Clone, Copy, Debug, PartialEq, Eq, Structural)]
pub enum PollingConsumer {
    Consumer(u32, u32),
    ConsumerGroup(u32, u32),
}

/// A stored progress cursor, persisted under a path derived from the whole
/// tuple.
#[derive(Clone, Copy, Debug, PartialEq, Eq, Structural)]
pub struct ConsumerOffset {
    pub kind: ConsumerKind,
    pub consumer_id: u32,
    pub offset: u64,
    pub stream_id: u32,
    pub topic_id: u32,
    pub partition_id: u32,
}

impl ConsumerOffset {
    pub fn new(
        kind: ConsumerKind,
        consumer_id: u32,
        offset: u64,
        stream_id: u32,
        topic_id: u32,
        partition_id: u32,
    ) -> (r: ConsumerOffset)
        ensures
            r == (ConsumerOffset { kind, consumer_id, offset, stream_id, topic_id, partition_id }),
    {
        ConsumerOffset { kind, consumer_id, offset, stream_id, topic_id, partition_id }
    }
}

} // verus!
