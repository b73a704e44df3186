//! A batch: a contiguous group of messages persisted together and indexed
//! once. `length` counts the whole wire form of the batch, framing
//! included.
use vstd::prelude::*;
use crate::message::Message;
use crate::message::MsgView;
use crate::message::clone_message;

verus! {

/// Bytes of batch framing before the packed messages: base offset, length
/// and last offset delta.
pub const BATCH_HEADER_BYTES: u32 = 16;

/// A run of messages persisted contiguously in a segment file.
#[derive(Clone, Debug)]
pub struct MessagesBatch {
    pub base_offset: u64,
    pub length: u32,
    pub last_offset_delta: u32,
    pub messages: Vec<Message>,
}

/// The mathematical model of a batch.
#[verifier::ext_equal]
pub struct BatchView {
    pub base_offset: u64,
    pub length: u32,
    pub last_offset_delta: u32,
    pub messages: Seq<MsgView>,
}

impl View for MessagesBatch {
    type V = BatchView;

    open spec fn view(&self) -> BatchView {
        BatchView {
            base_offset: self.base_offset,
            length: self.length,
            last_offset_delta: self.last_offset_delta,
            messages: self.messages.deep_view(),
        }
    }
}

impl DeepView for MessagesBatch {
    type V = BatchView;

    open spec fn deep_view(&self) -> BatchView {
        self.view()
    }
}

/// Total wire size of a run of messages.
pub open spec fn spec_msgs_size(msgs: Seq<MsgView>) -> int
    decreases msgs.len(),
{
    if msgs.len() == 0 {
        0
    } else {
        spec_msgs_size(msgs.drop_last()) + msgs.last().spec_size()
    }
}

pub proof fn lemma_msgs_size_nonneg(msgs: Seq<MsgView>)
    ensures
        spec_msgs_size(msgs) >= 0,
    decreases msgs.len(),
{
    if msgs.len() > 0 {
        lemma_msgs_size_nonneg(msgs.drop_last());
    }
}

/// The size of a prefix never exceeds the size of the whole run.
pub proof fn lemma_msgs_size_prefix_le(msgs: Seq<MsgView>, i: int)
    requires
        0 <= i <= msgs.len(),
    ensures
        spec_msgs_size(msgs.subrange(0, i)) <= spec_msgs_size(msgs),
    decreases msgs.len(),
{
    if i == msgs.len() {
        assert(msgs.subrange(0, i) =~= msgs);
    } else {
        let t = msgs.drop_last();
        assert(msgs.subrange(0, i) =~= t.subrange(0, i));
        lemma_msgs_size_prefix_le(t, i);
    }
}

impl BatchView {
    /// The messages carry contiguous offsets from the base, the delta names
    /// the last of them, and the length counts framing plus packed
    /// messages.
    pub open spec fn wf(self) -> bool {
        &&& self.messages.len() >= 1
        &&& self.last_offset_delta == self.messages.len() - 1
        &&& self.base_offset + self.last_offset_delta <= u64::MAX
        &&& forall|i: int| 0 <= i < self.messages.len()
            ==> (#[trigger] self.messages[i]).offset == self.base_offset + i
        &&& forall|i: int| 0 <= i < self.messages.len()
            ==> (#[trigger] self.messages[i]).wf()
        &&& self.length == BATCH_HEADER_BYTES + spec_msgs_size(self.messages)
    }

    /// Offset of the last message in the batch.
    pub open spec fn last_offset(self) -> int {
        self.base_offset + self.last_offset_delta
    }
}

impl MessagesBatch {
    /// Pack messages that already carry their assigned offsets into one
    /// batch.
    pub fn messages_to_batch(
        base_offset: u64,
        last_offset_delta: u32,
        messages: Vec<Message>,
    ) -> (r: MessagesBatch)
        requires
            messages@.len() >= 1,
            last_offset_delta == messages@.len() - 1,
            base_offset + last_offset_delta <= u64::MAX,
            forall|i: int| 0 <= i < messages@.len()
                ==> (#[trigger] messages.deep_view()[i]).offset == base_offset + i,
            forall|i: int| 0 <= i < messages@.len()
                ==> (#[trigger] messages.deep_view()[i]).wf(),
            BATCH_HEADER_BYTES + spec_msgs_size(messages.deep_view()) <= u32::MAX,
        ensures
            r@.wf(),
            r@.base_offset == base_offset,
            r@.last_offset_delta == last_offset_delta,
            r@.messages == messages.deep_view(),
    {
        let ghost all = messages.deep_view();
        let mut total: u32 = 0;
        let mut i: usize = 0;
        while i < messages.len()
            invariant
                i <= all.len(),
                all == messages.deep_view(),
                all.len() == messages@.len(),
                forall|k: int| 0 <= k < all.len() ==> (#[trigger] all[k]).wf(),
                BATCH_HEADER_BYTES + spec_msgs_size(all) <= u32::MAX,
                total == spec_msgs_size(all.subrange(0, i as int)),
            decreases all.len() - i,
        {
            proof {
                let pre = all.subrange(0, i as int);
                let cur = all.subrange(0, i + 1 as int);
                assert(cur.drop_last() =~= pre);
                assert(cur.last() == all[i as int]);
                lemma_msgs_size_prefix_le(all, i + 1 as int);
            }
            let sz = messages[i].get_size_bytes();
            total = total + sz;
            i = i + 1;
        }
        proof {
            assert(all.subrange(0, all.len() as int) =~= all);
        }
        MessagesBatch {
            base_offset,
            length: BATCH_HEADER_BYTES + total,
            last_offset_delta,
            messages,
        }
    }

    /// Size of the wire form of the whole batch.
    pub fn get_size_bytes(&self) -> (r: u32)
        requires
            self@.wf(),
        ensures
            r == self@.length,
            r == BATCH_HEADER_BYTES + spec_msgs_size(self@.messages),
    {
        self.length
    }
}

/// A copy of a batch, equal to the original in every attribute.
pub fn clone_batch(b: &MessagesBatch) -> (r: MessagesBatch)
    ensures
        r@ == b@,
{
    let mut messages: Vec<Message> = Vec::new();
    let mut i: usize = 0;
    while i < b.messages.len()
        invariant
            i <= b.messages@.len(),
            messages@.len() == i,
            forall|k: int| 0 <= k < i ==> ((#[trigger] messages@[k])@ == b.messages@[k]@),
        decreases b.messages@.len() - i,
    {
        messages.push(clone_message(&b.messages[i]));
        i = i + 1;
    }
    let r = MessagesBatch {
        base_offset: b.base_offset,
        length: b.length,
        last_offset_delta: b.last_offset_delta,
        messages,
    };
    proof {
        assert forall|k: int| 0 <= k < b.messages@.len() implies messages.deep_view()[k]
            == b.messages.deep_view()[k] by {
            assert(messages@[k]@ == b.messages@[k]@);
        }
        assert(messages.deep_view() =~= b.messages.deep_view());
        assert(r@.messages =~= b@.messages);
    }
    r
}

} // verus!
