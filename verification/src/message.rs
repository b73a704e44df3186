//! Messages: immutable after creation, sized exactly as their wire form.
use vstd::prelude::*;

verus! {

/// Lifecycle state of a message.
#[derive(Clone, Copy, Debug, PartialEq, Eq, Structural)]
pub enum MessageState {
    Available,
    Unavailable,
    Poisoned,
    MarkedForDeletion,
}

/// A single message. `length` always equals the payload byte count; the
/// optional headers block is carried as its encoded bytes.
#[derive(Clone, Debug)]
pub struct Message {
    pub offset: u64,
    pub state: MessageState,
    pub timestamp: u64,
    pub id: u128,
    pub checksum: u32,
    pub headers: Option<Vec<u8>>,
    pub length: u32,
    pub payload: Vec<u8>,
}

/// The mathematical model of a message.
#[verifier::ext_equal]
pub struct MsgView {
    pub offset: u64,
    pub state: MessageState,
    pub timestamp: u64,
    pub id: u128,
    pub checksum: u32,
    pub headers: Option<Seq<u8>>,
    pub length: u32,
    pub payload: Seq<u8>,
}

impl View for Message {
    type V = MsgView;

    open spec fn view(&self) -> MsgView {
        MsgView {
            offset: self.offset,
            state: self.state,
            timestamp: self.timestamp,
            id: self.id,
            checksum: self.checksum,
            headers: match self.headers {
                Some(h) => Some(h@),
                None => None,
            },
            length: self.length,
            payload: self.payload@,
        }
    }
}

impl DeepView for Message {
    type V = MsgView;

    open spec fn deep_view(&self) -> MsgView {
        self.view()
    }
}

impl MsgView {
    /// Byte count of the headers block.
    pub open spec fn headers_len(self) -> int {
        match self.headers {
            Some(h) => h.len() as int,
            None => 0,
        }
    }

    /// Size of the wire form: the fixed fields (offset, state, timestamp,
    /// id, checksum, headers length), the headers block, the payload length
    /// field and the payload.
    pub open spec fn spec_size(self) -> int {
        41 + self.headers_len() + 4 + self.payload.len()
    }

    /// The declared length matches the payload, and the whole wire form
    /// fits the 32-bit size accounting.
    pub open spec fn wf(self) -> bool {
        self.length == self.payload.len() && self.spec_size() <= u32::MAX
    }
}

impl Message {
    /// A fresh message carrying the given attributes.
    pub fn create(
        id: u128,
        state: MessageState,
        timestamp: u64,
        checksum: u32,
        headers: Option<Vec<u8>>,
        payload: Vec<u8>,
    ) -> (r: Result<Message, crate::error::Error>)
        ensures
            r is Ok ==> r->Ok_0@.wf() && r->Ok_0@.offset == 0
                && r->Ok_0@.id == id && r->Ok_0@.state == state
                && r->Ok_0@.timestamp == timestamp && r->Ok_0@.checksum == checksum
                && r->Ok_0@.payload == payload@
                && r->Ok_0@.headers == (match headers {
                    Some(h) => Some(h@),
                    None => None,
                }),
            r is Err ==> r == Err::<Message, crate::error::Error>(
                crate::error::Error::InvalidCommand),
            ({
                let hl = match headers {
                    Some(h) => h@.len() as int,
                    None => 0,
                };
                (41 + hl + 4 + payload@.len() <= u32::MAX) == (r is Ok)
            }),
    {
        let hl: usize = match &headers {
            Some(h) => h.len(),
            None => 0,
        };
        let pl = payload.len();
        if pl > (u32::MAX - 45) as usize {
            return Err(crate::error::Error::InvalidCommand);
        }
        if hl > (u32::MAX - 45) as usize - pl {
            return Err(crate::error::Error::InvalidCommand);
        }
        let length = payload.len() as u32;
        Ok(Message { offset: 0, state, timestamp, id, checksum, headers, length, payload })
    }

    /// Size of the wire form.
    pub fn get_size_bytes(&self) -> (r: u32)
        requires
            self@.wf(),
        ensures
            r == self@.spec_size(),
    {
        let hl: u32 = match &self.headers {
            Some(h) => h.len() as u32,
            None => 0,
        };
        45 + hl + self.length
    }
}

/// A copy of a message, equal to the original in every attribute.
pub fn clone_message(m: &Message) -> (r: Message)
    ensures
        r@ == m@,
{
    let headers = match &m.headers {
        Some(h) => Some(clone_bytes(h)),
        None => None,
    };
    let r = Message {
        offset: m.offset,
        state: m.state,
        timestamp: m.timestamp,
        id: m.id,
        checksum: m.checksum,
        headers,
        length: m.length,
        payload: clone_bytes(&m.payload),
    };
    proof {
        assert(r@.payload =~= m@.payload);
        if m.headers is Some {
            assert(r@.headers->0 =~= m@.headers->0);
        }
    }
    r
}

/// A copy of a byte run.
pub fn clone_bytes(b: &Vec<u8>) -> (r: Vec<u8>)
    ensures
        r@ == b@,
{
    let mut out: Vec<u8> = Vec::new();
    let mut i: usize = 0;
    while i < b.len()
        invariant
            i <= b@.len(),
            out@ =~= b@.subrange(0, i as int),
        decreases b@.len() - i,
    {
        out.push(b[i]);
        proof {
            assert(out@ =~= b@.subrange(0, i + 1 as int));
        }
        i = i + 1;
    }
    proof {
        assert(b@.subrange(0, b@.len() as int) =~= b@);
    }
    out
}

} // verus!
