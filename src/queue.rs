//! Bounded FIFO queues of link-layer payloads.

use vstd::prelude::*;
use crate::bytes::copy_bytes;

verus! {

/// The smallest payload an Ethernet-v2 frame carries.
pub const MIN_PAYLOAD_LEN: usize = 46;

/// The largest payload an Ethernet-v2 frame carries.
pub const MAX_PAYLOAD_LEN: usize = 1500;

/// Whether a payload of `len` bytes fits in one frame.
pub open spec fn payload_len_ok(len: int) -> bool {
    MIN_PAYLOAD_LEN <= len <= MAX_PAYLOAD_LEN
}

/// The byte contents of a sequence of buffers.
pub open spec fn contents(q: Seq<Vec<u8>>) -> Seq<Seq<u8>> {
    q.map_values(|v: Vec<u8>| v@)
}

pub(crate) proof fn lemma_contents_push(q: Seq<Vec<u8>>, v: Vec<u8>)
    ensures
        contents(q.push(v)) == contents(q).push(v@),
{
    assert(contents(q.push(v)) =~= contents(q).push(v@));
}

pub(crate) proof fn lemma_contents_tail(q: Seq<Vec<u8>>)
    requires
        q.len() > 0,
    ensures
        contents(q.subrange(1, q.len() as int)) == contents(q).drop_first(),
        contents(q)[0] == q[0]@,
{
    assert(contents(q.subrange(1, q.len() as int)) =~= contents(q).drop_first());
}

/// The queue of payloads handed down to the link layer for sending. Only
/// payloads of a frame's size are admitted.
pub struct SendQueue(std::collections::VecDeque<Vec<u8>>);

impl View for SendQueue {
    type V = Seq<Seq<u8>>;

    closed spec fn view(&self) -> Seq<Seq<u8>> {
        contents(self.0@)
    }
}

impl SendQueue {
    /// An empty queue.
    pub fn new() -> (q: Self)
        ensures
            q@ == Seq::<Seq<u8>>::empty(),
    {
        let q = SendQueue(std::collections::VecDeque::new());
        assert(q@ =~= Seq::<Seq<u8>>::empty());
        q
    }

    /// Appends a copy of `buffer` when its length is within a frame's payload
    /// bounds; otherwise leaves the queue as it is and returns false.
    pub fn add_data(&mut self, buffer: &Vec<u8>) -> (r: bool)
        ensures
            r == payload_len_ok(buffer@.len() as int),
            final(self)@ == if r {
                old(self)@.push(buffer@)
            } else {
                old(self)@
            },
    {
        if buffer.len() > MAX_PAYLOAD_LEN || buffer.len() < MIN_PAYLOAD_LEN {
            return false;
        }
        let b = copy_bytes(buffer);
        proof {
            lemma_contents_push(self.0@, b);
        }
        self.0.push_back(b);
        true
    }

    /// Removes and returns the oldest payload.
    pub fn get_data(&mut self) -> (r: Option<Vec<u8>>)
        ensures
            match r {
                Some(v) => old(self)@.len() > 0 && v@ == old(self)@[0] && final(self)@
                    == old(self)@.drop_first(),
                None => old(self)@.len() == 0 && final(self)@ == old(self)@,
            },
    {
        proof {
            if self.0@.len() > 0 {
                lemma_contents_tail(self.0@);
            }
        }
        self.0.pop_front()
    }

    /// Whether the queue holds nothing.
    pub fn is_empty(&self) -> (r: bool)
        ensures
            r == (self@.len() == 0),
    {
        self.0.len() == 0
    }
}

/// The queue of payloads handed up from the link layer. Only payloads of a
/// frame's size are admitted.
pub struct ReceiveQueue(std::collections::VecDeque<Vec<u8>>);

impl View for ReceiveQueue {
    type V = Seq<Seq<u8>>;

    closed spec fn view(&self) -> Seq<Seq<u8>> {
        contents(self.0@)
    }
}

impl ReceiveQueue {
    /// An empty queue.
    pub fn new() -> (q: Self)
        ensures
            q@ == Seq::<Seq<u8>>::empty(),
    {
        let q = ReceiveQueue(std::collections::VecDeque::new());
        assert(q@ =~= Seq::<Seq<u8>>::empty());
        q
    }

    /// Appends a copy of `buffer` when its length is within a frame's payload
    /// bounds; otherwise leaves the queue as it is and returns false.
    pub fn add_data(&mut self, buffer: &Vec<u8>) -> (r: bool)
        ensures
            r == payload_len_ok(buffer@.len() as int),
            final(self)@ == if r {
                old(self)@.push(buffer@)
            } else {
                old(self)@
            },
    {
        if buffer.len() > MAX_PAYLOAD_LEN || buffer.len() < MIN_PAYLOAD_LEN {
            return false;
        }
        let b = copy_bytes(buffer);
        proof {
            lemma_contents_push(self.0@, b);
        }
        self.0.push_back(b);
        true
    }

    /// Removes and returns the oldest payload.
    pub fn get_data(&mut self) -> (r: Option<Vec<u8>>)
        ensures
            match r {
                Some(v) => old(self)@.len() > 0 && v@ == old(self)@[0] && final(self)@
                    == old(self)@.drop_first(),
                None => old(self)@.len() == 0 && final(self)@ == old(self)@,
            },
    {
        proof {
            if self.0@.len() > 0 {
                lemma_contents_tail(self.0@);
            }
        }
        self.0.pop_front()
    }

    /// Whether the queue holds nothing.
    pub fn is_empty(&self) -> (r: bool)
        ensures
            r == (self@.len() == 0),
    {
        self.0.len() == 0
    }
}

} // verus!
