//! ICMP: the 8-byte common header (type, code, checksum, and a 4-byte field
//! whose meaning depends on the type), its checksum, and the queues between
//! ICMP and IP.

use vstd::prelude::*;
use crate::bytes::{append_bytes, copy_bytes, slice_bytes};
use crate::checksum::{checksum, fold_carries, lemma_checksum_verifies, ones_complement_checksum, word_sum};
use crate::fragment::IPSendQueue;
use crate::ip::{be16, pair_word, u8_from_u16, words_to_bytes, ICMPV4_PROTOCOL};
use crate::queue::{contents, lemma_contents_push, lemma_contents_tail};

verus! {

/// Length of the ICMP header.
pub const ICMP_HEADER_LEN: usize = 8;

/// Type of an echo reply.
pub const ECHO_REPLY: u8 = 0;

/// Type of an echo request.
pub const ECHO_REQUEST: u8 = 8;

/// Type of a time-exceeded message.
pub const TIME_EXCEEDED: u8 = 11;

/// An ICMP header.
#[derive(Clone, Copy)]
pub struct IcmpHeader {
    pub icmp_type: u8,
    pub code: u8,
    pub check_sum: u16,
    pub other: u32,
}

/// The header as four big-endian words.
pub open spec fn icmp_words(h: IcmpHeader) -> Seq<u16> {
    seq![pair_word(h.icmp_type, h.code), h.check_sum, (h.other / 65536) as u16, (h.other % 65536) as u16]
}

/// The header with another checksum field.
pub open spec fn icmp_with_check_sum(h: IcmpHeader, c: u16) -> IcmpHeader {
    IcmpHeader { check_sum: c, ..h }
}

/// The checksum that belongs in `h`: that of its words with the checksum
/// field zero.
pub open spec fn icmp_checksum(h: IcmpHeader) -> u16 {
    ones_complement_checksum(icmp_words(icmp_with_check_sum(h, 0)))
}

/// The big-endian 32-bit value at `i`.
pub open spec fn be32_of(b: Seq<u8>, i: int) -> u32 {
    (b[i] as int * 16777216 + b[i + 1] as int * 65536 + b[i + 2] as int * 256 + b[i + 3] as int) as u32
}

/// The header read from the first eight bytes of `v`.
pub open spec fn icmp_parsed(v: Seq<u8>) -> IcmpHeader {
    IcmpHeader { icmp_type: v[0], code: v[1], check_sum: be16(v, 2), other: be32_of(v, 4) }
}

impl IcmpHeader {
    /// The header as four big-endian words.
    pub fn into_u16_array(&self) -> (r: Vec<u16>)
        ensures
            r@ == icmp_words(*self),
    {
        let mut result: Vec<u16> = Vec::new();
        let t = self.icmp_type;
        let c = self.code;
        let o = self.other;
        proof {
            assert(((t as u16) * 256 + c as u16) as u16 == ((t as u16) << 8u16) | (c as u16))
                by (bit_vector);
            assert(o >> 16u32 == o / 65536 && o & 0xffffu32 == o % 65536) by (bit_vector);
        }
        result.push((t as u16) << 8 | c as u16);
        result.push(self.check_sum);
        result.push((o >> 16) as u16);
        result.push((o & 0xffff) as u16);
        assert(result@ =~= icmp_words(*self));
        result
    }

    /// A header with the given fields and its checksum computed.
    pub fn new(icmp_type: u8, code: u8, other: u32) -> (r: IcmpHeader)
        ensures
            r.icmp_type == icmp_type,
            r.code == code,
            r.other == other,
            r.check_sum == icmp_checksum(r),
            fold_carries(word_sum(icmp_words(r))) == 65535,
    {
        let mut hdr = IcmpHeader { icmp_type, code, check_sum: 0, other };
        let ghost h0 = hdr;
        hdr.check_sum = hdr.calculate_check_sum();
        proof {
            lemma_icmp_checksum_verifies(h0);
            assert(icmp_with_check_sum(hdr, 0) == h0);
            assert(hdr == icmp_with_check_sum(h0, icmp_checksum(h0)));
        }
        hdr
    }

    /// Reads a header from the first eight bytes of `v`.
    pub fn from_vec_u8(v: Vec<u8>) -> (r: IcmpHeader)
        requires
            v.len() >= ICMP_HEADER_LEN,
        ensures
            r == icmp_parsed(v@),
    {
        let (b2, b3) = (v[2], v[3]);
        let (b4, b5, b6, b7) = (v[4], v[5], v[6], v[7]);
        let check_sum = (b2 as u16) << 8 | b3 as u16;
        let other = (b4 as u32) << 24 | (b5 as u32) << 16 | (b6 as u32) << 8 | b7 as u32;
        proof {
            assert(check_sum == ((b2 as u16) * 256 + b3 as u16) as u16) by (bit_vector)
                requires
                    check_sum == (b2 as u16) << 8u16 | b3 as u16,
            ;
            assert(other as int == b4 as int * 16777216 + b5 as int * 65536 + b6 as int * 256
                + b7 as int) by (bit_vector)
                requires
                    other == (b4 as u32) << 24u32 | (b5 as u32) << 16u32 | (b6 as u32) << 8u32
                        | b7 as u32,
            ;
        }
        IcmpHeader { icmp_type: v[0], code: v[1], check_sum, other }
    }

    /// The checksum over the header's words as they stand, its own checksum
    /// field included (zero it first to get the value to write there).
    pub fn calculate_check_sum(&self) -> (r: u16)
        ensures
            r == ones_complement_checksum(icmp_words(*self)),
    {
        let words = self.into_u16_array();
        checksum(&words)
    }
}

/// An ICMP header whose checksum field holds the checksum computed with that
/// field zero sums, in ones' complement, to 0xFFFF.
pub proof fn lemma_icmp_checksum_verifies(h: IcmpHeader)
    requires
        h.check_sum == 0,
    ensures
        fold_carries(word_sum(icmp_words(icmp_with_check_sum(h, icmp_checksum(h))))) == 65535,
{
    assert(icmp_with_check_sum(h, 0) == h);
    let c = icmp_checksum(h);
    assert(icmp_words(icmp_with_check_sum(h, c)) =~= icmp_words(h).update(1, c));
    lemma_checksum_verifies(icmp_words(h), 1);
}

/// How a received message is reported.
#[derive(PartialEq, Eq, Structural, Clone, Copy, Debug)]
pub enum IcmpKind {
    EchoReply,
    EchoRequest,
    TimeExceeded,
    /// A type this node does not handle.
    Unhandled,
    /// Shorter than an ICMP header.
    Truncated,
}

/// The kind of a message of type `t`.
pub open spec fn kind_of(t: u8) -> IcmpKind {
    if t == TIME_EXCEEDED {
        IcmpKind::TimeExceeded
    } else if t == ECHO_REQUEST {
        IcmpKind::EchoRequest
    } else if t == ECHO_REPLY {
        IcmpKind::EchoReply
    } else {
        IcmpKind::Unhandled
    }
}

/// The kind of a message of type `icmp_type`.
pub fn classify(icmp_type: u8) -> (r: IcmpKind)
    ensures
        r == kind_of(icmp_type),
{
    if icmp_type == TIME_EXCEEDED {
        IcmpKind::TimeExceeded
    } else if icmp_type == ECHO_REQUEST {
        IcmpKind::EchoRequest
    } else if icmp_type == ECHO_REPLY {
        IcmpKind::EchoReply
    } else {
        IcmpKind::Unhandled
    }
}

/// Messages handed up by IP.
pub struct IcmpReceiveQueue(std::collections::VecDeque<Vec<u8>>);

impl View for IcmpReceiveQueue {
    type V = Seq<Seq<u8>>;

    closed spec fn view(&self) -> Seq<Seq<u8>> {
        contents(self.0@)
    }
}

impl IcmpReceiveQueue {
    /// An empty queue.
    pub fn new() -> (q: Self)
        ensures
            q@ == Seq::<Seq<u8>>::empty(),
    {
        let q = IcmpReceiveQueue(std::collections::VecDeque::new());
        assert(q@ =~= Seq::<Seq<u8>>::empty());
        q
    }

    /// Appends a message.
    pub fn add_data(&mut self, data: Vec<u8>) -> (r: bool)
        ensures
            r,
            final(self)@ == old(self)@.push(data@),
    {
        let d = copy_bytes(&data);
        proof {
            lemma_contents_push(self.0@, d);
        }
        self.0.push_back(d);
        true
    }

    /// Removes and returns the oldest message.
    pub fn get_data(&mut self) -> (r: Option<Vec<u8>>)
        ensures
            match r {
                Some(v) => old(self)@.len() > 0 && v@ == old(self)@[0] && final(self)@
                    == old(self)@.drop_first(),
                None => old(self)@.len() == 0 && final(self)@ == old(self)@,
            },
    {
        proof {
            if self.0@.len() > 0 {
                lemma_contents_tail(self.0@);
            }
        }
        self.0.pop_front()
    }

    /// Whether the queue holds nothing.
    pub fn is_empty(&self) -> (r: bool)
        ensures
            r == (self@.len() == 0),
    {
        self.0.len() == 0
    }
}

/// Messages waiting to be sent.
pub struct IcmpSendQueue(std::collections::VecDeque<Vec<u8>>);

impl View for IcmpSendQueue {
    type V = Seq<Seq<u8>>;

    closed spec fn view(&self) -> Seq<Seq<u8>> {
        contents(self.0@)
    }
}

impl IcmpSendQueue {
    /// An empty queue.
    pub fn new() -> (q: Self)
        ensures
            q@ == Seq::<Seq<u8>>::empty(),
    {
        let q = IcmpSendQueue(std::collections::VecDeque::new());
        assert(q@ =~= Seq::<Seq<u8>>::empty());
        q
    }

    /// Appends a message.
    pub fn add_data(&mut self, data: Vec<u8>) -> (r: bool)
        ensures
            r,
            final(self)@ == old(self)@.push(data@),
    {
        let d = copy_bytes(&data);
        proof {
            lemma_contents_push(self.0@, d);
        }
        self.0.push_back(d);
        true
    }

    /// Removes and returns the oldest message.
    pub fn get_data(&mut self) -> (r: Option<Vec<u8>>)
        ensures
            match r {
                Some(v) => old(self)@.len() > 0 && v@ == old(self)@[0] && final(self)@
                    == old(self)@.drop_first(),
                None => old(self)@.len() == 0 && final(self)@ == old(self)@,
            },
    {
        proof {
            if self.0@.len() > 0 {
                lemma_contents_tail(self.0@);
            }
        }
        self.0.pop_front()
    }

    /// Whether the queue holds nothing.
    pub fn is_empty(&self) -> (r: bool)
        ensures
            r == (self@.len() == 0),
    {
        self.0.len() == 0
    }
}

/// The message `m` as sent: its header read back and given a fresh
/// checksum, then the rest of its bytes.
pub open spec fn outgoing_message(m: Seq<u8>) -> Seq<u8> {
    let h = icmp_parsed(m);
    words_to_bytes(icmp_words(icmp_with_check_sum(h, icmp_checksum(h)))) + m.subrange(8, m.len() as int)
}

/// Takes the oldest message from `icmp_queue` and hands it to IP as an ICMP
/// payload, its header checksum recomputed. A message shorter than a header
/// is dropped. Returns whether there was a message.
pub fn send(ip_queue: &mut IPSendQueue, icmp_queue: &mut IcmpSendQueue) -> (r: bool)
    ensures
        r == (old(icmp_queue)@.len() > 0),
        !r ==> final(icmp_queue)@ == old(icmp_queue)@ && final(ip_queue)@ == old(ip_queue)@,
        r ==> final(icmp_queue)@ == old(icmp_queue)@.drop_first() && final(ip_queue)@ == if old(
            icmp_queue,
        )@[0].len() >= ICMP_HEADER_LEN {
            old(ip_queue)@.push((ICMPV4_PROTOCOL, outgoing_message(old(icmp_queue)@[0])))
        } else {
            old(ip_queue)@
        },
{
    let data = match icmp_queue.get_data() {
        Some(d) => d,
        None => {
            return false;
        },
    };
    if data.len() < ICMP_HEADER_LEN {
        return true;
    }
    let rest = slice_bytes(&data, ICMP_HEADER_LEN, data.len());
    let mut hdr = IcmpHeader::from_vec_u8(data);
    hdr.check_sum = 0;
    hdr.check_sum = hdr.calculate_check_sum();
    let mut buffer = u8_from_u16(&hdr.into_u16_array());
    append_bytes(&mut buffer, &rest);
    ip_queue.add_data(buffer, ICMPV4_PROTOCOL);
    true
}

/// What `receive` reports for a message.
pub open spec fn message_kind(m: Seq<u8>) -> IcmpKind {
    if m.len() < ICMP_HEADER_LEN {
        IcmpKind::Truncated
    } else {
        kind_of(m[0])
    }
}

/// Takes the oldest message from `icmp_queue` and says what kind it is;
/// None when the queue is empty.
pub fn receive(icmp_queue: &mut IcmpReceiveQueue) -> (r: Option<IcmpKind>)
    ensures
        old(icmp_queue)@.len() == 0 ==> r is None && final(icmp_queue)@ == old(icmp_queue)@,
        old(icmp_queue)@.len() > 0 ==> final(icmp_queue)@ == old(icmp_queue)@.drop_first() && r
            == Some(message_kind(old(icmp_queue)@[0])),
{
    let data = match icmp_queue.get_data() {
        Some(d) => d,
        None => {
            return None;
        },
    };
    if data.len() < ICMP_HEADER_LEN {
        return Some(IcmpKind::Truncated);
    }
    let hdr = IcmpHeader::from_vec_u8(data);
    Some(classify(hdr.icmp_type))
}

/// Queues a time-exceeded message (code 0) with 68 zero bytes after its
/// header.
pub fn test_icmp(icmp_send_queue: &mut IcmpSendQueue)
    ensures
        final(icmp_send_queue)@ == old(icmp_send_queue)@.push(
            words_to_bytes(
                icmp_words(
                    icmp_with_check_sum(
                        IcmpHeader { icmp_type: TIME_EXCEEDED, code: 0, check_sum: 0, other: 0 },
                        icmp_checksum(
                            IcmpHeader { icmp_type: TIME_EXCEEDED, code: 0, check_sum: 0, other: 0 },
                        ),
                    ),
                ),
            ) + Seq::new(68, |k: int| 0u8),
        ),
{
    let hdr = IcmpHeader::new(TIME_EXCEEDED, 0, 0);
    let mut data = u8_from_u16(&hdr.into_u16_array());
    let ghost head = data@;
    let mut i: usize = 0;
    while i < 68
        invariant
            i <= 68,
            data@ == head + Seq::new(i as nat, |k: int| 0u8),
        decreases 68 - i,
    {
        data.push(0);
        i = i + 1;
        assert(data@ =~= head + Seq::new(i as nat, |k: int| 0u8));
    }
    assert(hdr == icmp_with_check_sum(
        IcmpHeader { icmp_type: TIME_EXCEEDED, code: 0, check_sum: 0, other: 0 },
        icmp_checksum(IcmpHeader { icmp_type: TIME_EXCEEDED, code: 0, check_sum: 0, other: 0 }),
    ));
    icmp_send_queue.add_data(data);
}

} // verus!
