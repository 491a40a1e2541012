//! Ethernet-v2 frames: a 14-byte header (destination MAC, source MAC,
//! ethertype), the payload, and the CRC-32 of the payload, big-endian.

use vstd::prelude::*;
use crate::bytes::{append_bytes, copy_bytes, slice_bytes};
use crate::config::{BROADCAST_MAC, LOCAL_MAC};
use crate::crc32::{calculate_crc32, crc32, crc32_prefix};
use crate::ip::{be16, word_bytes};
use crate::reassembly::IpReceiveQueue;
use crate::arp::ArpReceiveQueue;

verus! {

/// The ethertype of IPv4.
pub const ETHERTYPE_IPV4: u16 = 0x0800;

/// The ethertype of ARP.
pub const ETHERTYPE_ARP: u16 = 0x0806;

/// Length of the frame header.
pub const ETHERNET_HEADER_LEN: usize = 14;

/// Length of the CRC trailer.
pub const CRC_LEN: usize = 4;

/// Length of an ARP message.
pub const ARP_FRAME_LEN: usize = 28;

/// A frame header.
pub struct EthernetHeader {
    pub dest_mac_addr: [u8; 6],
    pub src_mac_addr: [u8; 6],
    pub ethernet_type: u16,
}

/// A payload waiting to be framed: where it goes and what it carries.
pub struct Eth2QueueElement {
    pub dest_mac_addr: [u8; 6],
    pub ethernet_type: u16,
    pub data: Vec<u8>,
}

/// The four bytes of `x`, most significant first.
pub open spec fn u32_be_bytes(x: u32) -> Seq<u8> {
    seq![(x / 16777216) as u8, (x / 65536 % 256) as u8, (x / 256 % 256) as u8, (x % 256) as u8]
}

/// The header bytes: destination, source, ethertype.
pub open spec fn header_bytes(h: EthernetHeader) -> Seq<u8> {
    h.dest_mac_addr@ + h.src_mac_addr@ + word_bytes(h.ethernet_type)
}

/// The frame that carries `payload` from this node to `dest`.
pub open spec fn frame_bytes(dest: [u8; 6], ethernet_type: u16, payload: Seq<u8>) -> Seq<u8> {
    header_bytes(EthernetHeader { dest_mac_addr: dest, src_mac_addr: LOCAL_MAC, ethernet_type })
        + payload + u32_be_bytes(crc32(payload))
}

fn push_u32_be(buffer: &mut Vec<u8>, x: u32)
    ensures
        final(buffer)@ == old(buffer)@ + u32_be_bytes(x),
{
    proof {
        assert((x >> 24u32) as u8 == (x / 16777216) as u8) by (bit_vector);
        assert((x >> 16u32) as u8 == (x / 65536 % 256) as u8) by (bit_vector);
        assert((x >> 8u32) as u8 == (x / 256 % 256) as u8) by (bit_vector);
        assert(x as u8 == (x % 256) as u8) by (bit_vector);
    }
    buffer.push((x >> 24) as u8);
    buffer.push((x >> 16) as u8);
    buffer.push((x >> 8) as u8);
    buffer.push(x as u8);
    assert(buffer@ =~= old(buffer)@ + u32_be_bytes(x));
}

fn push_array6(buffer: &mut Vec<u8>, a: &[u8; 6])
    ensures
        final(buffer)@ == old(buffer)@ + a@,
{
    let mut i: usize = 0;
    while i < 6
        invariant
            i <= 6,
            buffer@ == old(buffer)@ + a@.subrange(0, i as int),
        decreases 6 - i,
    {
        buffer.push(a[i]);
        i = i + 1;
        assert(buffer@ =~= old(buffer)@ + a@.subrange(0, i as int));
    }
    assert(a@.subrange(0, 6) =~= a@);
}

/// Appends the header of a frame to `element.dest_mac_addr`, from this node,
/// of type `element.ethernet_type`.
pub fn load_ethernet_header(buffer: &mut Vec<u8>, element: &Eth2QueueElement)
    ensures
        final(buffer)@ == old(buffer)@ + header_bytes(
            EthernetHeader {
                dest_mac_addr: element.dest_mac_addr,
                src_mac_addr: LOCAL_MAC,
                ethernet_type: element.ethernet_type,
            },
        ),
{
    let ethernet_header = EthernetHeader {
        dest_mac_addr: element.dest_mac_addr,
        src_mac_addr: LOCAL_MAC,
        ethernet_type: element.ethernet_type,
    };
    push_array6(buffer, &ethernet_header.dest_mac_addr);
    push_array6(buffer, &ethernet_header.src_mac_addr);
    let t = ethernet_header.ethernet_type;
    proof {
        assert((t >> 8u16) as u8 == (t / 256) as u8) by (bit_vector);
        assert(t as u8 == (t % 256) as u8) by (bit_vector);
    }
    buffer.push((t >> 8) as u8);
    buffer.push(t as u8);
    assert(buffer@ =~= old(buffer)@ + header_bytes(ethernet_header));
}

/// Appends the payload of `element` and its CRC-32; returns true and the
/// length of the frame (header, payload and trailer).
pub fn load_ethernet_data_from_network_layer(buffer: &mut Vec<u8>, element: &Eth2QueueElement) -> (r: (bool, usize))
    requires
        element.data@.len() <= i32::MAX,
    ensures
        final(buffer)@ == old(buffer)@ + element.data@ + u32_be_bytes(crc32(element.data@)),
        r == (true, (ETHERNET_HEADER_LEN + element.data@.len() + CRC_LEN) as usize),
{
    let data = &element.data;
    let crc = calculate_crc32(data, data.len() as i32);
    assert(data@.subrange(0, data.len() as int) =~= data@);
    append_bytes(buffer, data);
    push_u32_be(buffer, crc);
    assert(buffer@ =~= old(buffer)@ + element.data@ + u32_be_bytes(crc32(element.data@)));
    (true, ETHERNET_HEADER_LEN + data.len() + CRC_LEN)
}

/// The whole frame for `element`.
pub fn encode_frame(element: &Eth2QueueElement) -> (r: Vec<u8>)
    requires
        element.data@.len() <= i32::MAX,
    ensures
        r@ == frame_bytes(element.dest_mac_addr, element.ethernet_type, element.data@),
        r@.len() == ETHERNET_HEADER_LEN + element.data@.len() + CRC_LEN,
{
    let mut buffer: Vec<u8> = Vec::new();
    load_ethernet_header(&mut buffer, element);
    load_ethernet_data_from_network_layer(&mut buffer, element);
    assert(buffer@ =~= frame_bytes(element.dest_mac_addr, element.ethernet_type, element.data@));
    buffer
}

/// The (destination, ethertype, payload) of each queued element.
pub open spec fn eth_elements(q: Seq<Eth2QueueElement>) -> Seq<([u8; 6], u16, Seq<u8>)> {
    q.map_values(|e: Eth2QueueElement| (e.dest_mac_addr, e.ethernet_type, e.data@))
}

/// The queue of payloads waiting to be framed and sent.
pub struct Eth2SendQueue(std::collections::VecDeque<Eth2QueueElement>);

impl View for Eth2SendQueue {
    type V = Seq<([u8; 6], u16, Seq<u8>)>;

    closed spec fn view(&self) -> Seq<([u8; 6], u16, Seq<u8>)> {
        eth_elements(self.0@)
    }
}

impl Eth2SendQueue {
    /// An empty queue.
    pub fn new() -> (q: Self)
        ensures
            q@ == Seq::<([u8; 6], u16, Seq<u8>)>::empty(),
    {
        let q = Eth2SendQueue(std::collections::VecDeque::new());
        assert(q@ =~= Seq::<([u8; 6], u16, Seq<u8>)>::empty());
        q
    }

    /// Appends a copy of `buffer`, to go to `dest_mac` as `ethernet_v2_type`.
    pub fn add_data(&mut self, dest_mac: [u8; 6], ethernet_v2_type: u16, buffer: &Vec<u8>) -> (r: bool)
        ensures
            r,
            final(self)@ == old(self)@.push((dest_mac, ethernet_v2_type, buffer@)),
    {
        let e = Eth2QueueElement {
            dest_mac_addr: dest_mac,
            ethernet_type: ethernet_v2_type,
            data: copy_bytes(buffer),
        };
        assert(eth_elements(self.0@.push(e)) =~= eth_elements(self.0@).push(
            (dest_mac, ethernet_v2_type, buffer@),
        ));
        self.0.push_back(e);
        true
    }

    /// Removes and returns the oldest element.
    pub fn get_data(&mut self) -> (r: Option<Eth2QueueElement>)
        ensures
            match r {
                Some(e) => old(self)@.len() > 0 && (e.dest_mac_addr, e.ethernet_type, e.data@)
                    == old(self)@[0] && final(self)@ == old(self)@.drop_first(),
                None => old(self)@.len() == 0 && final(self)@ == old(self)@,
            },
    {
        proof {
            if self.0@.len() > 0 {
                assert(eth_elements(self.0@.subrange(1, self.0@.len() as int)) =~= eth_elements(
                    self.0@,
                ).drop_first());
            }
        }
        self.0.pop_front()
    }

    /// Whether the queue holds nothing.
    pub fn is_empty(&self) -> (r: bool)
        ensures
            r == (self@.len() == 0),
    {
        self.0.len() == 0
    }
}

/// What became of a received frame.
#[derive(PartialEq, Eq, Structural, Clone, Copy, Debug)]
pub enum Delivery {
    /// Too short for its own lengths, or the lengths exceed what was
    /// captured.
    Malformed,
    /// The trailer does not match the CRC-32 of the payload.
    CrcMismatch,
    /// Addressed neither to this node nor to everyone.
    NotForUs,
    /// An IPv4 payload, offered to the IP receive queue, which took it or
    /// not.
    Ip(bool),
    /// An ARP message, queued for the ARP layer.
    Arp,
    /// Any other ethertype: dropped.
    OtherType,
}

/// The big-endian 32-bit value at `i`.
pub open spec fn be32_at(b: Seq<u8>, i: int) -> u32 {
    (b[i] as int * 16777216 + b[i + 1] as int * 65536 + b[i + 2] as int * 256 + b[i + 3] as int) as u32
}

/// Whether the frame's destination is this node or everyone.
pub open spec fn addressed_to_us(b: Seq<u8>) -> bool {
    b.subrange(0, 6) == LOCAL_MAC@ || b.subrange(0, 6) == BROADCAST_MAC@
}

/// What the frame `b`, of which `caplen` bytes were captured out of `len`
/// on the wire, comes to. The CRC covers bytes 14 up to the captured end's
/// trailer; an IPv4 payload runs from 14 up to the wire end's trailer; an
/// ARP message is the 28 bytes after the header.
pub open spec fn frame_delivery(b: Seq<u8>, caplen: int, len: int) -> Delivery {
    if caplen < 18 || caplen > b.len() {
        Delivery::Malformed
    } else if be32_at(b, caplen - 4) != crc32(b.subrange(14, caplen - 4)) {
        Delivery::CrcMismatch
    } else if !addressed_to_us(b) {
        Delivery::NotForUs
    } else if be16(b, 12) == ETHERTYPE_IPV4 {
        if len < 18 || len > b.len() {
            Delivery::Malformed
        } else {
            Delivery::Ip(crate::queue::payload_len_ok(len - 18))
        }
    } else if be16(b, 12) == ETHERTYPE_ARP {
        if caplen < 42 {
            Delivery::Malformed
        } else {
            Delivery::Arp
        }
    } else {
        Delivery::OtherType
    }
}

fn mac_at(b: &Vec<u8>, mac: &[u8; 6]) -> (r: bool)
    requires
        b.len() >= 6,
    ensures
        r == (b@.subrange(0, 6) == mac@),
{
    let mut i: usize = 0;
    while i < 6
        invariant
            i <= 6 <= b.len(),
            forall|k: int| 0 <= k < i ==> b@[k] == mac@[k],
        decreases 6 - i,
    {
        if b[i] != mac[i] {
            assert(b@.subrange(0, 6)[i as int] != mac@[i as int]);
            return false;
        }
        i = i + 1;
    }
    assert(b@.subrange(0, 6) =~= mac@);
    true
}

/// Checks a received frame and hands its payload to the layer its ethertype
/// names: IPv4 payloads to `ip_queue`, ARP messages to `arp_queue`.
pub fn receive(
    data: &Vec<u8>,
    caplen: u32,
    len: u32,
    arp_queue: &mut ArpReceiveQueue,
    ip_queue: &mut IpReceiveQueue,
) -> (r: Delivery)
    ensures
        r == frame_delivery(data@, caplen as int, len as int),
        final(ip_queue)@ == if r == Delivery::Ip(true) {
            old(ip_queue)@.push(data@.subrange(14, len - 4))
        } else {
            old(ip_queue)@
        },
        final(arp_queue)@ == if r == Delivery::Arp {
            old(arp_queue)@.push(data@.subrange(14, 42))
        } else {
            old(arp_queue)@
        },
{
    let cap = caplen as usize;
    if cap < 18 || cap > data.len() {
        return Delivery::Malformed;
    }
    let trailer = (data[cap - 4] as u32) << 24 | (data[cap - 3] as u32) << 16 | (data[cap - 2] as u32) << 8
        | (data[cap - 1] as u32);
    proof {
        let (a, b, c, d) = (data@[cap - 4], data@[cap - 3], data@[cap - 2], data@[cap - 1]);
        assert(((a as u32) << 24u32 | (b as u32) << 16u32 | (c as u32) << 8u32 | (d as u32)) as int
            == a as int * 16777216 + b as int * 65536 + c as int * 256 + d as int) by (bit_vector);
    }
    let body = slice_bytes(data, ETHERNET_HEADER_LEN, cap - CRC_LEN);
    let crc = crc32_prefix(&body, body.len());
    assert(body@.subrange(0, body@.len() as int) =~= body@);
    if trailer != crc {
        return Delivery::CrcMismatch;
    }
    if !mac_at(data, &LOCAL_MAC) && !mac_at(data, &BROADCAST_MAC) {
        return Delivery::NotForUs;
    }
    proof {
        crate::ip::lemma_be16(data@[12], data@[13]);
    }
    if data[12] == 0x08 && data[13] == 0x00 {
        let wire = len as usize;
        if wire < 18 || wire > data.len() {
            return Delivery::Malformed;
        }
        let payload = slice_bytes(data, ETHERNET_HEADER_LEN, wire - CRC_LEN);
        let taken = ip_queue.add_data(&payload);
        Delivery::Ip(taken)
    } else if data[12] == 0x08 && data[13] == 0x06 {
        if cap < 42 {
            return Delivery::Malformed;
        }
        let mut message: [u8; 28] = [0; 28];
        let mut i: usize = 0;
        while i < 28
            invariant
                i <= 28,
                data.len() >= 42,
                forall|k: int| 0 <= k < i ==> message@[k] == data@[14 + k],
            decreases 28 - i,
        {
            message[i] = data[14 + i];
            i = i + 1;
        }
        assert(message@ =~= data@.subrange(14, 42));
        arp_queue.add_data(message);
        Delivery::Arp
    } else {
        Delivery::OtherType
    }
}

} // verus!
