//! Outbound fragmentation: a payload is cut into slices of at most 1400
//! bytes, each sent as one IPv4 datagram under a shared ID.

use vstd::prelude::*;
use crate::bytes::{append_bytes, slice_bytes};
use crate::checksum::ones_complement_checksum;
use crate::ip::{
    header_words, ip_from_u8, ip_value, pair_word, u8_from_u16, with_check_sum, words_to_bytes,
    lemma_words_to_bytes, IpHeader, DONT_FRAGMENT, IP_HEADER_LEN, MORE_FRAGMENTS, UDP_PROTOCOL,
};
use crate::queue::{contents, lemma_contents_push, SendQueue};
use crate::arp::{ArpCacheTable, ArpSendRequestQueue};
use crate::ethernet::{Eth2SendQueue, ETHERTYPE_IPV4};
use crate::reassembly::MAX_DATAGRAM_LEN;

verus! {

/// The most payload bytes one fragment carries.
pub const DATA_SLICE_LEN: usize = 1400;

/// The ID every outgoing datagram carries.
pub const DATAGRAM_ID: u16 = 2023;

/// Version 4, header length 15 words (60 bytes).
pub const VERSION_AND_HDRLEN: u8 = 0x4f;

/// The type-of-service byte of outgoing datagrams.
pub const TYPE_OF_SERVICE: u8 = 0xfe;

/// The time-to-live of outgoing datagrams.
pub const TIME_TO_LIVE: u8 = 64;

/// How many datagrams a payload of `len` bytes is cut into.
pub open spec fn slice_count(len: int) -> int {
    len / 1400 + 1
}

/// The payload of fragment `i`: a full slice, or what is left for the last.
pub open spec fn fragment_payload(p: Seq<u8>, i: int) -> Seq<u8> {
    if i < slice_count(p.len() as int) - 1 {
        p.subrange(i * 1400, i * 1400 + 1400)
    } else {
        p.subrange(i * 1400, p.len() as int)
    }
}

/// The flags-and-offset word of fragment `i` of `n`: Don't-Fragment alone
/// when there is one fragment; else More-Fragments on all but the last, and
/// the offset `i * 1400 / 8` in 8-byte units.
pub open spec fn fragment_flags(i: int, n: int) -> u16 {
    if n == 1 {
        0x4000
    } else if i < n - 1 {
        (0x2000 + i * 175) as u16
    } else {
        (i * 175) as u16
    }
}

/// The header words of fragment `i` of payload `p`, checksum zero.
pub open spec fn unchecked_fragment_words(p: Seq<u8>, i: int, protocol: u8, src: u32, dst: u32) -> Seq<u16> {
    seq![
        pair_word(VERSION_AND_HDRLEN, TYPE_OF_SERVICE),
        (IP_HEADER_LEN + fragment_payload(p, i).len()) as u16,
        DATAGRAM_ID,
        fragment_flags(i, slice_count(p.len() as int)),
        pair_word(TIME_TO_LIVE, protocol),
        0u16,
        (src / 65536) as u16,
        (src % 65536) as u16,
        (dst / 65536) as u16,
        (dst % 65536) as u16,
    ] + Seq::new(20, |k: int| 0u16)
}

/// The header words of fragment `i`, checksum in place.
pub open spec fn fragment_words(p: Seq<u8>, i: int, protocol: u8, src: u32, dst: u32) -> Seq<u16> {
    let w = unchecked_fragment_words(p, i, protocol, src, dst);
    w.update(5, ones_complement_checksum(w))
}

/// The wire bytes of fragment `i`: its 60-byte header, then its payload.
pub open spec fn fragment_bytes(p: Seq<u8>, i: int, protocol: u8, src: u32, dst: u32) -> Seq<u8> {
    words_to_bytes(fragment_words(p, i, protocol, src, dst)) + fragment_payload(p, i)
}

/// All datagrams that carry `p`, in order.
pub open spec fn fragments_of(p: Seq<u8>, protocol: u8, src: u32, dst: u32) -> Seq<Seq<u8>> {
    Seq::new(
        slice_count(p.len() as int) as nat,
        |i: int| fragment_bytes(p, i, protocol, src, dst),
    )
}

pub proof fn lemma_slice_bounds(len: int, i: int)
    requires
        0 <= len <= MAX_DATAGRAM_LEN,
        0 <= i < slice_count(len),
    ensures
        i * 1400 <= len,
        i < slice_count(len) - 1 ==> i * 1400 + 1400 <= len,
        i <= 46,
        i * 175 < 8192,
        slice_count(len) <= 47,
{
    assert(i * 1400 <= (len / 1400) * 1400) by (nonlinear_arith)
        requires
            i <= len / 1400,
    ;
    if i < slice_count(len) - 1 {
        assert(i * 1400 + 1400 <= (len / 1400) * 1400) by (nonlinear_arith)
            requires
                i + 1 <= len / 1400,
        ;
    }
}

/// The payload of a fragment is at most one slice long.
pub proof fn lemma_fragment_payload_len(p: Seq<u8>, i: int)
    requires
        p.len() <= MAX_DATAGRAM_LEN,
        0 <= i < slice_count(p.len() as int),
    ensures
        fragment_payload(p, i).len() <= 1400,
        i < slice_count(p.len() as int) - 1 ==> fragment_payload(p, i).len() == 1400,
{
    lemma_slice_bounds(p.len() as int, i);
    assert(p.len() - (p.len() / 1400) * 1400 < 1400);
}

/// Builds the wire bytes of fragment `i` of `data`.
fn build_fragment(data: &Vec<u8>, i: usize, protocol: u8, src: u32, dst: u32) -> (r: Vec<u8>)
    requires
        data.len() <= MAX_DATAGRAM_LEN,
        i < slice_count(data.len() as int),
    ensures
        r@ == fragment_bytes(data@, i as int, protocol, src, dst),
{
    let n = data.len() / DATA_SLICE_LEN + 1;
    proof {
        lemma_slice_bounds(data.len() as int, i as int);
        lemma_fragment_payload_len(data@, i as int);
    }
    let payload = if i < n - 1 {
        slice_bytes(data, i * DATA_SLICE_LEN, (i + 1) * DATA_SLICE_LEN)
    } else {
        slice_bytes(data, i * DATA_SLICE_LEN, data.len())
    };
    assert(payload@ == fragment_payload(data@, i as int));
    let offset = (i * DATA_SLICE_LEN / 8) as u16;
    assert(offset == i * 175);
    let flags: u16 = if n == 1 {
        DONT_FRAGMENT
    } else if i < n - 1 {
        MORE_FRAGMENTS | offset
    } else {
        offset
    };
    proof {
        assert(offset < 8192 ==> 0x2000u16 | offset == 0x2000 + offset) by (bit_vector);
    }
    assert(flags == fragment_flags(i as int, n as int));
    let optional: [u8; 40] = [0; 40];
    let hdr = IpHeader::new(
        VERSION_AND_HDRLEN,
        TYPE_OF_SERVICE,
        (IP_HEADER_LEN + payload.len()) as u16,
        DATAGRAM_ID,
        flags,
        TIME_TO_LIVE,
        protocol,
        src,
        dst,
        optional,
    );
    let words = hdr.into_u16_array();
    proof {
        let w = unchecked_fragment_words(data@, i as int, protocol, src, dst);
        assert(pair_word(0, 0) == 0);
        assert(header_words(with_check_sum(hdr, 0)) =~= w);
        assert(header_words(hdr) =~= w.update(5, hdr.check_sum));
    }
    let mut r = u8_from_u16(&words);
    append_bytes(&mut r, &payload);
    r
}

/// Cuts `data` into datagrams from `src` to `dst` carrying `protocol`.
pub fn fragment_datagram(data: &Vec<u8>, protocol: u8, src: u32, dst: u32) -> (r: Vec<Vec<u8>>)
    requires
        data.len() <= MAX_DATAGRAM_LEN,
    ensures
        contents(r@) == fragments_of(data@, protocol, src, dst),
{
    let n = data.len() / DATA_SLICE_LEN + 1;
    let mut r: Vec<Vec<u8>> = Vec::new();
    let mut i: usize = 0;
    while i < n
        invariant
            n == slice_count(data.len() as int),
            data.len() <= MAX_DATAGRAM_LEN,
            i <= n,
            contents(r@) == fragments_of(data@, protocol, src, dst).subrange(0, i as int),
        decreases n - i,
    {
        let f = build_fragment(data, i, protocol, src, dst);
        proof {
            lemma_contents_push(r@, f);
        }
        r.push(f);
        i = i + 1;
        assert(contents(r@) =~= fragments_of(data@, protocol, src, dst).subrange(0, i as int));
    }
    assert(fragments_of(data@, protocol, src, dst).subrange(0, n as int) =~= fragments_of(
        data@,
        protocol,
        src,
        dst,
    ));
    r
}

/// Loads a payload into the link layer's send queue as UDP datagrams from
/// and to 192.168.31.1, one per fragment. A payload longer than the largest
/// datagram is refused and nothing is queued.
pub fn load_ip_data(data: &Vec<u8>, send_queue: &mut SendQueue) -> (r: bool)
    ensures
        r == (data@.len() <= MAX_DATAGRAM_LEN),
        final(send_queue)@ == if r {
            old(send_queue)@ + fragments_of(
                data@,
                UDP_PROTOCOL,
                ip_from_u8_spec(192, 168, 31, 1),
                ip_from_u8_spec(192, 168, 31, 1),
            )
        } else {
            old(send_queue)@
        },
{
    if data.len() > MAX_DATAGRAM_LEN as usize {
        return false;
    }
    let host = ip_from_u8(192, 168, 31, 1);
    let frames = fragment_datagram(data, UDP_PROTOCOL, host, host);
    let ghost all = fragments_of(data@, UDP_PROTOCOL, host, host);
    let ghost q0 = send_queue@;
    assert(frames@.len() == contents(frames@).len());
    let mut i: usize = 0;
    while i < frames.len()
        invariant
            i <= frames.len(),
            data.len() <= MAX_DATAGRAM_LEN,
            contents(frames@) == all,
            frames@.len() == all.len(),
            all.len() == slice_count(data.len() as int),
            all == fragments_of(data@, UDP_PROTOCOL, host, host),
            send_queue@ == q0 + all.subrange(0, i as int),
        decreases frames.len() - i,
    {
        proof {
            assert(frames@[i as int]@ == all[i as int]);
            lemma_fragment_len(data@, i as int, UDP_PROTOCOL, host, host);
        }
        send_queue.add_data(&frames[i]);
        i = i + 1;
        assert(send_queue@ =~= q0 + all.subrange(0, i as int));
    }
    assert(all.subrange(0, i as int) =~= all);
    true
}

/// The address that `ip_from_u8` packs.
pub open spec fn ip_from_u8_spec(a: u8, b: u8, c: u8, d: u8) -> u32 {
    (a as int * 16777216 + b as int * 65536 + c as int * 256 + d as int) as u32
}

/// Every fragment is between 60 and 1460 bytes long, so it fits in one
/// frame.
pub proof fn lemma_fragment_len(p: Seq<u8>, i: int, protocol: u8, src: u32, dst: u32)
    requires
        p.len() <= MAX_DATAGRAM_LEN,
        0 <= i < slice_count(p.len() as int),
    ensures
        fragment_bytes(p, i, protocol, src, dst).len() == IP_HEADER_LEN + fragment_payload(p, i).len(),
        IP_HEADER_LEN <= fragment_bytes(p, i, protocol, src, dst).len() <= IP_HEADER_LEN + 1400,
{
    lemma_words_to_bytes(fragment_words(p, i, protocol, src, dst));
    lemma_fragment_payload_len(p, i);
}

/// A payload waiting for the IP layer, with the protocol that sent it.
pub struct IPSendQueueElement {
    pub protocol_type: u8,
    pub data: Vec<u8>,
}

/// The queue of payloads handed down to the IP layer by upper protocols.
pub struct IPSendQueue(std::collections::VecDeque<IPSendQueueElement>);

/// The (protocol, bytes) of each queued payload.
pub open spec fn ip_elements(q: Seq<IPSendQueueElement>) -> Seq<(u8, Seq<u8>)> {
    q.map_values(|e: IPSendQueueElement| (e.protocol_type, e.data@))
}

impl View for IPSendQueue {
    type V = Seq<(u8, Seq<u8>)>;

    closed spec fn view(&self) -> Seq<(u8, Seq<u8>)> {
        ip_elements(self.0@)
    }
}

impl IPSendQueue {
    /// An empty queue.
    pub fn new() -> (q: Self)
        ensures
            q@ == Seq::<(u8, Seq<u8>)>::empty(),
    {
        let q = IPSendQueue(std::collections::VecDeque::new());
        assert(q@ =~= Seq::<(u8, Seq<u8>)>::empty());
        q
    }

    /// Appends a payload from an upper protocol.
    pub fn add_data(&mut self, data: Vec<u8>, protocol_type: u8) -> (r: bool)
        ensures
            r,
            final(self)@ == old(self)@.push((protocol_type, data@)),
    {
        let e = IPSendQueueElement { protocol_type, data };
        assert(ip_elements(self.0@.push(e)) =~= ip_elements(self.0@).push((protocol_type, e.data@)));
        self.0.push_back(e);
        true
    }

    /// Removes and returns the oldest payload.
    pub fn get_data(&mut self) -> (r: Option<IPSendQueueElement>)
        ensures
            match r {
                Some(e) => old(self)@.len() > 0 && (e.protocol_type, e.data@) == old(self)@[0]
                    && final(self)@ == old(self)@.drop_first(),
                None => old(self)@.len() == 0 && final(self)@ == old(self)@,
            },
    {
        proof {
            if self.0@.len() > 0 {
                assert(ip_elements(self.0@.subrange(1, self.0@.len() as int)) =~= ip_elements(
                    self.0@,
                ).drop_first());
            }
        }
        self.0.pop_front()
    }

    /// Whether the queue holds nothing.
    pub fn is_empty(&self) -> (r: bool)
        ensures
            r == (self@.len() == 0),
    {
        self.0.len() == 0
    }
}

/// The datagrams of an optional list of them.
pub open spec fn opt_frames(r: Option<Vec<Vec<u8>>>) -> Option<Seq<Seq<u8>>> {
    match r {
        Some(v) => Some(contents(v@)),
        None => None,
    }
}

/// Takes the oldest payload from `ip_queue` and cuts it into datagrams from
/// `source` to `destination`. None when the queue is empty, or when the
/// payload is longer than the largest datagram (it is then dropped).
pub fn send(ip_queue: &mut IPSendQueue, source: [u8; 4], destination: [u8; 4]) -> (r: Option<Vec<Vec<u8>>>)
    ensures
        old(ip_queue)@.len() == 0 ==> r is None && final(ip_queue)@ == old(ip_queue)@,
        old(ip_queue)@.len() > 0 ==> final(ip_queue)@ == old(ip_queue)@.drop_first() && opt_frames(r)
            == if old(ip_queue)@[0].1.len() <= MAX_DATAGRAM_LEN {
            Some(
                fragments_of(
                    old(ip_queue)@[0].1,
                    old(ip_queue)@[0].0,
                    ip_value(source),
                    ip_value(destination),
                ),
            )
        } else {
            None
        },
{
    let element = match ip_queue.get_data() {
        Some(e) => e,
        None => {
            return None;
        },
    };
    if element.data.len() > MAX_DATAGRAM_LEN as usize {
        return None;
    }
    let src = ip_from_u8(source[0], source[1], source[2], source[3]);
    let dst = ip_from_u8(destination[0], destination[1], destination[2], destination[3]);
    Some(fragment_datagram(&element.data, element.protocol_type, src, dst))
}

/// Hands one datagram to the link layer, addressed to the MAC address that
/// the cache holds for `destination`. When it holds none, nothing is sent,
/// `destination` is queued for resolution, and false is returned: the
/// caller tries again once the cache has learned it.
pub fn send_fragment(
    fragment: &Vec<u8>,
    destination: [u8; 4],
    table: &ArpCacheTable,
    requests: &mut ArpSendRequestQueue,
    eth_queue: &mut Eth2SendQueue,
) -> (r: bool)
    requires
        table.wf(),
    ensures
        r == table@.contains_key(destination@),
        final(requests)@ == if r {
            old(requests)@
        } else {
            old(requests)@.push(destination)
        },
        !r ==> final(eth_queue)@ == old(eth_queue)@,
        r ==> {
            &&& final(eth_queue)@.len() == old(eth_queue)@.len() + 1
            &&& final(eth_queue)@.drop_last() == old(eth_queue)@
            &&& final(eth_queue)@.last().0@ == table@[destination@].0
            &&& final(eth_queue)@.last().1 == ETHERTYPE_IPV4
            &&& final(eth_queue)@.last().2 == fragment@
        },
{
    match table.find_mac_from_ip(destination, requests) {
        Some(mac) => {
            eth_queue.add_data(mac, ETHERTYPE_IPV4, fragment);
            true
        },
        None => false,
    }
}

} // verus!
