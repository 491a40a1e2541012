//! Address resolution: the cache of IP-to-MAC mappings, the queues between
//! the ARP layer and its neighbours, and the request/reply protocol.

use vstd::prelude::*;
use crate::config::{BROADCAST_MAC, GATEWAY_IP, LOCAL_IP, LOCAL_MAC, NETMASK};
use crate::ethernet::{Eth2SendQueue, ETHERTYPE_ARP};
use crate::ip::{ip_from_u8, ip_value};
use crate::keyed::{
    keyed_map, keys_unique, lemma_keyed_map_index, lemma_keyed_map_push, lemma_keyed_map_remove,
    lemma_keyed_map_update,
};

verus! {

/// Opcode of an ARP request.
pub const ARP_REQUEST: u8 = 1;

/// Opcode of an ARP reply.
pub const ARP_REPLY: u8 = 2;

/// Tag of a configured mapping.
pub const STATE_STATIC: u8 = 1;

/// Tag of a learned mapping.
pub const STATE_DYNAMIC: u8 = 2;

/// Tag of a diagnostic mapping.
pub const STATE_LOGGED: u8 = 3;

/// One mapping of the cache.
#[derive(Clone, Copy)]
pub struct ArpCacheEntry {
    pub ip: [u8; 4],
    pub mac: [u8; 6],
    /// 1: static, 2: dynamic, 3: logged.
    pub state: u8,
}

impl ArpCacheEntry {
    /// An entry mapping `in_ip` to `in_mac` with tag `in_state`.
    pub fn new(in_ip: [u8; 4], in_mac: [u8; 6], in_state: u8) -> (e: ArpCacheEntry)
        ensures
            e.ip == in_ip,
            e.mac == in_mac,
            e.state == in_state,
    {
        ArpCacheEntry { ip: in_ip, mac: in_mac, state: in_state }
    }
}

spec fn entry_key() -> spec_fn(ArpCacheEntry) -> Seq<u8> {
    |e: ArpCacheEntry| e.ip@
}

spec fn entry_value() -> spec_fn(ArpCacheEntry) -> (Seq<u8>, u8) {
    |e: ArpCacheEntry| (e.mac@, e.state)
}

/// The cache: at most one entry per IP address, never expiring.
pub struct ArpCacheTable {
    inner: Vec<ArpCacheEntry>,
}

impl View for ArpCacheTable {
    /// IP address to (MAC address, tag).
    type V = Map<Seq<u8>, (Seq<u8>, u8)>;

    closed spec fn view(&self) -> Map<Seq<u8>, (Seq<u8>, u8)> {
        keyed_map(self.inner@, entry_key(), entry_value())
    }
}

fn same_ip(a: &[u8; 4], b: &[u8; 4]) -> (r: bool)
    ensures
        r == (a@ == b@),
{
    let r = a[0] == b[0] && a[1] == b[1] && a[2] == b[2] && a[3] == b[3];
    if r {
        assert(a@ =~= b@);
    } else {
        assert(a@ != b@) by {
            if a@ == b@ {
                assert(a@[0] == b@[0] && a@[1] == b@[1] && a@[2] == b@[2] && a@[3] == b@[3]);
            }
        }
    }
    r
}

fn same_mac(a: &[u8; 6], b: &[u8; 6]) -> (r: bool)
    ensures
        r == (a@ == b@),
{
    let r = a[0] == b[0] && a[1] == b[1] && a[2] == b[2] && a[3] == b[3] && a[4] == b[4] && a[5]
        == b[5];
    if r {
        assert(a@ =~= b@);
    } else {
        assert(a@ != b@) by {
            if a@ == b@ {
                assert(a@[0] == b@[0] && a@[1] == b@[1] && a@[2] == b@[2] && a@[3] == b@[3]
                    && a@[4] == b@[4] && a@[5] == b@[5]);
            }
        }
    }
    r
}

impl ArpCacheTable {
    /// No two entries share an IP address.
    pub closed spec fn wf(&self) -> bool {
        keys_unique(self.inner@, entry_key())
    }

    /// An empty cache.
    pub fn new() -> (t: ArpCacheTable)
        ensures
            t.wf(),
            t@ == Map::<Seq<u8>, (Seq<u8>, u8)>::empty(),
    {
        let t = ArpCacheTable { inner: Vec::new() };
        assert(t@ =~= Map::<Seq<u8>, (Seq<u8>, u8)>::empty());
        t
    }

    fn index_of(&self, ip: &[u8; 4]) -> (r: Option<usize>)
        ensures
            match r {
                Some(i) => i < self.inner@.len() && self.inner@[i as int].ip@ == ip@,
                None => !self@.contains_key(ip@),
            },
    {
        proof {
            lemma_keyed_map_index(self.inner@, entry_key(), entry_value());
        }
        let mut i: usize = 0;
        while i < self.inner.len()
            invariant
                i <= self.inner@.len(),
                forall|j: int| 0 <= j < i ==> self.inner@[j].ip@ != ip@,
            decreases self.inner.len() - i,
        {
            if same_ip(&self.inner[i].ip, ip) {
                return Some(i);
            }
            i = i + 1;
        }
        None
    }

    /// Adds a mapping for an IP address that has none; returns false, and
    /// changes nothing, when it already has one (use `update_entry`).
    pub fn insert_entry(&mut self, element: ArpCacheEntry) -> (r: bool)
        requires
            old(self).wf(),
        ensures
            final(self).wf(),
            r == insert_succeeds(old(self)@, element.ip@),
            final(self)@ == if r {
                old(self)@.insert(element.ip@, (element.mac@, element.state))
            } else {
                old(self)@
            },
    {
        if self.is_existed_ip(element.ip) {
            return false;
        }
        proof {
            lemma_keyed_map_push(self.inner@, element, entry_key(), entry_value());
        }
        self.inner.push(element);
        true
    }

    /// Removes the entry with the IP and MAC address of `element`; returns
    /// whether there was one.
    pub fn delete_entry(&mut self, element: ArpCacheEntry) -> (r: bool)
        requires
            old(self).wf(),
        ensures
            final(self).wf(),
            r == (old(self)@.contains_key(element.ip@) && old(self)@[element.ip@].0 == element.mac@),
            final(self)@ == if r {
                old(self)@.remove(element.ip@)
            } else {
                old(self)@
            },
    {
        proof {
            lemma_keyed_map_index(self.inner@, entry_key(), entry_value());
        }
        match self.index_of(&element.ip) {
            Some(i) => {
                assert(entry_key()(self.inner@[i as int]) == element.ip@);
                if same_mac(&self.inner[i].mac, &element.mac) {
                    proof {
                        lemma_keyed_map_remove(self.inner@, i as int, entry_key(), entry_value());
                    }
                    self.inner.remove(i);
                    true
                } else {
                    false
                }
            },
            None => false,
        }
    }

    /// Whether the cache maps `ip`.
    pub fn is_existed_ip(&self, ip: [u8; 4]) -> (r: bool)
        ensures
            r == self@.contains_key(ip@),
    {
        proof {
            lemma_keyed_map_index(self.inner@, entry_key(), entry_value());
        }
        match self.index_of(&ip) {
            Some(i) => {
                assert(entry_key()(self.inner@[i as int]) == ip@);
                true
            },
            None => false,
        }
    }

    /// Sets the MAC address and tag of the entry for `element.ip`; returns
    /// false, and changes nothing, when there is none.
    pub fn update_entry(&mut self, element: ArpCacheEntry) -> (r: bool)
        requires
            old(self).wf(),
        ensures
            final(self).wf(),
            r == old(self)@.contains_key(element.ip@),
            final(self)@ == if r {
                old(self)@.insert(element.ip@, (element.mac@, element.state))
            } else {
                old(self)@
            },
    {
        proof {
            lemma_keyed_map_index(self.inner@, entry_key(), entry_value());
        }
        match self.index_of(&element.ip) {
            Some(i) => {
                assert(entry_key()(self.inner@[i as int]) == element.ip@);
                proof {
                    lemma_keyed_map_update(self.inner@, i as int, element, entry_key(), entry_value());
                }
                self.inner.set(i, element);
                true
            },
            None => false,
        }
    }

    /// The MAC address that `ip` maps to. When there is none, asks for one:
    /// `ip` is queued on `requests`.
    pub fn find_mac_from_ip(&self, ip: [u8; 4], requests: &mut ArpSendRequestQueue) -> (r: Option<[u8; 6]>)
        requires
            self.wf(),
        ensures
            match r {
                Some(mac) => self@.contains_key(ip@) && mac@ == self@[ip@].0,
                None => !self@.contains_key(ip@),
            },
            final(requests)@ == if self@.contains_key(ip@) {
                old(requests)@
            } else {
                old(requests)@.push(ip)
            },
    {
        proof {
            lemma_keyed_map_index(self.inner@, entry_key(), entry_value());
        }
        match self.index_of(&ip) {
            Some(i) => {
                assert(entry_key()(self.inner@[i as int]) == ip@);
                Some(self.inner[i].mac)
            },
            None => {
                requests.add_data(ip);
                None
            },
        }
    }
}

/// Whether `insert_entry` takes a mapping for `ip` into the cache `t`.
pub open spec fn insert_succeeds(t: Map<Seq<u8>, (Seq<u8>, u8)>, ip: Seq<u8>) -> bool {
    !t.contains_key(ip)
}

/// Inserting for an IP address that the cache lacks succeeds; inserting
/// again for the same address then fails, whatever the second mapping, and
/// the first one stays.
pub proof fn lemma_insert_then_insert_again(
    t: Map<Seq<u8>, (Seq<u8>, u8)>,
    ip: Seq<u8>,
    first: (Seq<u8>, u8),
)
    requires
        !t.contains_key(ip),
    ensures
        insert_succeeds(t, ip),
        !insert_succeeds(t.insert(ip, first), ip),
        t.insert(ip, first)[ip] == first,
{
}

/// The 28 bytes of an ARP-over-Ethernet message.
pub open spec fn arp_frame(
    opcode: u8,
    sender_mac: Seq<u8>,
    sender_ip: Seq<u8>,
    target_mac: Seq<u8>,
    target_ip: Seq<u8>,
) -> Seq<u8> {
    seq![0x00u8, 0x01u8, 0x08u8, 0x00u8, 6u8, 4u8, 0x00u8, opcode] + sender_mac + sender_ip
        + target_mac + target_ip
}

/// Whether a message is a request.
pub open spec fn is_request(f: Seq<u8>) -> bool {
    f[6] == 0 && f[7] == ARP_REQUEST
}

/// Whether a message is a reply.
pub open spec fn is_reply(f: Seq<u8>) -> bool {
    f[6] == 0 && f[7] == ARP_REPLY
}

/// The sender MAC address of a message.
pub open spec fn sender_mac(f: Seq<u8>) -> Seq<u8> {
    f.subrange(8, 14)
}

/// The sender IP address of a message.
pub open spec fn sender_ip(f: Seq<u8>) -> Seq<u8> {
    f.subrange(14, 18)
}

/// The target MAC address of a message.
pub open spec fn target_mac(f: Seq<u8>) -> Seq<u8> {
    f.subrange(18, 24)
}

/// The target IP address of a message.
pub open spec fn target_ip(f: Seq<u8>) -> Seq<u8> {
    f.subrange(24, 28)
}

/// The answer this node owes a message: for a request for its own IP
/// address, a reply from its own addresses to the asker's.
pub open spec fn reply_for(f: Seq<u8>) -> Option<Seq<u8>> {
    if is_request(f) && target_ip(f) == LOCAL_IP@ {
        Some(arp_frame(ARP_REPLY, LOCAL_MAC@, LOCAL_IP@, sender_mac(f), sender_ip(f)))
    } else {
        None
    }
}

/// Whether two addresses lie in this node's subnet together.
pub open spec fn same_subnet(a: [u8; 4], b: [u8; 4]) -> bool {
    ip_value(a) & ip_value(NETMASK) == ip_value(b) & ip_value(NETMASK)
}

/// Whom to ask for `ip`: itself in this node's subnet, else the gateway.
pub open spec fn resolution_target(ip: [u8; 4]) -> [u8; 4] {
    if same_subnet(ip, LOCAL_IP) {
        ip
    } else {
        GATEWAY_IP
    }
}

fn copy_into(f: &mut [u8; 28], at: usize, src: &[u8]) 
    requires
        at + src@.len() <= 28,
    ensures
        final(f)@ == old(f)@.subrange(0, at as int) + src@ + old(f)@.subrange(
            at + src@.len(),
            28,
        ),
{
    let mut i: usize = 0;
    while i < src.len()
        invariant
            i <= src@.len(),
            at + src@.len() <= 28,
            f@ == old(f)@.subrange(0, at as int) + src@.subrange(0, i as int) + old(f)@.subrange(
                at + i,
                28,
            ),
        decreases src.len() - i,
    {
        f[at + i] = src[i];
        i = i + 1;
        assert(f@ =~= old(f)@.subrange(0, at as int) + src@.subrange(0, i as int) + old(
            f,
        )@.subrange(at + i, 28));
    }
    assert(src@.subrange(0, i as int) =~= src@);
}

/// Builds an ARP-over-Ethernet message.
pub fn build_arp_frame(
    opcode: u8,
    sender_mac: &[u8; 6],
    sender_ip: &[u8; 4],
    target_mac: &[u8; 6],
    target_ip: &[u8; 4],
) -> (r: [u8; 28])
    ensures
        r@ == arp_frame(opcode, sender_mac@, sender_ip@, target_mac@, target_ip@),
{
    let mut f: [u8; 28] = [0; 28];
    f[1] = 0x01;
    f[2] = 0x08;
    f[4] = 6;
    f[5] = 4;
    f[7] = opcode;
    copy_into(&mut f, 8, sender_mac.as_slice());
    copy_into(&mut f, 14, sender_ip.as_slice());
    copy_into(&mut f, 18, target_mac.as_slice());
    copy_into(&mut f, 24, target_ip.as_slice());
    assert(f@ =~= arp_frame(opcode, sender_mac@, sender_ip@, target_mac@, target_ip@));
    f
}

/// The reply this node owes `request`, if any.
pub fn arp_reply_for(request: &[u8; 28]) -> (r: Option<[u8; 28]>)
    ensures
        match r {
            Some(f) => reply_for(request@) == Some(f@),
            None => reply_for(request@) is None,
        },
{
    if request[6] != 0x00 || request[7] != ARP_REPLY - 1 {
        return None;
    }
    let target: [u8; 4] = [request[24], request[25], request[26], request[27]];
    assert(target@ =~= target_ip(request@));
    if !same_ip(&target, &LOCAL_IP) {
        return None;
    }
    let dest_mac: [u8; 6] = [request[8], request[9], request[10], request[11], request[12], request[13]];
    let dest_ip: [u8; 4] = [request[14], request[15], request[16], request[17]];
    assert(dest_mac@ =~= sender_mac(request@));
    assert(dest_ip@ =~= sender_ip(request@));
    Some(build_arp_frame(ARP_REPLY, &LOCAL_MAC, &LOCAL_IP, &dest_mac, &dest_ip))
}

/// Whom to ask for `ip`.
pub fn resolve_target(ip: [u8; 4]) -> (r: [u8; 4])
    ensures
        r == resolution_target(ip),
{
    let mask = ip_from_u8(NETMASK[0], NETMASK[1], NETMASK[2], NETMASK[3]);
    let local = ip_from_u8(LOCAL_IP[0], LOCAL_IP[1], LOCAL_IP[2], LOCAL_IP[3]);
    let dest = ip_from_u8(ip[0], ip[1], ip[2], ip[3]);
    if dest & mask == local & mask {
        ip
    } else {
        GATEWAY_IP
    }
}

/// The broadcast request that asks who has `ip` (or the gateway, for an
/// address outside this node's subnet).
pub fn build_arp_request(ip: [u8; 4]) -> (r: [u8; 28])
    ensures
        r@ == arp_frame(
            ARP_REQUEST,
            LOCAL_MAC@,
            LOCAL_IP@,
            Seq::new(6, |k: int| 0u8),
            resolution_target(ip)@,
        ),
{
    let target = resolve_target(ip);
    let zero: [u8; 6] = [0; 6];
    assert(zero@ =~= Seq::new(6, |k: int| 0u8));
    build_arp_frame(ARP_REQUEST, &LOCAL_MAC, &LOCAL_IP, &zero, &target)
}

/// Messages from the link layer, waiting for the ARP layer.
pub struct ArpReceiveQueue(std::collections::VecDeque<[u8; 28]>);

impl View for ArpReceiveQueue {
    type V = Seq<Seq<u8>>;

    closed spec fn view(&self) -> Seq<Seq<u8>> {
        self.0@.map_values(|f: [u8; 28]| f@)
    }
}

impl ArpReceiveQueue {
    /// Every queued message is 28 bytes long.
    pub proof fn lemma_messages_len(&self)
        ensures
            forall|i: int| 0 <= i < self@.len() ==> #[trigger] self@[i].len() == 28,
    {
    }

    /// An empty queue.
    pub fn new() -> (q: Self)
        ensures
            q@ == Seq::<Seq<u8>>::empty(),
    {
        let q = ArpReceiveQueue(std::collections::VecDeque::new());
        assert(q@ =~= Seq::<Seq<u8>>::empty());
        q
    }

    /// Appends a message.
    pub fn add_data(&mut self, buffer: [u8; 28]) -> (r: bool)
        ensures
            r,
            final(self)@ == old(self)@.push(buffer@),
    {
        assert(self.0@.push(buffer).map_values(|f: [u8; 28]| f@) =~= self@.push(buffer@));
        self.0.push_back(buffer);
        true
    }

    /// Removes and returns the oldest message.
    pub fn get_data(&mut self) -> (r: Option<[u8; 28]>)
        ensures
            match r {
                Some(f) => old(self)@.len() > 0 && f@ == old(self)@[0] && final(self)@ == old(
                    self,
                )@.drop_first(),
                None => old(self)@.len() == 0 && final(self)@ == old(self)@,
            },
    {
        proof {
            if self.0@.len() > 0 {
                assert(self.0@.subrange(1, self.0@.len() as int).map_values(|f: [u8; 28]| f@)
                    =~= self@.drop_first());
            }
        }
        self.0.pop_front()
    }

    /// Whether the queue holds nothing.
    pub fn is_empty(&self) -> (r: bool)
        ensures
            r == (self@.len() == 0),
    {
        self.0.len() == 0
    }
}

/// Replies waiting to be sent.
pub struct ArpSendReplyQueue(std::collections::VecDeque<[u8; 28]>);

impl View for ArpSendReplyQueue {
    type V = Seq<Seq<u8>>;

    closed spec fn view(&self) -> Seq<Seq<u8>> {
        self.0@.map_values(|f: [u8; 28]| f@)
    }
}

impl ArpSendReplyQueue {
    /// Every queued message is 28 bytes long.
    pub proof fn lemma_messages_len(&self)
        ensures
            forall|i: int| 0 <= i < self@.len() ==> #[trigger] self@[i].len() == 28,
    {
    }

    /// An empty queue.
    pub fn new() -> (q: Self)
        ensures
            q@ == Seq::<Seq<u8>>::empty(),
    {
        let q = ArpSendReplyQueue(std::collections::VecDeque::new());
        assert(q@ =~= Seq::<Seq<u8>>::empty());
        q
    }

    /// Appends a reply.
    pub fn add_data(&mut self, arp_frame: [u8; 28]) -> (r: bool)
        ensures
            r,
            final(self)@ == old(self)@.push(arp_frame@),
    {
        assert(self.0@.push(arp_frame).map_values(|f: [u8; 28]| f@) =~= self@.push(arp_frame@));
        self.0.push_back(arp_frame);
        true
    }

    /// Removes and returns the oldest reply.
    pub fn get_data(&mut self) -> (r: Option<[u8; 28]>)
        ensures
            match r {
                Some(f) => old(self)@.len() > 0 && f@ == old(self)@[0] && final(self)@ == old(
                    self,
                )@.drop_first(),
                None => old(self)@.len() == 0 && final(self)@ == old(self)@,
            },
    {
        proof {
            if self.0@.len() > 0 {
                assert(self.0@.subrange(1, self.0@.len() as int).map_values(|f: [u8; 28]| f@)
                    =~= self@.drop_first());
            }
        }
        self.0.pop_front()
    }

    /// Whether the queue holds nothing.
    pub fn is_empty(&self) -> (r: bool)
        ensures
            r == (self@.len() == 0),
    {
        self.0.len() == 0
    }
}

/// IP addresses waiting to be asked for.
pub struct ArpSendRequestQueue(std::collections::VecDeque<[u8; 4]>);

impl View for ArpSendRequestQueue {
    type V = Seq<[u8; 4]>;

    closed spec fn view(&self) -> Seq<[u8; 4]> {
        self.0@
    }
}

impl ArpSendRequestQueue {
    /// An empty queue.
    pub fn new() -> (q: Self)
        ensures
            q@ == Seq::<[u8; 4]>::empty(),
    {
        ArpSendRequestQueue(std::collections::VecDeque::new())
    }

    /// Appends an address to ask for.
    pub fn add_data(&mut self, ip: [u8; 4]) -> (r: bool)
        ensures
            r,
            final(self)@ == old(self)@.push(ip),
    {
        self.0.push_back(ip);
        true
    }

    /// Removes and returns the oldest address.
    pub fn get_data(&mut self) -> (r: Option<[u8; 4]>)
        ensures
            match r {
                Some(ip) => old(self)@.len() > 0 && ip == old(self)@[0] && final(self)@ == old(
                    self,
                )@.drop_first(),
                None => old(self)@.len() == 0 && final(self)@ == old(self)@,
            },
    {
        self.0.pop_front()
    }

    /// Whether the queue holds nothing.
    pub fn is_empty(&self) -> (r: bool)
        ensures
            r == (self@.len() == 0),
    {
        self.0.len() == 0
    }
}

/// The request that asks for `ip`.
pub open spec fn request_bytes(ip: [u8; 4]) -> Seq<u8> {
    arp_frame(ARP_REQUEST, LOCAL_MAC@, LOCAL_IP@, Seq::new(6, |k: int| 0u8), resolution_target(ip)@)
}

/// Takes the oldest message from `arp_queue`. A reply teaches the cache its
/// sender's mapping, tagged dynamic, replacing any earlier one; a request
/// for this node's address is answered on `reply_queue`; anything else is
/// dropped. Returns whether there was a message.
pub fn receive(
    table: &mut ArpCacheTable,
    arp_queue: &mut ArpReceiveQueue,
    reply_queue: &mut ArpSendReplyQueue,
) -> (r: bool)
    requires
        old(table).wf(),
    ensures
        final(table).wf(),
        r == (old(arp_queue)@.len() > 0),
        r ==> old(arp_queue)@[0].len() == 28,
        !r ==> final(arp_queue)@ == old(arp_queue)@ && final(table)@ == old(table)@
            && final(reply_queue)@ == old(reply_queue)@,
        r ==> final(arp_queue)@ == old(arp_queue)@.drop_first() && final(table)@ == (if is_reply(
            old(arp_queue)@[0],
        ) {
            old(table)@.insert(
                sender_ip(old(arp_queue)@[0]),
                (sender_mac(old(arp_queue)@[0]), STATE_DYNAMIC),
            )
        } else {
            old(table)@
        }) && final(reply_queue)@ == match reply_for(old(arp_queue)@[0]) {
            Some(a) => old(reply_queue)@.push(a),
            None => old(reply_queue)@,
        },
{
    let f = match arp_queue.get_data() {
        Some(f) => f,
        None => {
            return false;
        },
    };
    if f[6] == 0x00 && f[7] == ARP_REPLY {
        let ip: [u8; 4] = [f[14], f[15], f[16], f[17]];
        let mac: [u8; 6] = [f[8], f[9], f[10], f[11], f[12], f[13]];
        assert(ip@ =~= sender_ip(f@));
        assert(mac@ =~= sender_mac(f@));
        let entry = ArpCacheEntry::new(ip, mac, STATE_DYNAMIC);
        if table.is_existed_ip(ip) {
            table.update_entry(entry);
        } else {
            table.insert_entry(entry);
        }
        assert(reply_for(f@) is None);
    } else {
        match arp_reply_for(&f) {
            Some(a) => {
                reply_queue.add_data(a);
            },
            None => {},
        }
    }
    true
}

/// Sends one message: the oldest waiting reply, to the MAC address it
/// targets; else a broadcast request for the oldest address waiting to be
/// resolved, unless the cache has learned it meanwhile. Returns whether
/// either queue held anything.
pub fn send(
    eth_queue: &mut Eth2SendQueue,
    reply_queue: &mut ArpSendReplyQueue,
    request_queue: &mut ArpSendRequestQueue,
    table: &ArpCacheTable,
) -> (r: bool)
    ensures
        r == (old(reply_queue)@.len() > 0 || old(request_queue)@.len() > 0),
        !r ==> final(eth_queue)@ == old(eth_queue)@ && final(reply_queue)@ == old(reply_queue)@
            && final(request_queue)@ == old(request_queue)@,
        old(reply_queue)@.len() > 0 ==> {
            &&& old(reply_queue)@[0].len() == 28
            &&& final(reply_queue)@ == old(reply_queue)@.drop_first()
            &&& final(request_queue)@ == old(request_queue)@
            &&& final(eth_queue)@.len() == old(eth_queue)@.len() + 1
            &&& final(eth_queue)@.drop_last() == old(eth_queue)@
            &&& final(eth_queue)@.last().0@ == target_mac(old(reply_queue)@[0])
            &&& final(eth_queue)@.last().1 == ETHERTYPE_ARP
            &&& final(eth_queue)@.last().2 == old(reply_queue)@[0]
        },
        old(reply_queue)@.len() == 0 && old(request_queue)@.len() > 0 ==> {
            &&& final(reply_queue)@ == old(reply_queue)@
            &&& final(request_queue)@ == old(request_queue)@.drop_first()
            &&& final(eth_queue)@ == if table@.contains_key(old(request_queue)@[0]@) {
                old(eth_queue)@
            } else {
                old(eth_queue)@.push(
                    (BROADCAST_MAC, ETHERTYPE_ARP, request_bytes(old(request_queue)@[0])),
                )
            }
        },
{
    if !reply_queue.is_empty() {
        let f = reply_queue.get_data().unwrap();
        let dest_mac: [u8; 6] = [f[18], f[19], f[20], f[21], f[22], f[23]];
        assert(dest_mac@ =~= target_mac(f@));
        let bytes = crate::bytes::array28_bytes(&f);
        eth_queue.add_data(dest_mac, ETHERTYPE_ARP, &bytes);
        true
    } else if !request_queue.is_empty() {
        let ip = request_queue.get_data().unwrap();
        if table.is_existed_ip(ip) {
            return true;
        }
        let f = build_arp_request(ip);
        let bytes = crate::bytes::array28_bytes(&f);
        eth_queue.add_data(BROADCAST_MAC, ETHERTYPE_ARP, &bytes);
        true
    } else {
        false
    }
}

} // verus!
