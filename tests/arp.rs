use netstack::arp::{
    arp_reply_for, build_arp_frame, build_arp_request, receive, resolve_target, send, ArpCacheEntry,
    ArpCacheTable, ArpReceiveQueue, ArpSendReplyQueue, ArpSendRequestQueue,
};
use netstack::config::{BROADCAST_MAC, GATEWAY_IP, LOCAL_IP, LOCAL_MAC};
use netstack::ethernet::Eth2SendQueue;

const ASKER_MAC: [u8; 6] = [0x14, 0x5A, 0xFC, 0x15, 0x1A, 0x8D];
const ASKER_IP: [u8; 4] = [10, 10, 10, 7];

#[test]
fn cache_insert_once_then_update() {
    let mut t = ArpCacheTable::new();
    let ip = [10, 10, 10, 9];
    assert!(!t.is_existed_ip(ip));
    assert!(t.insert_entry(ArpCacheEntry::new(ip, [1, 1, 1, 1, 1, 1], 2)));
    assert!(t.is_existed_ip(ip));
    assert!(!t.insert_entry(ArpCacheEntry::new(ip, [2, 2, 2, 2, 2, 2], 2)));
    let mut req = ArpSendRequestQueue::new();
    assert_eq!(t.find_mac_from_ip(ip, &mut req), Some([1, 1, 1, 1, 1, 1]));
    assert!(t.update_entry(ArpCacheEntry::new(ip, [2, 2, 2, 2, 2, 2], 1)));
    assert_eq!(t.find_mac_from_ip(ip, &mut req), Some([2, 2, 2, 2, 2, 2]));
    assert!(!t.update_entry(ArpCacheEntry::new([10, 10, 10, 10], [3; 6], 2)));
    assert!(req.is_empty());
}

#[test]
fn cache_miss_queues_exactly_one_request() {
    let t = ArpCacheTable::new();
    let mut req = ArpSendRequestQueue::new();
    assert_eq!(t.find_mac_from_ip([10, 10, 10, 9], &mut req), None);
    assert_eq!(req.get_data(), Some([10, 10, 10, 9]));
    assert!(req.is_empty());
}

#[test]
fn cache_delete_needs_matching_mac() {
    let mut t = ArpCacheTable::new();
    let ip = [10, 10, 10, 9];
    assert!(t.insert_entry(ArpCacheEntry::new(ip, [1; 6], 2)));
    assert!(!t.delete_entry(ArpCacheEntry::new(ip, [2; 6], 2)));
    assert!(t.is_existed_ip(ip));
    assert!(t.delete_entry(ArpCacheEntry::new(ip, [1; 6], 2)));
    assert!(!t.is_existed_ip(ip));
    assert!(!t.delete_entry(ArpCacheEntry::new(ip, [1; 6], 2)));
}

#[test]
fn reply_to_request_for_local_address() {
    let request = build_arp_frame(1, &ASKER_MAC, &ASKER_IP, &[0; 6], &LOCAL_IP);
    let reply = arp_reply_for(&request).unwrap();
    assert_eq!(&reply[0..8], &[0x00, 0x01, 0x08, 0x00, 6, 4, 0x00, 0x02]);
    assert_eq!(&reply[8..14], &LOCAL_MAC);
    assert_eq!(&reply[14..18], &LOCAL_IP);
    assert_eq!(&reply[18..24], &ASKER_MAC);
    assert_eq!(&reply[24..28], &ASKER_IP);
}

#[test]
fn no_reply_to_other_requests_or_replies() {
    let other = build_arp_frame(1, &ASKER_MAC, &ASKER_IP, &[0; 6], &[10, 10, 10, 99]);
    assert!(arp_reply_for(&other).is_none());
    let reply = build_arp_frame(2, &ASKER_MAC, &ASKER_IP, &LOCAL_MAC, &LOCAL_IP);
    assert!(arp_reply_for(&reply).is_none());
}

#[test]
fn request_targets_subnet_member_or_gateway() {
    assert_eq!(resolve_target([10, 10, 12, 5]), [10, 10, 12, 5]);
    assert_eq!(resolve_target([192, 168, 0, 1]), GATEWAY_IP);
    let f = build_arp_request([192, 168, 0, 1]);
    assert_eq!(&f[0..8], &[0x00, 0x01, 0x08, 0x00, 6, 4, 0x00, 0x01]);
    assert_eq!(&f[8..14], &LOCAL_MAC);
    assert_eq!(&f[14..18], &LOCAL_IP);
    assert_eq!(&f[18..24], &[0; 6]);
    assert_eq!(&f[24..28], &GATEWAY_IP);
}

#[test]
fn receive_learns_from_replies_and_answers_requests() {
    let mut table = ArpCacheTable::new();
    let mut inbox = ArpReceiveQueue::new();
    let mut replies = ArpSendReplyQueue::new();
    assert!(!receive(&mut table, &mut inbox, &mut replies));
    inbox.add_data(build_arp_frame(2, &ASKER_MAC, &ASKER_IP, &LOCAL_MAC, &LOCAL_IP));
    inbox.add_data(build_arp_frame(2, &[9; 6], &ASKER_IP, &LOCAL_MAC, &LOCAL_IP));
    inbox.add_data(build_arp_frame(1, &ASKER_MAC, &ASKER_IP, &[0; 6], &LOCAL_IP));
    assert!(receive(&mut table, &mut inbox, &mut replies));
    let mut req = ArpSendRequestQueue::new();
    assert_eq!(table.find_mac_from_ip(ASKER_IP, &mut req), Some(ASKER_MAC));
    assert!(receive(&mut table, &mut inbox, &mut replies));
    assert_eq!(table.find_mac_from_ip(ASKER_IP, &mut req), Some([9; 6]));
    assert!(replies.is_empty());
    assert!(receive(&mut table, &mut inbox, &mut replies));
    let reply = replies.get_data().unwrap();
    assert_eq!(&reply[18..24], &ASKER_MAC);
    assert!(inbox.is_empty());
}

#[test]
fn send_prefers_replies_then_broadcasts_requests() {
    let mut eth = Eth2SendQueue::new();
    let mut replies = ArpSendReplyQueue::new();
    let mut requests = ArpSendRequestQueue::new();
    let mut table = ArpCacheTable::new();
    assert!(!send(&mut eth, &mut replies, &mut requests, &table));
    let reply = build_arp_frame(2, &LOCAL_MAC, &LOCAL_IP, &ASKER_MAC, &ASKER_IP);
    replies.add_data(reply);
    requests.add_data([10, 10, 10, 20]);
    requests.add_data([10, 10, 10, 21]);
    assert!(send(&mut eth, &mut replies, &mut requests, &table));
    let e = eth.get_data().unwrap();
    assert_eq!(e.dest_mac_addr, ASKER_MAC);
    assert_eq!(e.ethernet_type, 0x0806);
    assert_eq!(e.data, reply.to_vec());
    assert!(send(&mut eth, &mut replies, &mut requests, &table));
    let e = eth.get_data().unwrap();
    assert_eq!(e.dest_mac_addr, BROADCAST_MAC);
    assert_eq!(e.data, build_arp_request([10, 10, 10, 20]).to_vec());
    assert!(table.insert_entry(ArpCacheEntry::new([10, 10, 10, 21], [4; 6], 2)));
    assert!(send(&mut eth, &mut replies, &mut requests, &table));
    assert!(eth.is_empty());
    assert!(!send(&mut eth, &mut replies, &mut requests, &table));
}
