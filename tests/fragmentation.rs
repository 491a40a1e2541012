use netstack::arp::{ArpCacheEntry, ArpCacheTable, ArpSendRequestQueue};
use netstack::ethernet::Eth2SendQueue;
use netstack::fragment::{fragment_datagram, load_ip_data, send, send_fragment, IPSendQueue};
use netstack::ip::{ip_from_u8, IpHeader, UDP_PROTOCOL};
use netstack::queue::SendQueue;
use netstack::reassembly::{find_receive_data_queue_len, receive, IpReceiveQueue, ReceiveDataQueue};

fn payload(len: usize) -> Vec<u8> {
    (0..len).map(|i| (i * 7 + 3) as u8).collect()
}

fn deliver_in_order(frames: &[Vec<u8>], order: &[usize]) -> Vec<Option<Vec<u8>>> {
    let mut queue = IpReceiveQueue::new();
    let mut buffers = ReceiveDataQueue::new();
    let mut outs = Vec::new();
    for &k in order {
        assert!(queue.add_data(&frames[k]));
        outs.push(receive(&mut queue, &mut buffers));
    }
    assert!(buffers.find(2023).is_none());
    outs
}

fn check_round_trip(len: usize, order: &[usize]) {
    let data = payload(len);
    let frames = fragment_datagram(&data, UDP_PROTOCOL, ip_from_u8(10, 10, 10, 3), ip_from_u8(10, 10, 10, 4));
    assert_eq!(frames.len(), order.len());
    let outs = deliver_in_order(&frames, order);
    for out in &outs[..outs.len() - 1] {
        assert!(out.is_none());
    }
    assert_eq!(outs[outs.len() - 1].as_ref(), Some(&data));
}

#[test]
fn three_thousand_bytes_make_three_fragments() {
    let data = payload(3000);
    let frames = fragment_datagram(&data, UDP_PROTOCOL, ip_from_u8(10, 10, 10, 3), ip_from_u8(10, 10, 10, 4));
    assert_eq!(frames.len(), 3);
    let lens: Vec<usize> = frames.iter().map(|f| f.len() - 60).collect();
    assert_eq!(lens, vec![1400, 1400, 200]);
    let hdrs: Vec<IpHeader> = frames.iter().map(|f| IpHeader::from_u8(f)).collect();
    let offsets: Vec<u16> = hdrs.iter().map(|h| h.flags_and_fragment_offset & 0x1fff).collect();
    assert_eq!(offsets, vec![0, 175, 350]);
    let more: Vec<u16> = hdrs.iter().map(|h| (h.flags_and_fragment_offset >> 13) & 1).collect();
    assert_eq!(more, vec![1, 1, 0]);
    for h in &hdrs {
        assert_eq!(h.id, 2023);
        assert_eq!((h.flags_and_fragment_offset >> 14) & 1, 0);
        assert_eq!(h.upper_protocol_type, UDP_PROTOCOL);
    }
    assert_eq!(&frames[2][60..], &data[2800..]);
}

#[test]
fn three_thousand_bytes_reassemble_in_scrambled_order() {
    check_round_trip(3000, &[2, 0, 1]);
    check_round_trip(3000, &[1, 2, 0]);
}

#[test]
fn fragments_reassemble_in_reverse_and_in_order() {
    check_round_trip(5000, &[3, 2, 1, 0]);
    check_round_trip(5000, &[0, 1, 2, 3]);
}

#[test]
fn small_payload_is_one_datagram_with_dont_fragment() {
    let data = payload(100);
    let frames = fragment_datagram(&data, 1, ip_from_u8(10, 10, 10, 3), ip_from_u8(10, 10, 10, 4));
    assert_eq!(frames.len(), 1);
    let h = IpHeader::from_u8(&frames[0]);
    assert_eq!(h.flags_and_fragment_offset, 0x4000);
    assert_eq!(h.total_length, 160);
    check_round_trip(100, &[0]);
}

#[test]
fn payload_of_whole_slices_ends_with_an_empty_fragment() {
    let data = payload(2800);
    let frames = fragment_datagram(&data, UDP_PROTOCOL, 1, 2);
    assert_eq!(frames.len(), 3);
    assert_eq!(frames[2].len(), 60);
    check_round_trip(2800, &[2, 1, 0]);
    check_round_trip(2800, &[0, 2, 1]);
}

#[test]
fn empty_payload_round_trips() {
    check_round_trip(0, &[0]);
}

#[test]
fn duplicate_fragment_changes_nothing() {
    let data = payload(3000);
    let frames = fragment_datagram(&data, UDP_PROTOCOL, 1, 2);
    let outs = deliver_in_order(&frames, &[0, 0, 2, 2, 1]);
    assert!(outs[..4].iter().all(|o| o.is_none()));
    assert_eq!(outs[4].as_ref(), Some(&data));
}

#[test]
fn short_datagram_is_dropped() {
    let mut queue = IpReceiveQueue::new();
    let mut buffers = ReceiveDataQueue::new();
    assert!(queue.add_data(&vec![0u8; 50]));
    assert_eq!(receive(&mut queue, &mut buffers), None);
    assert!(queue.is_empty());
    assert_eq!(receive(&mut queue, &mut buffers), None);
}

#[test]
fn load_ip_data_queues_udp_fragments() {
    let mut q = SendQueue::new();
    let data = payload(3000);
    assert!(load_ip_data(&data, &mut q));
    let mut seen = Vec::new();
    while let Some(f) = q.get_data() {
        let h = IpHeader::from_u8(&f);
        assert_eq!(h.source_ip, 0xC0A8_1F01);
        assert_eq!(h.destination_ip, 0xC0A8_1F01);
        assert_eq!(h.upper_protocol_type, UDP_PROTOCOL);
        seen.push(f.len());
    }
    assert_eq!(seen, vec![1460, 1460, 260]);
    assert!(!load_ip_data(&payload(65537), &mut q));
    assert!(q.is_empty());
}

#[test]
fn ip_send_cuts_the_oldest_payload() {
    let mut q = IPSendQueue::new();
    assert!(send(&mut q, [10, 10, 10, 3], [10, 10, 10, 4]).is_none());
    assert!(q.add_data(payload(1500), 1));
    let frames = send(&mut q, [10, 10, 10, 3], [10, 10, 10, 4]).unwrap();
    assert_eq!(frames.len(), 2);
    let h = IpHeader::from_u8(&frames[1]);
    assert_eq!(h.source_ip, ip_from_u8(10, 10, 10, 3));
    assert_eq!(h.destination_ip, ip_from_u8(10, 10, 10, 4));
    assert_eq!(h.upper_protocol_type, 1);
    assert!(q.is_empty());
}

#[test]
fn fragment_waits_for_address_resolution() {
    let mut table = ArpCacheTable::new();
    let mut requests = ArpSendRequestQueue::new();
    let mut eth = Eth2SendQueue::new();
    let frame = payload(80);
    assert!(!send_fragment(&frame, [10, 10, 10, 4], &table, &mut requests, &mut eth));
    assert_eq!(requests.get_data(), Some([10, 10, 10, 4]));
    assert!(eth.is_empty());
    let mac = [1, 2, 3, 4, 5, 6];
    assert!(table.insert_entry(ArpCacheEntry::new([10, 10, 10, 4], mac, 2)));
    assert!(send_fragment(&frame, [10, 10, 10, 4], &table, &mut requests, &mut eth));
    assert!(requests.is_empty());
    let e = eth.get_data().unwrap();
    assert_eq!(e.dest_mac_addr, mac);
    assert_eq!(e.ethernet_type, 0x0800);
    assert_eq!(e.data, frame);
}

#[test]
fn run_lookup_finds_first_record_at_the_pointer() {
    assert_eq!(find_receive_data_queue_len(&vec![(5, 0)], 5), Some(0));
    assert_eq!(find_receive_data_queue_len(&vec![(0, 8), (5, 0), (5, 9)], 5), Some(0));
    assert_eq!(find_receive_data_queue_len(&vec![(0, 8), (5, 3), (5, 9)], 5), Some(3));
    assert_eq!(find_receive_data_queue_len(&vec![(0, 8)], 5), None);
}
