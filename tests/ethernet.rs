use netstack::arp::ArpReceiveQueue;
use netstack::config::{BROADCAST_MAC, LOCAL_MAC};
use netstack::crc32::calculate_crc32;
use netstack::ethernet::{encode_frame, load_ethernet_data_from_network_layer, load_ethernet_header, receive, Delivery, Eth2SendQueue};
use netstack::reassembly::IpReceiveQueue;

fn element(dest: [u8; 6], ty: u16, data: Vec<u8>) -> netstack::ethernet::Eth2QueueElement {
    let mut q = Eth2SendQueue::new();
    q.add_data(dest, ty, &data);
    q.get_data().unwrap()
}

#[test]
fn frame_layout() {
    let data: Vec<u8> = (0..100u8).collect();
    let e = element([1, 2, 3, 4, 5, 6], 0x0800, data.clone());
    let f = encode_frame(&e);
    assert_eq!(f.len(), 14 + 100 + 4);
    assert_eq!(&f[0..6], &[1, 2, 3, 4, 5, 6]);
    assert_eq!(&f[6..12], &LOCAL_MAC);
    assert_eq!(&f[12..14], &[0x08, 0x00]);
    assert_eq!(&f[14..114], &data[..]);
    assert_eq!(&f[114..118], &calculate_crc32(&data, 100).to_be_bytes());
}

#[test]
fn frame_built_in_two_steps() {
    let data = vec![7u8; 46];
    let e = element(BROADCAST_MAC, 0x0806, data.clone());
    let mut buffer = Vec::new();
    load_ethernet_header(&mut buffer, &e);
    assert_eq!(buffer.len(), 14);
    assert_eq!(load_ethernet_data_from_network_layer(&mut buffer, &e), (true, 64));
    assert_eq!(buffer, encode_frame(&e));
}

#[test]
fn received_ip_frame_goes_to_ip_queue() {
    let data: Vec<u8> = (0..200u32).map(|i| i as u8).collect();
    let f = encode_frame(&element(LOCAL_MAC, 0x0800, data.clone()));
    let mut arp = ArpReceiveQueue::new();
    let mut ip = IpReceiveQueue::new();
    let n = f.len() as u32;
    assert_eq!(receive(&f, n, n, &mut arp, &mut ip), Delivery::Ip(true));
    assert_eq!(ip.get_data(), Some(data));
    assert!(arp.is_empty());
}

#[test]
fn received_arp_frame_goes_to_arp_queue() {
    let mut data: Vec<u8> = (0..28u8).collect();
    data.extend_from_slice(&[0u8; 18]);
    let f = encode_frame(&element(BROADCAST_MAC, 0x0806, data.clone()));
    let mut arp = ArpReceiveQueue::new();
    let mut ip = IpReceiveQueue::new();
    let n = f.len() as u32;
    assert_eq!(receive(&f, n, n, &mut arp, &mut ip), Delivery::Arp);
    let m = arp.get_data().unwrap();
    assert_eq!(&m[..], &data[0..28]);
    assert!(ip.is_empty());
}

#[test]
fn corrupted_or_foreign_frames_are_dropped() {
    let data = vec![9u8; 60];
    let f = encode_frame(&element(LOCAL_MAC, 0x0800, data.clone()));
    let n = f.len() as u32;
    let mut arp = ArpReceiveQueue::new();
    let mut ip = IpReceiveQueue::new();
    let mut bad = f.clone();
    bad[20] ^= 0x10;
    assert_eq!(receive(&bad, n, n, &mut arp, &mut ip), Delivery::CrcMismatch);
    let foreign = encode_frame(&element([2; 6], 0x0800, data.clone()));
    assert_eq!(receive(&foreign, n, n, &mut arp, &mut ip), Delivery::NotForUs);
    let other = encode_frame(&element(LOCAL_MAC, 0x86DD, data.clone()));
    assert_eq!(receive(&other, n, n, &mut arp, &mut ip), Delivery::OtherType);
    assert_eq!(receive(&f[..10].to_vec(), 10, 10, &mut arp, &mut ip), Delivery::Malformed);
    assert_eq!(receive(&f, n + 1, n, &mut arp, &mut ip), Delivery::Malformed);
    assert!(ip.is_empty());
    assert!(arp.is_empty());
}

#[test]
fn oversized_ip_payload_is_refused_by_the_queue() {
    let data = vec![1u8; 1501];
    let f = encode_frame(&element(LOCAL_MAC, 0x0800, data));
    let n = f.len() as u32;
    let mut arp = ArpReceiveQueue::new();
    let mut ip = IpReceiveQueue::new();
    assert_eq!(receive(&f, n, n, &mut arp, &mut ip), Delivery::Ip(false));
    assert!(ip.is_empty());
}
