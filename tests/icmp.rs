use netstack::fragment::IPSendQueue;
use netstack::icmp::{classify, receive, send, test_icmp, IcmpHeader, IcmpKind, IcmpReceiveQueue, IcmpSendQueue};

fn fold(words: &[u16]) -> u32 {
    let mut sum: u32 = words.iter().map(|w| *w as u32).sum();
    while sum >> 16 > 0 {
        sum = (sum & 0xffff) + (sum >> 16);
    }
    sum
}

#[test]
fn icmp_checksum_verifies() {
    let h = IcmpHeader::new(8, 0, 0x1234_5678);
    assert_eq!(fold(&h.into_u16_array()), 0xffff);
    assert_eq!(h.into_u16_array(), vec![0x0800, h.check_sum, 0x1234, 0x5678]);
    let mut z = h;
    z.check_sum = 0;
    assert_eq!(z.calculate_check_sum(), h.check_sum);
    assert_eq!(h.check_sum, 0xffff - ((0x0800 + 0x1234 + 0x5678) as u16));
}

#[test]
fn icmp_header_reads_back() {
    let v = vec![11, 0, 0xab, 0xcd, 1, 2, 3, 4, 99];
    let h = IcmpHeader::from_vec_u8(v);
    assert_eq!(h.icmp_type, 11);
    assert_eq!(h.code, 0);
    assert_eq!(h.check_sum, 0xabcd);
    assert_eq!(h.other, 0x0102_0304);
}

#[test]
fn icmp_kinds() {
    assert_eq!(classify(0), IcmpKind::EchoReply);
    assert_eq!(classify(8), IcmpKind::EchoRequest);
    assert_eq!(classify(11), IcmpKind::TimeExceeded);
    assert_eq!(classify(3), IcmpKind::Unhandled);
    let mut q = IcmpReceiveQueue::new();
    assert_eq!(receive(&mut q), None);
    q.add_data(vec![8, 0, 0, 0, 0, 0, 0, 0]);
    q.add_data(vec![8, 0]);
    assert_eq!(receive(&mut q), Some(IcmpKind::EchoRequest));
    assert_eq!(receive(&mut q), Some(IcmpKind::Truncated));
    assert!(q.is_empty());
}

#[test]
fn icmp_send_stamps_checksum_and_tags_protocol() {
    let mut icmp = IcmpSendQueue::new();
    let mut ip = IPSendQueue::new();
    assert!(!send(&mut ip, &mut icmp));
    icmp.add_data(vec![8, 0, 0, 0, 0, 0, 0, 1, 42, 43]);
    icmp.add_data(vec![8, 0, 0]);
    assert!(send(&mut ip, &mut icmp));
    let e = ip.get_data().unwrap();
    assert_eq!(e.protocol_type, 1);
    let h = IcmpHeader::new(8, 0, 1);
    let hw = h.into_u16_array();
    let mut expected: Vec<u8> = hw.iter().flat_map(|w| w.to_be_bytes()).collect();
    expected.extend_from_slice(&[42, 43]);
    assert_eq!(e.data, expected);
    assert!(send(&mut ip, &mut icmp));
    assert!(ip.is_empty());
    assert!(icmp.is_empty());
}

#[test]
fn time_exceeded_probe() {
    let mut q = IcmpSendQueue::new();
    test_icmp(&mut q);
    let m = q.get_data().unwrap();
    assert_eq!(m.len(), 76);
    assert_eq!(m[0], 11);
    assert_eq!(m[1], 0);
    assert_eq!(u16::from_be_bytes([m[2], m[3]]), IcmpHeader::new(11, 0, 0).check_sum);
    assert!(m[4..].iter().all(|b| *b == 0));
}
