use netstack::checksum::checksum;
use netstack::crc32::{calculate_crc32, crc32_prefix, Crc32Table};
use netstack::ip::{calculate_check_sum, ip_from_u8, u8_from_u16, IpHeader};

fn fold(words: &[u16]) -> u32 {
    let mut sum: u32 = words.iter().map(|w| *w as u32).sum();
    while sum >> 16 > 0 {
        sum = (sum & 0xffff) + (sum >> 16);
    }
    sum
}

#[test]
fn crc32_of_standard_check_string() {
    let data = b"123456789".to_vec();
    assert_eq!(calculate_crc32(&data, 9), 0xCBF4_3926);
    assert_eq!(crc32_prefix(&data, 9), 0xCBF4_3926);
}

#[test]
fn crc32_of_prefix_and_of_nothing() {
    let data = b"123456789abc".to_vec();
    assert_eq!(calculate_crc32(&data, 9), 0xCBF4_3926);
    assert_eq!(calculate_crc32(&data, 0), 0);
    assert_eq!(calculate_crc32(&data, -3), 0);
}

#[test]
fn crc32_is_deterministic_and_sees_every_single_bit_flip() {
    let data: Vec<u8> = (0..64u32).map(|i| (i * 37 + 11) as u8).collect();
    let base = calculate_crc32(&data, 64);
    assert_eq!(base, calculate_crc32(&data, 64));
    for i in 0..data.len() {
        for k in 0..8 {
            let mut flipped = data.clone();
            flipped[i] ^= 1 << k;
            assert_ne!(calculate_crc32(&flipped, 64), base);
        }
    }
}

#[test]
fn crc32_table_builds() {
    let _table = Crc32Table::new();
}

#[test]
fn checksum_of_textbook_header() {
    let words = vec![
        0x4500u16, 0x0073, 0x0000, 0x4000, 0x4011, 0x0000, 0xc0a8, 0x0001, 0xc0a8, 0x00c7,
    ];
    assert_eq!(checksum(&words), 0xb861);
}

#[test]
fn checksum_of_nothing_is_all_ones() {
    assert_eq!(checksum(&Vec::new()), 0xffff);
}

#[test]
fn ip_header_checksum_makes_the_sum_all_ones() {
    let hdr = IpHeader::new(0x4f, 0xfe, 1460, 2023, 0x2000, 64, 17, ip_from_u8(10, 10, 10, 3), ip_from_u8(10, 10, 11, 1), [0; 40]);
    let words = hdr.into_u16_array();
    assert_eq!(words.len(), 30);
    assert_eq!(fold(&words), 0xffff);
    let mut zeroed = hdr;
    zeroed.check_sum = 0;
    assert_eq!(calculate_check_sum(&zeroed), hdr.check_sum);
    assert_ne!(hdr.check_sum, 0);
}

#[test]
fn ip_header_round_trips_through_bytes() {
    let mut options = [0u8; 40];
    options[3] = 7;
    options[39] = 9;
    let hdr = IpHeader::new(0x4f, 0xfe, 260, 2023, 350, 64, 1, ip_from_u8(192, 168, 31, 1), ip_from_u8(10, 0, 0, 2), options);
    let bytes = u8_from_u16(&hdr.into_u16_array());
    assert_eq!(bytes.len(), 60);
    assert_eq!(&bytes[12..16], &[192, 168, 31, 1]);
    let back = IpHeader::from_u8(&bytes);
    assert_eq!(back.total_length, 260);
    assert_eq!(back.id, 2023);
    assert_eq!(back.flags_and_fragment_offset, 350);
    assert_eq!(back.upper_protocol_type, 1);
    assert_eq!(back.check_sum, hdr.check_sum);
    assert_eq!(back.source_ip, hdr.source_ip);
    assert_eq!(back.destination_ip, hdr.destination_ip);
    assert_eq!(back.optional, options);
}

#[test]
fn ip_from_u8_is_big_endian() {
    assert_eq!(ip_from_u8(192, 168, 31, 1), 0xC0A8_1F01);
}

#[test]
fn u8_from_u16_splits_big_endian() {
    assert_eq!(u8_from_u16(&vec![0x1234, 0xff00]), vec![0x12, 0x34, 0xff, 0x00]);
}
