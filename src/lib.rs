//! A small layered network stack: Ethernet-v2 framing with CRC-32, ARP,
//! IPv4 fragmentation and reassembly, and ICMP, with every layer's logic
//! stated by contracts and proved.

pub mod config;
pub mod bytes;
pub mod keyed;
pub mod crc32;
pub mod checksum;
pub mod queue;
pub mod ethernet;
pub mod arp;
pub mod ip;
pub mod fragment;
pub mod reassembly;
pub mod round_trip;
pub mod icmp;
