//! The node's fixed addresses.

use vstd::prelude::*;

verus! {

/// This node's MAC address.
pub const LOCAL_MAC: [u8; 6] = [0x14, 0x5A, 0xFC, 0x15, 0x1A, 0x9D];

/// This node's IP address.
pub const LOCAL_IP: [u8; 4] = [10, 10, 10, 3];

/// The gateway's IP address.
pub const GATEWAY_IP: [u8; 4] = [10, 10, 11, 1];

/// The subnet mask.
pub const NETMASK: [u8; 4] = [255, 255, 248, 0];

/// The DNS server's IP address.
pub const DNS_SERVER_IP: [u8; 4] = [211, 137, 130, 3];

/// The DHCP server's IP address.
pub const DHCP_SERVER_IP: [u8; 4] = [111, 20, 62, 57];

/// The broadcast MAC address, all ones.
pub const BROADCAST_MAC: [u8; 6] = [0xff, 0xff, 0xff, 0xff, 0xff, 0xff];

} // verus!
