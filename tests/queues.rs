use netstack::queue::{ReceiveQueue, SendQueue};
use netstack::reassembly::IpReceiveQueue;

#[test]
fn send_queue_admission_bounds() {
    let mut q = SendQueue::new();
    assert!(!q.add_data(&vec![0u8; 45]));
    assert!(!q.add_data(&vec![0u8; 1501]));
    assert!(q.is_empty());
    assert!(q.add_data(&vec![1u8; 46]));
    assert!(q.add_data(&vec![2u8; 1500]));
    assert_eq!(q.get_data(), Some(vec![1u8; 46]));
    assert_eq!(q.get_data(), Some(vec![2u8; 1500]));
    assert_eq!(q.get_data(), None);
    assert!(q.is_empty());
}

#[test]
fn receive_queue_admission_bounds() {
    let mut q = ReceiveQueue::new();
    assert!(!q.add_data(&vec![0u8; 45]));
    assert!(!q.add_data(&vec![0u8; 1501]));
    assert!(q.add_data(&vec![3u8; 46]));
    assert!(q.add_data(&vec![4u8; 1500]));
    assert!(!q.is_empty());
    assert_eq!(q.get_data(), Some(vec![3u8; 46]));
    assert_eq!(q.get_data(), Some(vec![4u8; 1500]));
    assert!(q.is_empty());
}

#[test]
fn ip_receive_queue_admission_bounds() {
    let mut q = IpReceiveQueue::new();
    assert!(!q.add_data(&vec![0u8; 45]));
    assert!(!q.add_data(&vec![0u8; 1501]));
    assert!(q.add_data(&vec![5u8; 46]));
    assert!(q.add_data(&vec![6u8; 1500]));
    assert_eq!(q.get_data(), Some(vec![5u8; 46]));
    assert_eq!(q.get_data(), Some(vec![6u8; 1500]));
    assert_eq!(q.get_data(), None);
}
