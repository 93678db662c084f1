use ruefi::rand::XorShift64;
use ruefi::uefi_alloc::UefiBootAllocator;

#[test]
fn xorshift_known_sequence() {
    let mut r = XorShift64::new(1);
    assert_eq!(r.next_u64(), 0x47e4_ce4b_896c_dd1d);
    assert_eq!(r.next_u64(), 0xabcf_a6a8_e079_651d);
    let mut s = XorShift64::new(1);
    assert_eq!(s.next_u32(), 0x47e4_ce4b);
}

#[test]
fn xorshift_zero_seed_is_replaced() {
    let mut z = XorShift64::new(0);
    let mut d = XorShift64::new(0x9e37_79b9_7f4a_7c15);
    assert_eq!(z.next_u64(), 0x0d83_b3e2_9a21_487a);
    assert_eq!(d.next_u64(), 0x0d83_b3e2_9a21_487a);
}

#[test]
fn pool_request_pads_for_header_and_alignment() {
    let q = UefiBootAllocator::pool_request(24, 4).unwrap();
    assert_eq!((q.align, q.size, q.total), (8, 24, 40));
    let q = UefiBootAllocator::pool_request(0, 64).unwrap();
    assert_eq!((q.align, q.size, q.total), (64, 1, 73));
    assert!(UefiBootAllocator::pool_request(usize::MAX - 8, 8).is_none());
}

#[test]
fn aligned_block_leaves_room_for_header() {
    assert_eq!(UefiBootAllocator::aligned_block(0x1000, 8), 0x1008);
    assert_eq!(UefiBootAllocator::aligned_block(0x1001, 16), 0x1010);
    assert_eq!(UefiBootAllocator::aligned_block(0x1009, 64), 0x1040);
}
