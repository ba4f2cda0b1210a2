use tal::block::{
    align_up, free_node_ptr, header_from_payload, min_free_block_size, next_block, payload_ptr,
    prev_block, BlockHeader, ALIGN, BUSY, FIRST, FLAG_MASK, HEADER_SIZE, LAST,
};

#[test]
fn align_up_rounds_to_multiples() {
    assert_eq!(align_up(0, 8), 0);
    assert_eq!(align_up(1, 8), 8);
    assert_eq!(align_up(8, 8), 8);
    assert_eq!(align_up(1016, 8), 1016);
    assert_eq!(align_up(1017, 8), 1024);
    assert_eq!(align_up(40016, 4096), 40960);
    assert_eq!(align_up(5, 1), 5);
}

#[test]
fn align_up_with_a_mask_that_is_not_a_power_of_two() {
    // (x + 2) & !2 clears bit 1 only
    assert_eq!(align_up(5, 3), 7 & !2);
}

#[test]
fn min_free_block_is_header_and_links() {
    assert_eq!(min_free_block_size(), 32);
    assert_eq!(HEADER_SIZE, 16);
    assert_eq!(ALIGN, 8);
    assert_eq!(FLAG_MASK, BUSY | FIRST | LAST);
}

#[test]
fn header_packs_size_and_flags() {
    let mut h = BlockHeader { size_and_flags: 0, prev_size: 48 };
    h.set_size_and_flags(4096, BUSY | LAST);
    assert_eq!(h.size(), 4096);
    assert_eq!(h.flags(), BUSY | LAST);
    assert!(h.is_busy());
    assert!(!h.is_first());
    assert!(h.is_last());
    assert_eq!(h.prev_size, 48);
    assert_eq!(h.size_and_flags, 4096 | 0b101);
}

#[test]
fn header_drops_bits_outside_the_mask() {
    let mut h = BlockHeader { size_and_flags: 7, prev_size: 0 };
    h.set_size_and_flags(64, FIRST | 0b1000);
    assert_eq!(h.size(), 64);
    assert_eq!(h.flags(), FIRST);
    assert!(!h.is_busy());
    assert!(h.is_first());
    assert!(!h.is_last());
}

#[test]
fn block_addresses() {
    let h = BlockHeader { size_and_flags: 1024 | BUSY, prev_size: 256 };
    assert_eq!(next_block(0x1000, &h), 0x1400);
    assert_eq!(prev_block(0x1000, &h), 0x0f00);
    assert_eq!(payload_ptr(0x1000), 0x1010);
    assert_eq!(free_node_ptr(0x1000), 0x1010);
    assert_eq!(header_from_payload(0x1010), 0x1000);
    assert_eq!(header_from_payload(payload_ptr(0x2000)), 0x2000);
}
