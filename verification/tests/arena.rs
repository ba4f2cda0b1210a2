use tal::heap::arena::{
    advise_free_pages, default_arena_size, large_arena_len, page_align_down, page_align_up,
    DEFAULT_ARENA_PAGES, FALLBACK_ARENA_SIZE, FREE_META_SIZE,
};

#[test]
fn default_arena_is_eight_pages() {
    assert_eq!(DEFAULT_ARENA_PAGES, 8);
    assert_eq!(default_arena_size(4096), 32768);
    assert_eq!(default_arena_size(16384), 131072);
}

#[test]
fn default_arena_without_page_size() {
    assert_eq!(default_arena_size(0), FALLBACK_ARENA_SIZE);
    assert_eq!(FALLBACK_ARENA_SIZE, 32 * 1024);
}

#[test]
fn large_arena_is_whole_pages() {
    assert_eq!(large_arena_len(40016, 4096), 40960);
    assert_eq!(large_arena_len(40960, 4096), 40960);
    assert_eq!(large_arena_len(40016, 0), 40016);
}

#[test]
fn page_rounding() {
    assert_eq!(page_align_up(4097, 4096), 8192);
    assert_eq!(page_align_up(4096, 4096), 4096);
    assert_eq!(page_align_down(8191, 4096), 4096);
    assert_eq!(page_align_down(8192, 4096), 8192);
}

#[test]
fn advised_pages_skip_the_free_links() {
    assert_eq!(FREE_META_SIZE, 32);
    // block at 0x10000 of 32768 bytes: pages from 0x11000 up to 0x18000
    assert_eq!(advise_free_pages(0x10000, 32768, 4096), Some((0x11000, 0x7000)));
    // a block smaller than a page gives nothing
    assert_eq!(advise_free_pages(0x10000, 1024, 4096), None);
    // unknown page size gives nothing
    assert_eq!(advise_free_pages(0x10000, 32768, 0), None);
}

#[test]
fn advised_pages_of_a_block_that_starts_mid_page() {
    // block at 0x10800 of 0x2000 bytes ends at 0x12800: one whole page from 0x11000
    assert_eq!(advise_free_pages(0x10800, 0x2000, 4096), Some((0x11000, 0x1000)));
}
