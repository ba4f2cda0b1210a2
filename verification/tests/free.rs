use tal::block::BlockHeader;
use tal::free::avl::FreeTree;
use tal::free::freelist::{FreeList, DUMP_LIMIT};
use tal::heap::memory::Memory;

fn free_header(size: usize) -> BlockHeader {
    BlockHeader { size_and_flags: size, prev_size: 0 }
}

#[test]
fn tree_starts_empty() {
    let t = FreeTree::new();
    assert!(t.is_empty());
    assert_eq!(t.find_best_fit(1), 0);
}

#[test]
fn tree_finds_smallest_fitting_size() {
    let mut t = FreeTree::new();
    t.insert(0x1000, 64);
    t.insert(0x2000, 128);
    t.insert(0x3000, 32);
    assert!(!t.is_empty());
    assert_eq!(t.find_best_fit(40), 0x1000);
    assert_eq!(t.find_best_fit(64), 0x1000);
    assert_eq!(t.find_best_fit(65), 0x2000);
    assert_eq!(t.find_best_fit(8), 0x3000);
    assert_eq!(t.find_best_fit(129), 0);
}

#[test]
fn tree_keeps_the_head_of_a_size() {
    let mut t = FreeTree::new();
    t.insert(0x1000, 64);
    t.insert(0x2000, 64);
    t.insert(0x3000, 64);
    // later blocks of a size go behind the head
    assert_eq!(t.find_best_fit(64), 0x1000);
    t.remove(0x1000, 64);
    assert_eq!(t.find_best_fit(64), 0x3000);
    t.remove(0x3000, 64);
    assert_eq!(t.find_best_fit(64), 0x2000);
    t.remove(0x2000, 64);
    assert!(t.is_empty());
}

#[test]
fn tree_remove_of_an_absent_block_changes_nothing() {
    let mut t = FreeTree::new();
    t.insert(0x1000, 64);
    t.remove(0x5000, 64);
    t.remove(0x1000, 128);
    assert_eq!(t.find_best_fit(64), 0x1000);
}

#[test]
fn tree_insert_then_remove_gives_the_tree_back() {
    let mut t = FreeTree::new();
    t.insert(0x1000, 64);
    t.insert(0x2000, 256);
    t.insert(0x3000, 96);
    t.remove(0x3000, 96);
    assert_eq!(t.find_best_fit(65), 0x2000);
    assert_eq!(t.find_best_fit(1), 0x1000);
}

#[test]
fn tree_stays_usable_under_many_sizes() {
    let mut t = FreeTree::new();
    let mut i: usize = 1;
    while i <= 500 {
        t.insert(i * 0x1000, i * 16);
        i += 1;
    }
    assert_eq!(t.find_best_fit(16 * 250), 250 * 0x1000);
    assert_eq!(t.find_best_fit(16 * 250 + 1), 251 * 0x1000);
    let mut j: usize = 1;
    while j <= 500 {
        if j % 2 == 0 {
            t.remove(j * 0x1000, j * 16);
        }
        j += 1;
    }
    assert_eq!(t.find_best_fit(16 * 250), 251 * 0x1000);
    assert_eq!(t.find_best_fit(16 * 499 + 1), 0);
    assert_eq!(t.find_best_fit(16 * 499), 499 * 0x1000);
}

#[test]
fn list_push_front_and_remove() {
    let mut l = FreeList::new();
    assert!(l.is_empty());
    assert_eq!(l.head(), 0);
    l.push_front(0x1000);
    l.push_front(0x2000);
    l.push_front(0x3000);
    assert_eq!(l.head(), 0x3000);
    l.remove(0x2000);
    assert_eq!(l.head(), 0x3000);
    l.remove(0x3000);
    assert_eq!(l.head(), 0x1000);
    l.remove(0x1000);
    assert!(l.is_empty());
}

#[test]
fn list_best_fit_takes_the_first_smallest() {
    let mut mem = Memory::new();
    mem.write(0x1000, free_header(256));
    mem.write(0x2000, free_header(64));
    mem.write(0x3000, free_header(64));
    mem.write(0x4000, free_header(512));
    let mut l = FreeList::new();
    l.push_front(0x1000);
    l.push_front(0x2000);
    l.push_front(0x3000);
    l.push_front(0x4000);
    // order from the head: 0x4000, 0x3000, 0x2000, 0x1000
    assert_eq!(l.find_best_fit(&mem, 64), 0x3000);
    assert_eq!(l.find_best_fit(&mem, 100), 0x1000);
    assert_eq!(l.find_best_fit(&mem, 300), 0x4000);
    assert_eq!(l.find_best_fit(&mem, 600), 0);
}

#[test]
fn list_dump_lists_blocks_with_links() {
    let mut mem = Memory::new();
    mem.write(0x1000, BlockHeader { size_and_flags: 256 | 0b010, prev_size: 0 });
    mem.write(0x2000, free_header(64));
    let mut l = FreeList::new();
    l.push_front(0x1000);
    l.push_front(0x2000);
    let (entries, cut) = l.dump_entries(&mem);
    assert!(!cut);
    assert_eq!(entries.len(), 2);
    assert_eq!(entries[0].block, 0x2000);
    assert_eq!(entries[0].size, 64);
    assert_eq!(entries[0].prev_free, 0);
    assert_eq!(entries[0].next_free, 0x1000);
    assert_eq!(entries[1].block, 0x1000);
    assert_eq!(entries[1].size, 256);
    assert_eq!(entries[1].flags, 0b010);
    assert_eq!(entries[1].prev_free, 0x2000);
    assert_eq!(entries[1].next_free, 0);
    assert_eq!(DUMP_LIMIT, 10001);
}

#[test]
fn memory_keeps_headers_by_address() {
    let mut mem = Memory::new();
    assert!(!mem.contains(0x10));
    mem.write(0x10, free_header(32));
    assert!(mem.contains(0x10));
    assert_eq!(mem.header(0x10).size(), 32);
    mem.forget(0x10);
    assert!(!mem.contains(0x10));
}

#[test]
fn list_push_then_remove_gives_the_list_back() {
    let mut l = FreeList::new();
    l.push_front(0x1000);
    l.push_front(0x2000);
    l.push_front(0x3000);
    l.remove(0x3000);
    assert_eq!(l.head(), 0x2000);
    let mem = {
        let mut m = Memory::new();
        m.write(0x1000, free_header(64));
        m.write(0x2000, free_header(128));
        m
    };
    let (entries, _) = l.dump_entries(&mem);
    assert_eq!(entries.len(), 2);
    assert_eq!(entries[0].block, 0x2000);
    assert_eq!(entries[0].prev_free, 0);
    assert_eq!(entries[1].block, 0x1000);
}
