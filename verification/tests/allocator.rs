use tal::allocator::list::ArenaListAllocator;
use tal::allocator::{
    block_size_for, layout_fits, AllocStep, Allocation, ArenaAllocator, ArenaRequest,
    LargeRequest, ReallocStep, Region,
};

const PAGE: usize = 4096;
const ARENA_A: usize = 0x10_0000;
const ARENA_B: usize = 0x20_0000;
const ARENA_C: usize = 0x30_0000;

fn map_request(step: AllocStep) -> ArenaRequest {
    match step {
        AllocStep::MapArena(req) => req,
        other => panic!("expected an arena request, got {:?}", other),
    }
}

fn large_request(step: AllocStep) -> LargeRequest {
    match step {
        AllocStep::MapLarge(req) => req,
        other => panic!("expected a large request, got {:?}", other),
    }
}

fn block(step: AllocStep) -> usize {
    match step {
        AllocStep::Done(Allocation::Block(p)) => p,
        other => panic!("expected a block, got {:?}", other),
    }
}

/// Allocates `size` bytes from an allocator that asks for its first arena, mapped at `base`.
fn first_block(a: &mut ArenaAllocator, size: usize, base: usize) -> usize {
    let req = map_request(a.allocate(size, 8));
    block(a.arena_mapped(req, base))
}

fn first_list_block(l: &mut ArenaListAllocator, size: usize, base: usize) -> usize {
    let req = map_request(l.allocate(size, 8));
    block(l.arena_mapped(req, base))
}

/// Allocates `size` bytes on a mapping of its own at `base`.
fn large_block(a: &mut ArenaAllocator, size: usize, base: usize) -> usize {
    let req = large_request(a.allocate(size, 8));
    match a.large_mapped(req, base) {
        Allocation::Block(p) => p,
        other => panic!("expected a block, got {:?}", other),
    }
}

#[test]
fn block_sizes_for_requests() {
    assert_eq!(block_size_for(1000, 8), 1016);
    assert_eq!(block_size_for(1, 8), 24);
    assert_eq!(block_size_for(2000, 8), 2016);
    assert_eq!(block_size_for(1000, 64), 1024);
    assert_eq!(block_size_for(0, 8), 16);
}

#[test]
fn layouts_that_fit() {
    assert!(layout_fits(1000, 8));
    assert!(layout_fits(isize::MAX as usize, 1));
    assert!(!layout_fits(isize::MAX as usize, 2));
    assert!(!layout_fits(usize::MAX, 8));
}

#[test]
fn empty_request_gets_the_dangling_address() {
    let mut a = ArenaAllocator::new(PAGE);
    assert_eq!(a.allocate(0, 8), AllocStep::Done(Allocation::Dangling));
    let mut l = ArenaListAllocator::new(PAGE);
    assert_eq!(l.allocate(0, 8), AllocStep::Done(Allocation::Dangling));
}

#[test]
fn first_allocation_asks_for_an_arena() {
    let mut a = ArenaAllocator::new(PAGE);
    assert_eq!(a.page_size(), PAGE);
    assert_eq!(a.default_arena_size(), 32768);
    let step = a.allocate(1000, 8);
    assert_eq!(step, AllocStep::MapArena(ArenaRequest { needed: 1016, len: 32768, retry: false }));
    let p = block(a.arena_mapped(map_request(step), ARENA_A));
    assert_eq!(p, ARENA_A + 16);
    assert!(a.owns(p));
    assert!(!a.owns(ARENA_A + 16 + 1016));
}

#[test]
fn failed_mapping_gives_null() {
    let mut a = ArenaAllocator::new(PAGE);
    let req = map_request(a.allocate(1000, 8));
    assert_eq!(a.arena_mapped(req, 0), AllocStep::Done(Allocation::Null));
    let req = large_request(a.allocate(100000, 8));
    assert_eq!(a.large_mapped(req, 0), Allocation::Null);
}

#[test]
fn large_request_gets_its_own_mapping() {
    let mut a = ArenaAllocator::new(PAGE);
    let step = a.allocate(40000, 8);
    assert_eq!(step, AllocStep::MapLarge(LargeRequest { len: 40960 }));
    let p = match a.large_mapped(large_request(step), ARENA_B) {
        Allocation::Block(p) => p,
        other => panic!("expected a block, got {:?}", other),
    };
    assert_eq!(p, ARENA_B + 16);
    assert!(a.owns(p));
    assert_eq!(a.dealloc(p), Some(Region { base: ARENA_B, len: 40960 }));
    assert!(!a.owns(p));
}

#[test]
fn strict_alignment_goes_to_its_own_mapping() {
    let mut a = ArenaAllocator::new(PAGE);
    assert_eq!(a.allocate(100, 64), AllocStep::MapLarge(LargeRequest { len: 4096 }));
}

#[test]
fn best_fit_takes_the_smallest_free_block() {
    let mut a = ArenaAllocator::new(PAGE);
    let p1 = first_block(&mut a, 1000, ARENA_A);
    let p2 = block(a.allocate(100, 8));
    let p3 = block(a.allocate(3000, 8));
    let p4 = block(a.allocate(100, 8));
    assert_eq!(p2, p1 + 1016);
    // free the 3000-byte block: a hole of 3016 bytes between two busy blocks
    assert_eq!(a.dealloc(p3), None);
    assert!(!a.owns(p3));
    // a small request takes the hole rather than the large tail
    let p5 = block(a.allocate(1000, 8));
    assert_eq!(p5, p3);
    assert!(a.owns(p4));
}

#[test]
fn second_arena_when_none_fits() {
    let mut a = ArenaAllocator::new(PAGE);
    let p1 = first_block(&mut a, 30000, ARENA_A);
    assert_eq!(p1, ARENA_A + 16);
    let step = a.allocate(10000, 8);
    assert_eq!(step, AllocStep::MapArena(ArenaRequest { needed: 10016, len: 32768, retry: true }));
    let p2 = block(a.arena_mapped(map_request(step), ARENA_C));
    assert_eq!(p2, ARENA_C + 16);
    assert!(a.owns(p1) && a.owns(p2));
}

#[test]
fn dealloc_then_allocate_gives_the_same_block() {
    let mut a = ArenaAllocator::new(PAGE);
    let p = first_block(&mut a, 500, ARENA_A);
    let q = block(a.allocate(700, 8));
    assert_eq!(a.dealloc(q), None);
    assert_eq!(block(a.allocate(700, 8)), q);
    assert_eq!(a.dealloc(0), None);
    assert!(a.owns(p));
}

#[test]
fn dealloc_merges_neighbours() {
    let mut a = ArenaAllocator::new(PAGE);
    let p1 = first_block(&mut a, 1000, ARENA_A);
    let p2 = block(a.allocate(1000, 8));
    let p3 = block(a.allocate(1000, 8));
    assert_eq!(a.dealloc(p1), None);
    assert_eq!(a.dealloc(p3), None);
    assert_eq!(a.dealloc(p2), None);
    // the whole arena is one free block again
    assert_eq!(block(a.allocate(32768 - 16, 8)), ARENA_A + 16);
}

#[test]
fn realloc_of_null_is_an_allocation() {
    let mut a = ArenaAllocator::new(PAGE);
    assert_eq!(a.realloc(0, 8, 100), ReallocStep::Fresh { size: 100, align: 8 });
    assert_eq!(a.realloc(0, 8, usize::MAX), ReallocStep::Done(Allocation::Null));
}

#[test]
fn realloc_to_zero_frees() {
    let mut a = ArenaAllocator::new(PAGE);
    let p = first_block(&mut a, 1000, ARENA_A);
    assert_eq!(a.realloc(p, 8, 0), ReallocStep::Freed(None));
    assert!(!a.owns(p));
    let q = large_block(&mut a, 50000, ARENA_B);
    assert_eq!(a.realloc(q, 8, 0), ReallocStep::Freed(Some(Region { base: ARENA_B, len: 53248 })));
}

#[test]
fn realloc_shrinks_in_place() {
    let mut a = ArenaAllocator::new(PAGE);
    let p = first_block(&mut a, 4000, ARENA_A);
    let q = block(a.allocate(100, 8));
    assert_eq!(a.realloc(p, 8, 1000), ReallocStep::Done(Allocation::Block(p)));
    // the tail given back serves the next request
    assert_eq!(block(a.allocate(2000, 8)), p + 1016);
    assert!(a.owns(q));
}

#[test]
fn realloc_grows_into_the_free_block_after() {
    let mut a = ArenaAllocator::new(PAGE);
    let p = first_block(&mut a, 1000, ARENA_A);
    assert_eq!(a.realloc(p, 8, 4000), ReallocStep::Done(Allocation::Block(p)));
    assert_eq!(block(a.allocate(100, 8)), p + 4016);
}

#[test]
fn realloc_moves_when_the_next_block_is_busy() {
    let mut a = ArenaAllocator::new(PAGE);
    let p = first_block(&mut a, 1000, ARENA_A);
    let _q = block(a.allocate(1000, 8));
    assert_eq!(a.realloc(p, 8, 2000), ReallocStep::Move { size: 2000, align: 8, copy: 1000 });
    assert!(a.owns(p));
}

#[test]
fn realloc_of_a_large_block() {
    let mut a = ArenaAllocator::new(PAGE);
    let p = large_block(&mut a, 40000, ARENA_B);
    assert_eq!(a.block_size_of(p), 40960);
    assert_eq!(a.realloc(p, 8, 40900), ReallocStep::Done(Allocation::Block(p)));
    assert_eq!(a.realloc(p, 8, 100), ReallocStep::Done(Allocation::Block(p)));
    assert_eq!(a.block_size_of(p), 40960);
}

#[test]
fn page_limit() {
    let a = ArenaAllocator::new(0);
    assert_eq!(a.default_arena_size(), 32768);
    let big = ArenaAllocator::new(1 << 20);
    assert_eq!(big.default_arena_size(), 8 << 20);
}

#[test]
fn list_allocator_takes_best_fit_and_merges() {
    let mut l = ArenaListAllocator::new(PAGE);
    let step = l.allocate(1000, 8);
    assert_eq!(step, AllocStep::MapArena(ArenaRequest { needed: 1016, len: 32768, retry: false }));
    let p1 = block(l.arena_mapped(map_request(step), ARENA_A));
    let p2 = block(l.allocate(2000, 8));
    assert_eq!(p2, p1 + 1016);
    let (entries, cut) = l.free_list_entries();
    assert!(!cut);
    assert_eq!(entries.len(), 1);
    assert_eq!(entries[0].block, ARENA_A + 1016 + 2016);
    assert_eq!(entries[0].size, 32768 - 1016 - 2016);
    assert_eq!(l.dealloc(p1), None);
    let (entries, _) = l.free_list_entries();
    assert_eq!(entries.len(), 2);
    assert_eq!(entries[0].block, ARENA_A);
    assert_eq!(entries[0].size, 1016);
    assert_eq!(entries[0].prev_free, 0);
    assert_eq!(entries[0].next_free, ARENA_A + 1016 + 2016);
    assert_eq!(entries[1].prev_free, ARENA_A);
    assert_eq!(entries[1].next_free, 0);
    assert_eq!(l.dealloc(p2), None);
    let (entries, _) = l.free_list_entries();
    assert_eq!(entries.len(), 1);
    assert_eq!(entries[0].block, ARENA_A);
    assert_eq!(entries[0].size, 32768);
}

#[test]
fn list_allocator_dealloc_undoes_allocate() {
    let mut l = ArenaListAllocator::new(PAGE);
    let p1 = first_list_block(&mut l, 1000, ARENA_A);
    let (before, _) = l.free_list_entries();
    let p2 = block(l.allocate(500, 8));
    assert_eq!(l.dealloc(p2), None);
    let (after, _) = l.free_list_entries();
    assert_eq!(before.len(), after.len());
    assert_eq!(before[0].block, after[0].block);
    assert_eq!(before[0].size, after[0].size);
    assert_eq!(before[0].flags, after[0].flags);
    assert!(l.owns(p1));
    assert!(!l.owns(p2));
}

#[test]
fn list_allocator_large_blocks() {
    let mut l = ArenaListAllocator::new(PAGE);
    let step = l.allocate(40000, 8);
    assert_eq!(step, AllocStep::MapLarge(LargeRequest { len: 40960 }));
    let p = match l.large_mapped(large_request(step), ARENA_B) {
        Allocation::Block(p) => p,
        other => panic!("expected a block, got {:?}", other),
    };
    assert!(l.owns(p));
    assert_eq!(l.dealloc(p), Some(Region { base: ARENA_B, len: 40960 }));
}
