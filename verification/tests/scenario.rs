use tal::allocator::{AllocStep, Allocation, ArenaAllocator, LargeRequest, ReallocStep, Region};

const PAGE: usize = 4096;
const ARENA: usize = 0x10_0000;
const LARGE: usize = 0x40_0000;

fn block(step: AllocStep) -> usize {
    match step {
        AllocStep::Done(Allocation::Block(p)) => p,
        other => panic!("expected a block, got {:?}", other),
    }
}

// The allocation sequence of the demonstration program: two blocks, both grown, both freed,
// then a new block.
#[test]
fn demonstration_sequence() {
    let mut alloc = ArenaAllocator::new(PAGE);

    let a = match alloc.allocate(1000, 8) {
        AllocStep::MapArena(req) => block(alloc.arena_mapped(req, ARENA)),
        other => panic!("expected an arena request, got {:?}", other),
    };
    let b = block(alloc.allocate(2000, 8));
    assert_eq!(a, ARENA + 16);
    assert_eq!(b, ARENA + 1016 + 16);

    // b grows to 4000 bytes into the free tail after it
    assert_eq!(alloc.realloc(b, 8, 4000), ReallocStep::Done(Allocation::Block(b)));

    // a cannot grow in place (b follows it): it moves to a large mapping
    let step = alloc.realloc(a, 8, 40000);
    assert_eq!(step, ReallocStep::Move { size: 40000, align: 8, copy: 1000 });
    let new_a = match alloc.allocate(40000, 8) {
        AllocStep::MapLarge(req) => {
            assert_eq!(req, LargeRequest { len: 40960 });
            match alloc.large_mapped(req, LARGE) {
                Allocation::Block(p) => p,
                other => panic!("expected a block, got {:?}", other),
            }
        }
        other => panic!("expected a large request, got {:?}", other),
    };
    assert_eq!(new_a, LARGE + 16);
    assert_eq!(alloc.dealloc(a), None);

    assert_eq!(alloc.dealloc(new_a), Some(Region { base: LARGE, len: 40960 }));
    assert_eq!(alloc.dealloc(b), None);
    assert!(!alloc.owns(a) && !alloc.owns(b) && !alloc.owns(new_a));

    // the arena is one free block again, and the next request starts at its beginning
    let a2 = block(alloc.allocate(1000, 8));
    assert_eq!(a2, ARENA + 16);
    assert_eq!(alloc.dealloc(a2), None);
}
