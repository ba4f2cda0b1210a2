use vstd::prelude::*;
use crate::allocator::{
    AllocStep, Allocation, ArenaRequest, LargeRequest, Region, block_size_for,
    large_fits, layout_ok, needed_size, lemma_dsize, lemma_large_len, page_ok,
};
use crate::block::{ALIGN, BlockHeader, FIRST, HEADER_SIZE, LAST, header_from_payload, is_pow2};
use crate::free::FreeIndex;
use crate::free::freelist::{DUMP_LIMIT, FreeList, FreeListEntry};
use crate::free::is_best_fit;
use crate::heap::arena::{default_arena_size, large_arena_len, spec_default_arena_size, spec_large_arena_len};
use crate::heap::merge::coalesce_result;
use crate::heap::state::{
    AllocState, coalesce_index, free_sizes, header_of, nxt, region_unused, take_index, taken_blocks,
};

verus! {

/// A page size the list allocator works with: a power of two whose default arena of eight pages
/// fits in a word.
pub open spec fn list_page_ok(page: usize) -> bool {
    is_pow2(page) && 8 * page <= usize::MAX
}

/// The allocator over a list of free blocks, newest first.
pub struct ArenaListAllocator {
    state: AllocState<FreeList>,
    page: usize,
}

impl ArenaListAllocator {
    /// The allocator is sound.
    pub closed spec fn wf(&self) -> bool {
        &&& list_page_ok(self.page)
        &&& self.state.wf(spec_default_arena_size(self.page))
    }

    /// The page size.
    pub closed spec fn page(&self) -> usize {
        self.page
    }

    /// The size of a default arena.
    pub open spec fn dsize(&self) -> usize {
        spec_default_arena_size(self.page())
    }

    /// The block headers, by address.
    pub closed spec fn blocks(&self) -> Map<usize, BlockHeader> {
        self.state.blocks()
    }

    /// The free list.
    pub closed spec fn index(&self) -> FreeList {
        self.state.index()
    }

    /// The mapped arenas, base address to length.
    pub closed spec fn arenas(&self) -> Map<usize, usize> {
        self.state.arena_map()
    }

    /// `ptr` is the payload address of a block handed out by this allocator.
    pub open spec fn allocated(&self, ptr: usize) -> bool {
        ptr >= HEADER_SIZE && self.blocks().contains_key((ptr - HEADER_SIZE) as usize) && self.blocks()[(
        ptr - HEADER_SIZE) as usize].is_busy()
    }

    /// The size in bytes of the block whose payload starts at `ptr`, header included.
    pub open spec fn block_size(&self, ptr: usize) -> usize {
        self.blocks()[(ptr - HEADER_SIZE) as usize].size()
    }

    /// Every block handed out by `self` is still handed out by `post`, with the same size, but
    /// the one whose payload starts at `ptr` (`0` excepts none, as no payload starts there).
    pub open spec fn keeps_others(&self, post: &Self, ptr: usize) -> bool {
        forall|q: usize| #[trigger]
            self.allocated(q) && q != ptr ==> post.allocated(q) && post.block_size(q) == self.block_size(q)
    }

    /// An allocator without arenas, for pages of `page` bytes.
    pub fn new(page: usize) -> (r: Self)
        requires
            list_page_ok(page),
        ensures
            r.wf(),
            r.page() == page,
            r.blocks() == Map::<usize, BlockHeader>::empty(),
            r.arenas() == Map::<usize, usize>::empty(),
    {
        ArenaListAllocator { state: AllocState::new(), page }
    }

    /// The page size.
    pub fn page_size(&self) -> (r: usize)
        ensures
            r == self.page(),
    {
        self.page
    }

    /// The size of a default arena.
    pub fn default_arena_size(&self) -> (r: usize)
        requires
            self.wf(),
        ensures
            r == self.dsize(),
    {
        default_arena_size(self.page)
    }

    /// Whether `ptr` is the payload address of a block handed out by this allocator.
    pub fn owns(&self, ptr: usize) -> (r: bool)
        requires
            self.wf(),
        ensures
            r == self.allocated(ptr),
    {
        if ptr < HEADER_SIZE {
            return false;
        }
        let b = ptr - HEADER_SIZE;
        if !self.state.contains(b) {
            return false;
        }
        self.state.header(b).is_busy()
    }
}


impl ArenaListAllocator {
    /// Begins allocating `size` bytes aligned to `align`: an empty request gets the dangling
    /// address; a request with a larger alignment than `ALIGN`, or too large for a default arena,
    /// asks for a mapping of its own; otherwise the best-fitting free block is taken, or a new
    /// default arena is asked for when none fits.
    pub fn allocate(&mut self, size: usize, align: usize) -> (r: AllocStep)
        requires
            old(self).wf(),
            layout_ok(size, align),
            large_fits(size, align, old(self).page(), old(self).dsize()),
        ensures
            final(self).wf(),
            final(self).page() == old(self).page(),
            final(self).arenas() == old(self).arenas(),
            ({
                let needed = needed_size(size, align);
                let dsize = old(self).dsize();
                let free = free_sizes(old(self).blocks());
                let b = old(self).index().pick(free, needed);
                let unchanged = final(self).blocks() == old(self).blocks() && final(self).index()
                    == old(self).index();
                if size == 0 {
                    r == AllocStep::Done(Allocation::Dangling) && unchanged
                } else if align > ALIGN || needed > dsize {
                    &&& r == AllocStep::MapLarge(
                        (LargeRequest { len: spec_large_arena_len(needed, old(self).page()) }),
                    )
                    &&& unchanged
                } else if free.dom() =~= Set::<usize>::empty() {
                    &&& r == AllocStep::MapArena(
                        (ArenaRequest { needed, len: dsize, retry: false }),
                    )
                    &&& unchanged
                } else if b == 0 {
                    &&& r == AllocStep::MapArena((ArenaRequest { needed, len: dsize, retry: true }))
                    &&& unchanged
                } else {
                    &&& r == AllocStep::Done(Allocation::Block((b + HEADER_SIZE) as usize))
                    &&& final(self).blocks() == taken_blocks(old(self).blocks(), b, needed)
                    &&& take_index(old(self).index(), final(self).index(), old(self).blocks(), b, needed)
                    &&& is_best_fit(free, needed, b)
                }
            }),
            r matches AllocStep::MapLarge(q) ==> q.len % 8 == 0 && q.len > HEADER_SIZE,
            r matches AllocStep::MapArena(q) ==> q.len == final(self).dsize() && q.needed <= q.len
                && q.needed % 8 == 0 && q.needed > HEADER_SIZE,
            r matches AllocStep::Done(Allocation::Block(p)) ==> final(self).allocated(p) && p % 8 == 0
                && final(self).block_size(p) >= needed_size(size, align),
            old(self).keeps_others(&*final(self), 0),
    {
        if size == 0 {
            return AllocStep::Done(Allocation::Dangling);
        }
        proof {
            lemma_dsize(self.page);
            assert(page_ok(self.page));
        }
        let req_align = align;
        if req_align > ALIGN {
            let needed = block_size_for(size, req_align);
            proof {
                lemma_large_len(needed, self.page);
            }
            return AllocStep::MapLarge(LargeRequest { len: large_arena_len(needed, self.page) });
        }
        let needed = block_size_for(size, req_align);
        let dsize = default_arena_size(self.page);
        if needed > dsize {
            proof {
                lemma_large_len(needed, self.page);
            }
            return AllocStep::MapLarge(LargeRequest { len: large_arena_len(needed, self.page) });
        }
        if self.state.is_empty(Ghost(dsize)) {
            return AllocStep::MapArena(ArenaRequest { needed, len: dsize, retry: false });
        }
        let b = self.state.find_best_fit(Ghost(dsize), needed);
        if b == 0 {
            return AllocStep::MapArena(ArenaRequest { needed, len: dsize, retry: true });
        }
        let p = self.state.split_and_take(Ghost(dsize), b, needed);
        proof {
            crate::heap::state::lemma_block_facts(&self.state, dsize, b);
        }
        AllocStep::Done(Allocation::Block(p))
    }
}


impl ArenaListAllocator {
    /// Goes on with an allocation once the arena that `req` asked for is mapped at `base`
    /// (`0` when the mapping failed): the arena becomes one free block and the best-fitting free
    /// block is taken; when none fits, a second arena is asked for, once.
    pub fn arena_mapped(&mut self, req: ArenaRequest, base: usize) -> (r: AllocStep)
        requires
            old(self).wf(),
            req.len == old(self).dsize(),
            req.needed <= req.len,
            req.needed % 8 == 0,
            req.needed > HEADER_SIZE,
            base != 0 ==> base % 8 == 0 && base + req.len <= usize::MAX && region_unused(
                old(self).arenas(),
                base,
                req.len,
            ),
        ensures
            final(self).wf(),
            final(self).page() == old(self).page(),
            base == 0 ==> r == AllocStep::Done(Allocation::Null),
            base == 0 ==> final(self).blocks() == old(self).blocks(),
            base == 0 ==> final(self).index() == old(self).index(),
            base == 0 ==> final(self).arenas() == old(self).arenas(),
            base != 0 ==> final(self).arenas() == old(self).arenas().insert(base, req.len),
            base != 0 ==> exists|mid: FreeList|
                #[trigger] old(self).index().added(&mid, base, req.len) && ({
                    let hdr1 = old(self).blocks().insert(base, header_of(req.len, FIRST | LAST, 0));
                    let b = mid.pick(free_sizes(hdr1), req.needed);
                    &&& b != 0
                    &&& r == AllocStep::Done(Allocation::Block((b + HEADER_SIZE) as usize))
                    &&& final(self).blocks() == taken_blocks(hdr1, b, req.needed)
                    &&& take_index(mid, final(self).index(), hdr1, b, req.needed)
                }),
            r matches AllocStep::Done(Allocation::Block(p)) ==> final(self).allocated(p) && p % 8 == 0
                && final(self).block_size(p) >= req.needed,
            r matches AllocStep::MapArena(q) ==> q.len == final(self).dsize() && q.needed == req.needed,
            old(self).keeps_others(&*final(self), 0),
    {
        if base == 0 {
            return AllocStep::Done(Allocation::Null);
        }
        let dsize = default_arena_size(self.page);
        proof {
            lemma_dsize(self.page);
            assert(page_ok(self.page));
        }
        self.state.add_default_arena(Ghost(dsize), base, req.len);
        let ghost mid = self.state.index();
        let ghost hdr1 = self.state.blocks();
        let b = self.state.find_best_fit(Ghost(dsize), req.needed);
        proof {
            crate::heap::state::lemma_flag_bits();
            crate::heap::state::lemma_header_of(req.len, FIRST | LAST, 0);
            assert(hdr1[base] == header_of(req.len, FIRST | LAST, 0));
            assert(free_sizes(hdr1).contains_key(base));
            assert(free_sizes(hdr1)[base] >= req.needed);
        }
        if b == 0 {
            if !req.retry {
                return AllocStep::MapArena(ArenaRequest { needed: req.needed, len: dsize, retry: true });
            }
            return AllocStep::Done(Allocation::Null);
        }
        let p = self.state.split_and_take(Ghost(dsize), b, req.needed);
        proof {
            assert(old(self).index().added(&mid, base, req.len));
            crate::heap::state::lemma_block_facts(&self.state, dsize, b);
            assert forall|q: usize| #[trigger] old(self).allocated(q) && q != 0 implies self.allocated(q)
                && self.block_size(q) == old(self).block_size(q) by {
                let a = (q - HEADER_SIZE) as usize;
                assert(a != base);
                assert(hdr1.contains_key(a) && hdr1[a] == old(self).blocks()[a]);
            }
        }
        AllocStep::Done(Allocation::Block(p))
    }

    /// Finishes a large allocation once the arena that `req` asked for is mapped at `base`
    /// (`0` when the mapping failed): the arena becomes one busy block.
    pub fn large_mapped(&mut self, req: LargeRequest, base: usize) -> (r: Allocation)
        requires
            old(self).wf(),
            req.len % 8 == 0,
            req.len > HEADER_SIZE,
            base != 0 ==> base % 8 == 0 && base + req.len <= usize::MAX && region_unused(
                old(self).arenas(),
                base,
                req.len,
            ),
        ensures
            final(self).wf(),
            final(self).page() == old(self).page(),
            final(self).index() == old(self).index(),
            base == 0 ==> r == Allocation::Null && final(self).blocks() == old(self).blocks()
                && final(self).arenas() == old(self).arenas(),
            base != 0 ==> r == Allocation::Block((base + HEADER_SIZE) as usize),
            base != 0 ==> final(self).blocks() == old(self).blocks().insert(
                base,
                header_of(req.len, crate::block::BUSY | FIRST | LAST, 0),
            ),
            base != 0 ==> final(self).arenas() == old(self).arenas().insert(base, req.len),
            r matches Allocation::Block(p) ==> final(self).allocated(p) && p % 8 == 0
                && final(self).block_size(p) == req.len,
            old(self).keeps_others(&*final(self), 0),
    {
        if base == 0 {
            return Allocation::Null;
        }
        let dsize = default_arena_size(self.page);
        proof {
            lemma_dsize(self.page);
            assert(page_ok(self.page));
            crate::heap::state::lemma_header_of(req.len, crate::block::BUSY | FIRST | LAST, 0);
            crate::heap::state::lemma_flag_bits();
        }
        let p = self.state.add_large_arena(Ghost(dsize), base, req.len);
        Allocation::Block(p)
    }

    /// Frees the block whose payload starts at `ptr` (nothing for a null `ptr`): a block larger
    /// than a default arena gives its whole mapping back, which is returned for unmapping; any
    /// other block is merged with its free neighbours and kept free.
    pub fn dealloc(&mut self, ptr: usize) -> (r: Option<Region>)
        requires
            old(self).wf(),
            ptr == 0 || old(self).allocated(ptr),
        ensures
            final(self).wf(),
            final(self).page() == old(self).page(),
            ({
                let b = (ptr - HEADER_SIZE) as usize;
                let hdr = old(self).blocks();
                if ptr == 0 {
                    &&& r is None
                    &&& final(self).blocks() == hdr
                    &&& final(self).index() == old(self).index()
                    &&& final(self).arenas() == old(self).arenas()
                } else if hdr[b].size() > old(self).dsize() {
                    &&& r == Some((Region { base: b, len: hdr[b].size() }))
                    &&& final(self).blocks() == hdr.remove(b)
                    &&& final(self).index() == old(self).index()
                    &&& final(self).arenas() == old(self).arenas().remove(b)
                    &&& old(self).arenas().contains_key(b)
                    &&& old(self).arenas()[b] == hdr[b].size()
                } else {
                    &&& r is None
                    &&& final(self).blocks() == coalesce_result(hdr, b).0
                    &&& coalesce_index(old(self).index(), final(self).index(), hdr, b)
                    &&& final(self).arenas() == old(self).arenas()
                }
            }),
            !final(self).allocated(ptr),
            old(self).keeps_others(&*final(self), ptr),
    {
        if ptr == 0 {
            return None;
        }
        let b = header_from_payload(ptr);
        let sz = self.state.header(b).size();
        let dsize = default_arena_size(self.page);
        proof {
            lemma_dsize(self.page);
            assert(page_ok(self.page));
        }
        if sz > dsize {
            self.state.destroy_arena(Ghost(dsize), b);
            return Some(Region { base: b, len: sz });
        }
        proof {
            self.state.lemma_ready_to_free(dsize, b);
            crate::heap::merge::lemma_coalesce_keeps(self.state.blocks(), b);
        }
        self.state.coalesce_and_insert(Ghost(dsize), b);
        None
    }
}



impl ArenaListAllocator {
    /// A listing of the free list from its head: each block with its size, flags and links, at
    /// most `DUMP_LIMIT` of them; the flag tells whether the listing stopped at the limit.
    pub fn free_list_entries(&self) -> (r: (Vec<FreeListEntry>, bool))
        requires
            self.wf(),
        ensures
            ({
                let o = self.index()@;
                &&& r.0@.len() == (if o.len() < DUMP_LIMIT { o.len() } else { DUMP_LIMIT as nat })
                &&& r.1 == (o.len() >= DUMP_LIMIT)
                &&& forall|i: int| #![trigger r.0@[i]] 0 <= i < r.0@.len() ==> {
                    &&& r.0@[i].block == o[i]
                    &&& r.0@[i].size == self.blocks()[o[i]].size()
                    &&& r.0@[i].flags == self.blocks()[o[i]].flags()
                    &&& !self.blocks()[o[i]].is_busy()
                    &&& r.0@[i].prev_free == (if i > 0 { o[i - 1] } else { 0 })
                    &&& r.0@[i].next_free == (if i + 1 < o.len() { o[i + 1] } else { 0 })
                }
            }),
    {
        let list = self.state.free_index();
        let mem = self.state.memory();
        proof {
            self.state.lemma_index_holds(spec_default_arena_size(self.page));
            assert forall|i: int| 0 <= i < list@.len() implies #[trigger] mem@.contains_key(list@[i]) && !mem@[list@[i]].is_busy() by {
                assert(list@.contains(list@[i]));
                assert(free_sizes(mem@).contains_key(list@[i]));
            }
        }
        let r = list.dump_entries(mem);
        proof {
            list.lemma_links();
            assert forall|i: int| #![trigger r.0@[i]] 0 <= i < r.0@.len() implies !self.blocks()[list@[i]].is_busy() by {
                assert(mem@.contains_key(list@[i]));
            }
        }
        r
    }
}


impl ArenaListAllocator {
    /// What every block shows, free or busy: it sits at a nonzero multiple of 8, it is a whole
    /// number of words larger than a header, and it lies inside one of the mapped arenas, so it
    /// fits in the address space.
    pub proof fn lemma_block_fits(&self, a: usize)
        requires
            self.wf(),
            self.blocks().contains_key(a),
        ensures
            a % 8 == 0,
            a > 0,
            self.blocks()[a].size() % 8 == 0,
            self.blocks()[a].size() > HEADER_SIZE,
            a + self.blocks()[a].size() <= usize::MAX,
            exists|base: usize|
                #[trigger] self.arenas().contains_key(base) && base <= a && a + self.blocks()[a].size()
                    <= base + self.arenas()[base],
    {
        crate::heap::state::lemma_block_facts(&self.state, self.dsize(), a);
        self.state.lemma_block_in_arena(self.dsize(), a);
        let base = choose|base: usize|
            #[trigger] self.state.arena_map().contains_key(base) && base <= a && a + self.blocks()[a].size()
                <= base + self.state.arena_map()[base];
        assert(self.arenas().contains_key(base));
    }

    /// What every block handed out shows: its payload sits at a multiple of 8, and the block is a
    /// whole number of words larger than a header that lies inside one of the mapped arenas.
    pub proof fn lemma_allocated_block(&self, p: usize)
        requires
            self.wf(),
            self.allocated(p),
        ensures
            p % 8 == 0,
            self.block_size(p) % 8 == 0,
            self.block_size(p) > HEADER_SIZE,
            p - HEADER_SIZE + self.block_size(p) <= usize::MAX,
            exists|base: usize|
                #[trigger] self.arenas().contains_key(base) && base <= p - HEADER_SIZE && p - HEADER_SIZE
                    + self.block_size(p) <= base + self.arenas()[base],
    {
        let a = (p - HEADER_SIZE) as usize;
        crate::heap::state::lemma_block_facts(&self.state, self.dsize(), a);
        self.state.lemma_block_in_arena(self.dsize(), a);
        let base = choose|base: usize|
            #[trigger] self.state.arena_map().contains_key(base) && base <= a && a + self.blocks()[a].size()
                <= base + self.state.arena_map()[base];
        assert(self.arenas().contains_key(base));
    }

    /// Freeing a block right after an allocation took it from the free block at `b` for
    /// `needed` bytes gives the block layout back: the free block is no larger than a default
    /// arena, so the block is merged back, and the merge undoes the split.
    pub proof fn lemma_dealloc_undoes_allocate(&self, b: usize, needed: usize)
        requires
            self.wf(),
            self.blocks().contains_key(b),
            !self.blocks()[b].is_busy(),
            needed % 8 == 0,
            needed > HEADER_SIZE,
            needed <= self.blocks()[b].size(),
        ensures
            taken_blocks(self.blocks(), b, needed)[b].size() <= self.dsize(),
            coalesce_result(taken_blocks(self.blocks(), b, needed), b).0 == self.blocks(),
    {
        self.state.lemma_free_undoes_take(self.dsize(), b, needed);
    }

    /// Two blocks handed out at the same time do not overlap.
    pub proof fn lemma_allocated_apart(&self, p: usize, q: usize)
        requires
            self.wf(),
            self.allocated(p),
            self.allocated(q),
            p != q,
        ensures
            p + self.block_size(p) <= q || q + self.block_size(q) <= p,
    {
        self.state.lemma_blocks_apart(self.dsize(), (p - HEADER_SIZE) as usize, (q - HEADER_SIZE) as usize);
    }

    /// The free index holds exactly the free blocks, by their sizes.
    pub proof fn lemma_index_exact(&self)
        requires
            self.wf(),
        ensures
        self.index().inv(),
        forall|b: usize| self.index()@.contains(b) <==> #[trigger] free_sizes(self.blocks()).contains_key(b),
    {
        self.state.lemma_index_holds(self.dsize());
    }

    /// No two neighbouring blocks are both free: a free block that is not the last of its arena
    /// is followed by a busy one.
    pub proof fn lemma_coalesced(&self, a: usize)
        requires
            self.wf(),
            self.blocks().contains_key(a),
            !self.blocks()[a].is_busy(),
            !self.blocks()[a].is_last(),
        ensures
            self.blocks().contains_key(nxt(self.blocks(), a)),
            self.blocks()[nxt(self.blocks(), a)].is_busy(),
    {
        self.state.lemma_free_followed_by_busy(self.dsize(), a);
    }
}

} // verus!