pub mod list;

use vstd::prelude::*;
use crate::block::{
    ALIGN, BlockHeader, FIRST, HEADER_SIZE, LAST, align_up, header_from_payload, is_pow2,
    min_free_block_size, round_up,
};
use crate::free::FreeIndex;
use crate::free::avl::FreeTree;
use crate::heap::arena::{
    default_arena_size, large_arena_len, spec_default_arena_size, spec_large_arena_len,
};
use crate::heap::merge::coalesce_result;
use crate::heap::state::{
    AllocState, coalesce_index, free_sizes, grow_fits, grow_index, grown_blocks, header_of, nxt,
    region_unused,
    take_index, taken_blocks,
};
use crate::free::is_best_fit;

verus! {

/// What an allocation hands back: no memory, the dangling address for an empty request, or the
/// payload address of a block.
#[derive(Clone, Copy, Debug, PartialEq, Eq, Structural)]
pub enum Allocation {
    Null,
    Dangling,
    Block(usize),
}

/// A request to map a new default arena of `len` bytes, to serve `needed` bytes; `retry` when
/// this is the last arena that the request may add.
#[derive(Clone, Copy, Debug, PartialEq, Eq, Structural)]
pub struct ArenaRequest {
    pub needed: usize,
    pub len: usize,
    pub retry: bool,
}

/// A request to map an arena of `len` bytes for a single large block.
#[derive(Clone, Copy, Debug, PartialEq, Eq, Structural)]
pub struct LargeRequest {
    pub len: usize,
}

/// The next step of an allocation: done, or waiting for a mapping.
#[derive(Clone, Copy, Debug, PartialEq, Eq, Structural)]
pub enum AllocStep {
    Done(Allocation),
    MapArena(ArenaRequest),
    MapLarge(LargeRequest),
}

/// A mapped region to give back to the system: its base address and length.
#[derive(Clone, Copy, Debug, PartialEq, Eq, Structural)]
pub struct Region {
    pub base: usize,
    pub len: usize,
}

/// The next step of a reallocation.
#[derive(Clone, Copy, Debug, PartialEq, Eq, Structural)]
pub enum ReallocStep {
    /// The result is known.
    Done(Allocation),
    /// There was no block: the result is that of allocating `size` bytes aligned to `align`.
    Fresh { size: usize, align: usize },
    /// The block was released and the result is null; the region, when given, is to be unmapped.
    Freed(Option<Region>),
    /// Allocate `size` bytes aligned to `align`, copy `copy` bytes over, then free the old block.
    Move { size: usize, align: usize, copy: usize },
}

/// A request of `size` bytes aligned to `align` is a valid layout: `align` is a power of two and
/// `size` rounded up to it fits in an `isize`.
pub open spec fn layout_ok(size: usize, align: usize) -> bool {
    is_pow2(align) && size <= isize::MAX - (align - 1)
}

/// Whether `size` and `align` make a valid layout.
pub fn layout_fits(size: usize, align: usize) -> (r: bool)
    requires
        is_pow2(align),
    ensures
        r == layout_ok(size, align),
{
    proof {
        assert(align <= usize::MAX);
    }
    if align - 1 > isize::MAX as usize {
        false
    } else {
        size <= isize::MAX as usize - (align - 1)
    }
}

/// The alignment that a request gets: at least `ALIGN`.
pub open spec fn eff_align(align: usize) -> usize {
    if align > ALIGN {
        align
    } else {
        ALIGN
    }
}

/// The block size for a request of `size` bytes aligned to `align`: header and payload rounded up
/// to the alignment.
pub open spec fn needed_size(size: usize, align: usize) -> usize {
    round_up(HEADER_SIZE + size, eff_align(align) as int) as usize
}

/// The block size for a request of `size` bytes aligned to `align`.
pub fn block_size_for(size: usize, align: usize) -> (r: usize)
    requires
        layout_ok(size, align),
    ensures
        r == needed_size(size, align),
        r % 8 == 0,
        r >= HEADER_SIZE + size,
        r <= isize::MAX + 24,
        r % eff_align(align) == 0,
        size > 0 ==> r > HEADER_SIZE,
{
    let a = if align > ALIGN { align } else { ALIGN };
    proof {
        assert(is_pow2(ALIGN)) by (bit_vector);
        assert(a <= isize::MAX + 1) by {
            if a > isize::MAX + 1 {
                assert(align - 1 > isize::MAX);
            }
        }
        if a > ALIGN {
            assert(a % 8 == 0) by (bit_vector)
                requires
                    a & ((a - 1) as usize) == 0,
                    a > 8,
            ;
        }
    }
    let r = align_up(HEADER_SIZE + size, a);
    proof {
        if a > ALIGN {
            let ri = r as int;
            let ai = a as int;
            let q = ri / ai;
            let m = ai / 8;
            vstd::arithmetic::div_mod::lemma_fundamental_div_mod(ri, ai);
            vstd::arithmetic::div_mod::lemma_fundamental_div_mod(ai, 8);
            assert(ri == ai * q);
            assert(ai == 8 * m);
            assert(ri == 8 * (m * q)) by (nonlinear_arith)
                requires
                    ri == ai * q,
                    ai == 8 * m,
            ;
            vstd::arithmetic::div_mod::lemma_mod_multiples_basic(m * q, 8);
        }
    }
    r
}

/// The allocator over a search tree of free blocks by size.
pub struct ArenaAllocator {
    state: AllocState<FreeTree>,
    page: usize,
}

/// A page size the allocator works with: unknown (zero), or a power of two whose default arena
/// of eight pages fits in a word.
pub open spec fn page_ok(page: usize) -> bool {
    page == 0 || (is_pow2(page) && 8 * page <= usize::MAX)
}

/// A request of `size` bytes aligned to `align` that takes a mapping of its own can be rounded
/// up to whole pages of `page` bytes without overflow.
pub open spec fn large_fits(size: usize, align: usize, page: usize, dsize: usize) -> bool {
    size != 0 && page != 0 && (align > ALIGN || needed_size(size, align) > dsize) ==> needed_size(
        size,
        align,
    ) + page - 1 <= usize::MAX
}

impl ArenaAllocator {
    /// The allocator is sound.
    pub closed spec fn wf(&self) -> bool {
        &&& page_ok(self.page)
        &&& self.state.wf(spec_default_arena_size(self.page))
    }

    /// The page size.
    pub closed spec fn page(&self) -> usize {
        self.page
    }

    /// The size of a default arena.
    pub open spec fn dsize(&self) -> usize {
        spec_default_arena_size(self.page())
    }

    /// The block headers, by address.
    pub closed spec fn blocks(&self) -> Map<usize, BlockHeader> {
        self.state.blocks()
    }

    /// The free tree.
    pub closed spec fn index(&self) -> FreeTree {
        self.state.index()
    }

    /// The mapped arenas, base address to length.
    pub closed spec fn arenas(&self) -> Map<usize, usize> {
        self.state.arena_map()
    }

    /// `ptr` is the payload address of a block handed out by this allocator.
    pub open spec fn allocated(&self, ptr: usize) -> bool {
        ptr >= HEADER_SIZE && self.blocks().contains_key((ptr - HEADER_SIZE) as usize) && self.blocks()[(
        ptr - HEADER_SIZE) as usize].is_busy()
    }

    /// The size in bytes of the block whose payload starts at `ptr`, header included.
    pub open spec fn block_size(&self, ptr: usize) -> usize {
        self.blocks()[(ptr - HEADER_SIZE) as usize].size()
    }

    /// Every block handed out by `self` is still handed out by `post`, with the same size, but
    /// the one whose payload starts at `ptr` (`0` excepts none, as no payload starts there).
    pub open spec fn keeps_others(&self, post: &Self, ptr: usize) -> bool {
        forall|q: usize| #[trigger]
            self.allocated(q) && q != ptr ==> post.allocated(q) && post.block_size(q) == self.block_size(q)
    }

    /// The block whose payload starts at `ptr` lies in a default arena, is to grow to `needed`
    /// bytes, is not the last of its arena, and is followed by a free block with which it has at
    /// least `needed` bytes.
    pub open spec fn next_free_fits(&self, ptr: usize, needed: usize) -> bool {
        let hdr = self.blocks();
        let b = (ptr - HEADER_SIZE) as usize;
        let n = (b + hdr[b].size()) as usize;
        &&& hdr[b].size() <= self.dsize()
        &&& needed >= hdr[b].size()
        &&& !hdr[b].is_last()
        &&& !hdr[n].is_busy()
        &&& hdr[b].size() + hdr[n].size() >= needed
    }

    /// An allocator without arenas, for pages of `page` bytes (`0` when unknown).
    pub fn new(page: usize) -> (r: Self)
        requires
            page_ok(page),
        ensures
            r.wf(),
            r.page() == page,
            r.blocks() == Map::<usize, BlockHeader>::empty(),
            r.arenas() == Map::<usize, usize>::empty(),
    {
        ArenaAllocator { state: AllocState::new(), page }
    }

    /// The page size.
    pub fn page_size(&self) -> (r: usize)
        ensures
            r == self.page(),
    {
        self.page
    }

    /// The size of a default arena.
    pub fn default_arena_size(&self) -> (r: usize)
        requires
            self.wf(),
        ensures
            r == self.dsize(),
    {
        default_arena_size(self.page)
    }

    /// Whether `ptr` is the payload address of a block handed out by this allocator.
    pub fn owns(&self, ptr: usize) -> (r: bool)
        requires
            self.wf(),
        ensures
            r == self.allocated(ptr),
    {
        if ptr < HEADER_SIZE {
            return false;
        }
        let b = ptr - HEADER_SIZE;
        if !self.state.contains(b) {
            return false;
        }
        self.state.header(b).is_busy()
    }

    /// The size in bytes of the block whose payload starts at `ptr`, header included.
    pub fn block_size_of(&self, ptr: usize) -> (r: usize)
        requires
            self.wf(),
            self.allocated(ptr),
        ensures
            r == self.block_size(ptr),
    {
        self.state.header(ptr - HEADER_SIZE).size()
    }
}


/// A default arena holds a whole number of words.
pub proof fn lemma_dsize(page: usize)
    requires
        page_ok(page),
    ensures
        spec_default_arena_size(page) % 8 == 0,
        spec_default_arena_size(page) == (if page == 0 { 32768 } else { 8 * page }),
        8 * page <= usize::MAX,
{
    if page != 0 {
        vstd::arithmetic::div_mod::lemma_mod_multiples_basic(page as int, 8);
        vstd::arithmetic::mul::lemma_mul_is_commutative(page as int, 8);
    }
}

/// The mapping for a large block is a whole number of words, at least the block itself.
pub proof fn lemma_large_len(needed: usize, page: usize)
    requires
        page_ok(page),
        needed % 8 == 0,
        needed > HEADER_SIZE,
        page != 0 ==> needed + page - 1 <= usize::MAX,
    ensures
        spec_large_arena_len(needed, page) % 8 == 0,
        spec_large_arena_len(needed, page) >= needed,
        spec_large_arena_len(needed, page) > HEADER_SIZE,
{
    if page != 0 {
        crate::block::lemma_align_up_pow2(needed, page);
        let r = spec_large_arena_len(needed, page);
        if page >= 8 {
            assert(page % 8 == 0) by (bit_vector)
                requires
                    page & ((page - 1) as usize) == 0,
                    page >= 8,
            ;
            let ri = r as int;
            let pi = page as int;
            let q = ri / pi;
            let m = pi / 8;
            vstd::arithmetic::div_mod::lemma_fundamental_div_mod(ri, pi);
            vstd::arithmetic::div_mod::lemma_fundamental_div_mod(pi, 8);
            assert(ri == 8 * (m * q)) by (nonlinear_arith)
                requires
                    ri == pi * q,
                    pi == 8 * m,
            ;
            vstd::arithmetic::div_mod::lemma_mod_multiples_basic(m * q, 8);
        } else {
            assert(8usize % page == 0) by (bit_vector)
                requires
                    page & ((page - 1) as usize) == 0,
                    page < 8,
                    page != 0,
            ;
            let ni = needed as int;
            let pi = page as int;
            vstd::arithmetic::div_mod::lemma_fundamental_div_mod(ni, 8);
            vstd::arithmetic::div_mod::lemma_fundamental_div_mod(8, pi);
            let k = (8int / pi) * (ni / 8);
            assert(ni == k * pi) by (nonlinear_arith)
                requires
                    ni == 8 * (ni / 8),
                    8int == pi * (8int / pi),
                    k == (8int / pi) * (ni / 8),
            ;
            vstd::arithmetic::div_mod::lemma_mod_multiples_basic(k, pi);
            assert(ni % pi == 0);
            let ri = r as int;
            vstd::arithmetic::div_mod::lemma_fundamental_div_mod(ri, pi);
            vstd::arithmetic::div_mod::lemma_fundamental_div_mod(ni, pi);
            let qr = ri / pi;
            let qn = ni / pi;
            assert(ri == qr * pi && ni == qn * pi);
            assert(ri == ni) by (nonlinear_arith)
                requires
                    ri == qr * pi,
                    ni == qn * pi,
                    ni <= ri < ni + pi,
                    pi > 0,
            ;
        }
    }
}

impl ArenaAllocator {
    /// Begins allocating `size` bytes aligned to `align`: an empty request gets the dangling
    /// address; a request with a larger alignment than `ALIGN`, or too large for a default arena,
    /// asks for a mapping of its own; otherwise the best-fitting free block is taken, or a new
    /// default arena is asked for when none fits.
    pub fn allocate(&mut self, size: usize, align: usize) -> (r: AllocStep)
        requires
            old(self).wf(),
            layout_ok(size, align),
            large_fits(size, align, old(self).page(), old(self).dsize()),
        ensures
            final(self).wf(),
            final(self).page() == old(self).page(),
            final(self).arenas() == old(self).arenas(),
            ({
                let needed = needed_size(size, align);
                let dsize = old(self).dsize();
                let free = free_sizes(old(self).blocks());
                let b = old(self).index().pick(free, needed);
                let unchanged = final(self).blocks() == old(self).blocks() && final(self).index()
                    == old(self).index();
                if size == 0 {
                    r == AllocStep::Done(Allocation::Dangling) && unchanged
                } else if align > ALIGN || needed > dsize {
                    &&& r == AllocStep::MapLarge(
                        (LargeRequest { len: spec_large_arena_len(needed, old(self).page()) }),
                    )
                    &&& unchanged
                } else if free.dom() =~= Set::<usize>::empty() {
                    &&& r == AllocStep::MapArena(
                        (ArenaRequest { needed, len: dsize, retry: false }),
                    )
                    &&& unchanged
                } else if b == 0 {
                    &&& r == AllocStep::MapArena((ArenaRequest { needed, len: dsize, retry: true }))
                    &&& unchanged
                } else {
                    &&& r == AllocStep::Done(Allocation::Block((b + HEADER_SIZE) as usize))
                    &&& final(self).blocks() == taken_blocks(old(self).blocks(), b, needed)
                    &&& take_index(old(self).index(), final(self).index(), old(self).blocks(), b, needed)
                    &&& is_best_fit(free, needed, b)
                }
            }),
            r matches AllocStep::MapLarge(q) ==> q.len % 8 == 0 && q.len > HEADER_SIZE,
            r matches AllocStep::MapArena(q) ==> q.len == final(self).dsize() && q.needed <= q.len
                && q.needed % 8 == 0 && q.needed > HEADER_SIZE,
            r matches AllocStep::Done(Allocation::Block(p)) ==> final(self).allocated(p) && p % 8 == 0
                && final(self).block_size(p) >= needed_size(size, align),
            old(self).keeps_others(&*final(self), 0),
    {
        if size == 0 {
            return AllocStep::Done(Allocation::Dangling);
        }
        proof {
            lemma_dsize(self.page);
        }
        let req_align = align;
        if req_align > ALIGN {
            let needed = block_size_for(size, req_align);
            proof {
                lemma_large_len(needed, self.page);
            }
            return AllocStep::MapLarge(LargeRequest { len: large_arena_len(needed, self.page) });
        }
        let needed = block_size_for(size, req_align);
        let dsize = default_arena_size(self.page);
        if needed > dsize {
            proof {
                lemma_large_len(needed, self.page);
            }
            return AllocStep::MapLarge(LargeRequest { len: large_arena_len(needed, self.page) });
        }
        if self.state.is_empty(Ghost(dsize)) {
            return AllocStep::MapArena(ArenaRequest { needed, len: dsize, retry: false });
        }
        let b = self.state.find_best_fit(Ghost(dsize), needed);
        if b == 0 {
            return AllocStep::MapArena(ArenaRequest { needed, len: dsize, retry: true });
        }
        let p = self.state.split_and_take(Ghost(dsize), b, needed);
        proof {
            crate::heap::state::lemma_block_facts(&self.state, dsize, b);
        }
        AllocStep::Done(Allocation::Block(p))
    }
}


impl ArenaAllocator {
    /// Goes on with an allocation once the arena that `req` asked for is mapped at `base`
    /// (`0` when the mapping failed): the arena becomes one free block and the best-fitting free
    /// block is taken; when none fits, a second arena is asked for, once.
    pub fn arena_mapped(&mut self, req: ArenaRequest, base: usize) -> (r: AllocStep)
        requires
            old(self).wf(),
            req.len == old(self).dsize(),
            req.needed <= req.len,
            req.needed % 8 == 0,
            req.needed > HEADER_SIZE,
            base != 0 ==> base % 8 == 0 && base + req.len <= usize::MAX && region_unused(
                old(self).arenas(),
                base,
                req.len,
            ),
        ensures
            final(self).wf(),
            final(self).page() == old(self).page(),
            base == 0 ==> r == AllocStep::Done(Allocation::Null),
            base == 0 ==> final(self).blocks() == old(self).blocks(),
            base == 0 ==> final(self).index() == old(self).index(),
            base == 0 ==> final(self).arenas() == old(self).arenas(),
            base != 0 ==> final(self).arenas() == old(self).arenas().insert(base, req.len),
            base != 0 ==> exists|mid: FreeTree|
                #[trigger] old(self).index().added(&mid, base, req.len) && ({
                    let hdr1 = old(self).blocks().insert(base, header_of(req.len, FIRST | LAST, 0));
                    let b = mid.pick(free_sizes(hdr1), req.needed);
                    &&& b != 0
                    &&& r == AllocStep::Done(Allocation::Block((b + HEADER_SIZE) as usize))
                    &&& final(self).blocks() == taken_blocks(hdr1, b, req.needed)
                    &&& take_index(mid, final(self).index(), hdr1, b, req.needed)
                }),
            r matches AllocStep::Done(Allocation::Block(p)) ==> final(self).allocated(p) && p % 8 == 0
                && final(self).block_size(p) >= req.needed,
            r matches AllocStep::MapArena(q) ==> q.len == final(self).dsize() && q.needed == req.needed,
            old(self).keeps_others(&*final(self), 0),
    {
        if base == 0 {
            return AllocStep::Done(Allocation::Null);
        }
        let dsize = default_arena_size(self.page);
        proof {
            lemma_dsize(self.page);
        }
        self.state.add_default_arena(Ghost(dsize), base, req.len);
        let ghost mid = self.state.index();
        let ghost hdr1 = self.state.blocks();
        let b = self.state.find_best_fit(Ghost(dsize), req.needed);
        proof {
            crate::heap::state::lemma_flag_bits();
            crate::heap::state::lemma_header_of(req.len, FIRST | LAST, 0);
            assert(hdr1[base] == header_of(req.len, FIRST | LAST, 0));
            assert(free_sizes(hdr1).contains_key(base));
            assert(free_sizes(hdr1)[base] >= req.needed);
        }
        if b == 0 {
            if !req.retry {
                return AllocStep::MapArena(ArenaRequest { needed: req.needed, len: dsize, retry: true });
            }
            return AllocStep::Done(Allocation::Null);
        }
        let p = self.state.split_and_take(Ghost(dsize), b, req.needed);
        proof {
            assert(old(self).index().added(&mid, base, req.len));
            crate::heap::state::lemma_block_facts(&self.state, dsize, b);
            assert forall|q: usize| #[trigger] old(self).allocated(q) && q != 0 implies self.allocated(q)
                && self.block_size(q) == old(self).block_size(q) by {
                let a = (q - HEADER_SIZE) as usize;
                assert(a != base);
                assert(hdr1.contains_key(a) && hdr1[a] == old(self).blocks()[a]);
            }
        }
        AllocStep::Done(Allocation::Block(p))
    }

    /// Finishes a large allocation once the arena that `req` asked for is mapped at `base`
    /// (`0` when the mapping failed): the arena becomes one busy block.
    pub fn large_mapped(&mut self, req: LargeRequest, base: usize) -> (r: Allocation)
        requires
            old(self).wf(),
            req.len % 8 == 0,
            req.len > HEADER_SIZE,
            base != 0 ==> base % 8 == 0 && base + req.len <= usize::MAX && region_unused(
                old(self).arenas(),
                base,
                req.len,
            ),
        ensures
            final(self).wf(),
            final(self).page() == old(self).page(),
            final(self).index() == old(self).index(),
            base == 0 ==> r == Allocation::Null && final(self).blocks() == old(self).blocks()
                && final(self).arenas() == old(self).arenas(),
            base != 0 ==> r == Allocation::Block((base + HEADER_SIZE) as usize),
            base != 0 ==> final(self).blocks() == old(self).blocks().insert(
                base,
                header_of(req.len, crate::block::BUSY | FIRST | LAST, 0),
            ),
            base != 0 ==> final(self).arenas() == old(self).arenas().insert(base, req.len),
            r matches Allocation::Block(p) ==> final(self).allocated(p) && p % 8 == 0
                && final(self).block_size(p) == req.len,
            old(self).keeps_others(&*final(self), 0),
    {
        if base == 0 {
            return Allocation::Null;
        }
        let dsize = default_arena_size(self.page);
        proof {
            lemma_dsize(self.page);
            crate::heap::state::lemma_header_of(req.len, crate::block::BUSY | FIRST | LAST, 0);
            crate::heap::state::lemma_flag_bits();
        }
        let p = self.state.add_large_arena(Ghost(dsize), base, req.len);
        Allocation::Block(p)
    }

    /// Frees the block whose payload starts at `ptr` (nothing for a null `ptr`): a block larger
    /// than a default arena gives its whole mapping back, which is returned for unmapping; any
    /// other block is merged with its free neighbours and kept free.
    pub fn dealloc(&mut self, ptr: usize) -> (r: Option<Region>)
        requires
            old(self).wf(),
            ptr == 0 || old(self).allocated(ptr),
        ensures
            final(self).wf(),
            final(self).page() == old(self).page(),
            ({
                let b = (ptr - HEADER_SIZE) as usize;
                let hdr = old(self).blocks();
                if ptr == 0 {
                    &&& r is None
                    &&& final(self).blocks() == hdr
                    &&& final(self).index() == old(self).index()
                    &&& final(self).arenas() == old(self).arenas()
                } else if hdr[b].size() > old(self).dsize() {
                    &&& r == Some((Region { base: b, len: hdr[b].size() }))
                    &&& final(self).blocks() == hdr.remove(b)
                    &&& final(self).index() == old(self).index()
                    &&& final(self).arenas() == old(self).arenas().remove(b)
                    &&& old(self).arenas().contains_key(b)
                    &&& old(self).arenas()[b] == hdr[b].size()
                } else {
                    &&& r is None
                    &&& final(self).blocks() == coalesce_result(hdr, b).0
                    &&& coalesce_index(old(self).index(), final(self).index(), hdr, b)
                    &&& final(self).arenas() == old(self).arenas()
                }
            }),
            !final(self).allocated(ptr),
            old(self).keeps_others(&*final(self), ptr),
    {
        if ptr == 0 {
            return None;
        }
        let b = header_from_payload(ptr);
        let sz = self.state.header(b).size();
        let dsize = default_arena_size(self.page);
        proof {
            lemma_dsize(self.page);
        }
        if sz > dsize {
            self.state.destroy_arena(Ghost(dsize), b);
            return Some(Region { base: b, len: sz });
        }
        proof {
            self.state.lemma_ready_to_free(dsize, b);
            crate::heap::merge::lemma_coalesce_keeps(self.state.blocks(), b);
        }
        self.state.coalesce_and_insert(Ghost(dsize), b);
        None
    }
}


/// The smaller of `a` and `b`.
pub open spec fn min_usize(a: usize, b: usize) -> usize {
    if a <= b {
        a
    } else {
        b
    }
}

impl ArenaAllocator {
    /// Begins resizing the block whose payload starts at `ptr` (allocated with alignment
    /// `align`) to `new_size` bytes: a null `ptr` becomes a fresh allocation, a zero `new_size`
    /// frees the block; a block larger than a default arena stays as it is, and must not be
    /// asked to grow; a block that shrinks gives its tail back when the tail can stand alone; a
    /// block that grows takes in the free block after it when that one is large enough, and else
    /// moves.
    pub fn realloc(&mut self, ptr: usize, align: usize, new_size: usize) -> (r: ReallocStep)
        requires
            old(self).wf(),
            is_pow2(align),
            ptr == 0 || old(self).allocated(ptr),
            ptr != 0 && new_size != 0 ==> layout_ok(new_size, align),
            ptr != 0 && new_size != 0 && old(self).block_size(ptr) > old(self).dsize() ==> needed_size(
                new_size,
                align,
            ) <= old(self).block_size(ptr),
        ensures
            final(self).wf(),
            final(self).page() == old(self).page(),
            ({
                let hdr = old(self).blocks();
                let b = (ptr - HEADER_SIZE) as usize;
                let old_total = hdr[b].size();
                let copy = min_usize((old_total - HEADER_SIZE) as usize, new_size);
                let needed = needed_size(new_size, align);
                let unchanged = final(self).blocks() == hdr && final(self).index() == old(
                    self,
                ).index() && final(self).arenas() == old(self).arenas();
                if ptr == 0 {
                    &&& unchanged
                    &&& r == (if layout_ok(new_size, align) {
                        ReallocStep::Fresh { size: new_size, align }
                    } else {
                        ReallocStep::Done(Allocation::Null)
                    })
                } else if new_size == 0 {
                    if old_total > old(self).dsize() {
                        &&& r == ReallocStep::Freed(Some((Region { base: b, len: old_total })))
                        &&& final(self).blocks() == hdr.remove(b)
                        &&& final(self).arenas() == old(self).arenas().remove(b)
                        &&& final(self).index() == old(self).index()
                    } else {
                        &&& r == ReallocStep::Freed(None)
                        &&& final(self).blocks() == coalesce_result(hdr, b).0
                        &&& coalesce_index(old(self).index(), final(self).index(), hdr, b)
                        &&& final(self).arenas() == old(self).arenas()
                    }
                } else if old_total > old(self).dsize() {
                    &&& unchanged
                    &&& r == ReallocStep::Done(Allocation::Block(ptr))
                } else if needed < old_total {
                    &&& r == ReallocStep::Done(Allocation::Block(ptr))
                    &&& final(self).arenas() == old(self).arenas()
                    &&& if old_total - needed >= 32 {
                        &&& final(self).blocks() == coalesce_result(
                            taken_blocks(hdr, b, needed),
                            (b + needed) as usize,
                        ).0
                        &&& coalesce_index(
                            old(self).index(),
                            final(self).index(),
                            taken_blocks(hdr, b, needed),
                            (b + needed) as usize,
                        )
                    } else {
                        unchanged
                    }
                } else if grow_fits(hdr, b, needed) {
                    &&& r == ReallocStep::Done(Allocation::Block(ptr))
                    &&& final(self).blocks() == grown_blocks(hdr, b, needed)
                    &&& grow_index(old(self).index(), final(self).index(), hdr, b, needed)
                    &&& final(self).arenas() == old(self).arenas()
                } else {
                    &&& unchanged
                    &&& r == ReallocStep::Move { size: new_size, align, copy }
                }
            }),
            r matches ReallocStep::Done(Allocation::Block(p)) ==> p == ptr && final(self).allocated(p)
                && final(self).block_size(p) >= needed_size(new_size, align),
            r is Freed ==> !final(self).allocated(ptr),
            old(self).keeps_others(&*final(self), ptr),
            ptr != 0 && new_size != 0 && old(self).next_free_fits(ptr, needed_size(new_size, align))
                ==> {
                let b = (ptr - HEADER_SIZE) as usize;
                let needed = needed_size(new_size, align);
                let combined = old(self).block_size(ptr) + old(self).blocks()[(b + old(self).block_size(
                    ptr,
                )) as usize].size();
                &&& r == ReallocStep::Done(Allocation::Block(ptr))
                &&& final(self).block_size(ptr) == (if combined - needed >= 32 {
                    needed as int
                } else {
                    combined
                })
                &&& combined - needed >= 32 ==> {
                    &&& final(self).blocks().contains_key((b + needed) as usize)
                    &&& !final(self).blocks()[(b + needed) as usize].is_busy()
                    &&& final(self).blocks()[(b + needed) as usize].size() == combined - needed
                }
            },
    {
        if ptr == 0 {
            if !layout_fits(new_size, align) {
                return ReallocStep::Done(Allocation::Null);
            }
            return ReallocStep::Fresh { size: new_size, align };
        }
        if new_size == 0 {
            let u = self.dealloc(ptr);
            return ReallocStep::Freed(u);
        }
        proof {
            lemma_dsize(self.page);
        }
        let b = header_from_payload(ptr);
        proof {
            crate::heap::state::lemma_block_facts(&self.state, spec_default_arena_size(self.page), b);
        }
        let old_total = self.state.header(b).size();
        let old_payload = old_total.saturating_sub(HEADER_SIZE);
        let req_align = align;
        let needed_total = block_size_for(new_size, req_align);
        let copy = if old_payload <= new_size {
            old_payload
        } else {
            new_size
        };
        let dsize = default_arena_size(self.page);
        if old_total > dsize {
            return ReallocStep::Done(Allocation::Block(ptr));
        }
        if needed_total < old_total {
            let remainder = old_total - needed_total;
            if remainder >= min_free_block_size() {
                self.state.shrink_block(Ghost(dsize), b, needed_total);
            }
            proof {
                assert(self.state.blocks().contains_key(b));
            }
            return ReallocStep::Done(Allocation::Block(ptr));
        }
        proof {
            if self.next_free_fits(ptr, needed_total) {
                self.state.lemma_grow_in_place(dsize, b, needed_total);
            }
        }
        if self.state.grow_into_next(Ghost(dsize), b, needed_total) {
            return ReallocStep::Done(Allocation::Block(ptr));
        }
        ReallocStep::Move { size: new_size, align: req_align, copy }
    }
}


impl ArenaAllocator {
    /// What every block shows, free or busy: it sits at a nonzero multiple of 8, it is a whole
    /// number of words larger than a header, and it lies inside one of the mapped arenas, so it
    /// fits in the address space.
    pub proof fn lemma_block_fits(&self, a: usize)
        requires
            self.wf(),
            self.blocks().contains_key(a),
        ensures
            a % 8 == 0,
            a > 0,
            self.blocks()[a].size() % 8 == 0,
            self.blocks()[a].size() > HEADER_SIZE,
            a + self.blocks()[a].size() <= usize::MAX,
            exists|base: usize|
                #[trigger] self.arenas().contains_key(base) && base <= a && a + self.blocks()[a].size()
                    <= base + self.arenas()[base],
    {
        crate::heap::state::lemma_block_facts(&self.state, self.dsize(), a);
        self.state.lemma_block_in_arena(self.dsize(), a);
        let base = choose|base: usize|
            #[trigger] self.state.arena_map().contains_key(base) && base <= a && a + self.blocks()[a].size()
                <= base + self.state.arena_map()[base];
        assert(self.arenas().contains_key(base));
    }

    /// What every block handed out shows: its payload sits at a multiple of 8, and the block is a
    /// whole number of words larger than a header that lies inside one of the mapped arenas.
    pub proof fn lemma_allocated_block(&self, p: usize)
        requires
            self.wf(),
            self.allocated(p),
        ensures
            p % 8 == 0,
            self.block_size(p) % 8 == 0,
            self.block_size(p) > HEADER_SIZE,
            p - HEADER_SIZE + self.block_size(p) <= usize::MAX,
            exists|base: usize|
                #[trigger] self.arenas().contains_key(base) && base <= p - HEADER_SIZE && p - HEADER_SIZE
                    + self.block_size(p) <= base + self.arenas()[base],
    {
        let a = (p - HEADER_SIZE) as usize;
        crate::heap::state::lemma_block_facts(&self.state, self.dsize(), a);
        self.state.lemma_block_in_arena(self.dsize(), a);
        let base = choose|base: usize|
            #[trigger] self.state.arena_map().contains_key(base) && base <= a && a + self.blocks()[a].size()
                <= base + self.state.arena_map()[base];
        assert(self.arenas().contains_key(base));
    }

    /// Freeing a block right after an allocation took it from the free block at `b` for
    /// `needed` bytes gives the block layout back: the free block is no larger than a default
    /// arena, so the block is merged back, and the merge undoes the split.
    pub proof fn lemma_dealloc_undoes_allocate(&self, b: usize, needed: usize)
        requires
            self.wf(),
            self.blocks().contains_key(b),
            !self.blocks()[b].is_busy(),
            needed % 8 == 0,
            needed > HEADER_SIZE,
            needed <= self.blocks()[b].size(),
        ensures
            taken_blocks(self.blocks(), b, needed)[b].size() <= self.dsize(),
            coalesce_result(taken_blocks(self.blocks(), b, needed), b).0 == self.blocks(),
    {
        self.state.lemma_free_undoes_take(self.dsize(), b, needed);
    }

    /// Growing in place: a block of a default arena that is not the last of its arena and is
    /// followed by a free block with which it has at least `needed` bytes can grow in place,
    /// wherever that free block lies in the arena, so `realloc` keeps it (`grow_fits`). The grown
    /// block is busy and has exactly `needed` bytes when the rest can stand as a free block, and
    /// then a free block of exactly the rest follows it; else it takes both blocks whole.
    pub proof fn lemma_realloc_grows_in_place(&self, ptr: usize, needed: usize)
        requires
            self.wf(),
            self.allocated(ptr),
            needed % 8 == 0,
            self.next_free_fits(ptr, needed),
        ensures
            ({
                let hdr = self.blocks();
                let b = (ptr - HEADER_SIZE) as usize;
                let combined = self.block_size(ptr) + hdr[(b + self.block_size(ptr)) as usize].size();
                let g = grown_blocks(hdr, b, needed);
                &&& grow_fits(hdr, b, needed)
                &&& g.contains_key(b)
                &&& g[b].is_busy()
                &&& g[b].size() == (if combined - needed >= 32 { needed as int } else { combined })
                &&& combined - needed >= 32 ==> {
                    &&& g.contains_key((b + needed) as usize)
                    &&& !g[(b + needed) as usize].is_busy()
                    &&& g[(b + needed) as usize].size() == combined - needed
                }
            }),
    {
        self.state.lemma_grow_in_place(self.dsize(), (ptr - HEADER_SIZE) as usize, needed);
    }

    /// Two blocks handed out at the same time do not overlap.
    pub proof fn lemma_allocated_apart(&self, p: usize, q: usize)
        requires
            self.wf(),
            self.allocated(p),
            self.allocated(q),
            p != q,
        ensures
            p + self.block_size(p) <= q || q + self.block_size(q) <= p,
    {
        self.state.lemma_blocks_apart(self.dsize(), (p - HEADER_SIZE) as usize, (q - HEADER_SIZE) as usize);
    }

    /// The free index holds exactly the free blocks, by their sizes.
    pub proof fn lemma_index_exact(&self)
        requires
            self.wf(),
        ensures
        self.index().inv(),
        crate::free::avl::tree_holds(self.index()@, free_sizes(self.blocks())),
    {
        self.state.lemma_index_holds(self.dsize());
    }

    /// No two neighbouring blocks are both free: a free block that is not the last of its arena
    /// is followed by a busy one.
    pub proof fn lemma_coalesced(&self, a: usize)
        requires
            self.wf(),
            self.blocks().contains_key(a),
            !self.blocks()[a].is_busy(),
            !self.blocks()[a].is_last(),
        ensures
            self.blocks().contains_key(nxt(self.blocks(), a)),
            self.blocks()[nxt(self.blocks(), a)].is_busy(),
    {
        self.state.lemma_free_followed_by_busy(self.dsize(), a);
    }
}

} // verus!