use vstd::prelude::*;
use crate::block::{
    BlockHeader, BUSY, FIRST, FLAG_MASK, HEADER_SIZE, LAST, flags_of, lemma_flags_of, min_free_block_size,
    next_block, payload_ptr, prev_block,
};
use crate::free::FreeIndex;
use crate::heap::memory::Memory;
use crate::heap::merge::{
    busy_kept, cleared, coalesce_result, coalesced_except, lemma_clear, lemma_coalesce_keeps,
    lemma_finish, lemma_finish_busy, lemma_merge_next, lemma_merge_next_keeps,
    lemma_merge_prev, merge_with_next, merge_with_prev, pending,
};

verus! {

/// Address of the block right after the block at `a`.
pub open spec fn nxt(hdr: Map<usize, BlockHeader>, a: usize) -> usize {
    (a + hdr[a].size()) as usize
}

/// Address of the block right before the block at `a`.
pub open spec fn prv(hdr: Map<usize, BlockHeader>, a: usize) -> usize {
    (a - hdr[a].prev_size) as usize
}

/// The free blocks of `hdr` with their sizes.
pub open spec fn free_sizes(hdr: Map<usize, BlockHeader>) -> Map<usize, usize> {
    Map::new(|a: usize| hdr.contains_key(a) && !hdr[a].is_busy(), |a: usize| hdr[a].size())
}

/// The arenas (base address to length) lie apart from each other, in the address space.
pub open spec fn arenas_ok(arenas: Map<usize, usize>) -> bool {
    &&& forall|base: usize| #[trigger]
        arenas.contains_key(base) ==> base > 0 && base % 8 == 0 && arenas[base] > 0 && base
            + arenas[base] <= usize::MAX
    &&& forall|b1: usize, b2: usize|
        #![trigger arenas.contains_key(b1), arenas.contains_key(b2)]
        arenas.contains_key(b1) && arenas.contains_key(b2) && b1 != b2 ==> b1 + arenas[b1] <= b2
            || b2 + arenas[b2] <= b1
}

/// The block at `a` lies inside its arena, is linked to its neighbours, and its flags say where
/// in the arena it stands. An arena larger than `dsize` holds a single block.
pub open spec fn links_ok(
    hdr: Map<usize, BlockHeader>,
    arenas: Map<usize, usize>,
    owner: Map<usize, usize>,
    dsize: usize,
    a: usize,
) -> bool {
    let h = hdr[a];
    let s = h.size();
    let base = owner[a];
    let len = arenas[base];
    &&& owner.contains_key(a)
    &&& arenas.contains_key(base)
    &&& a % 8 == 0
    &&& s % 8 == 0
    &&& s > HEADER_SIZE
    &&& base <= a
    &&& a + s <= base + len
    &&& h.is_first() <==> a == base
    &&& h.is_last() <==> a + s == base + len
    &&& !h.is_last() ==> {
        &&& hdr.contains_key(nxt(hdr, a))
        &&& hdr[nxt(hdr, a)].prev_size == s
        &&& owner[nxt(hdr, a)] == base
    }
    &&& !h.is_first() ==> {
        &&& h.prev_size <= a
        &&& hdr.contains_key(prv(hdr, a))
        &&& hdr[prv(hdr, a)].size() == h.prev_size
        &&& owner[prv(hdr, a)] == base
    }
    &&& len > dsize ==> a == base && s == len && h.is_busy()
}

/// The blocks at `a` and `c` do not overlap.
pub open spec fn apart(hdr: Map<usize, BlockHeader>, a: usize, c: usize) -> bool {
    a + hdr[a].size() <= c || c + hdr[c].size() <= a
}

/// The layout of all blocks is sound.
#[verifier::opaque]
pub open spec fn heap_ok(
    hdr: Map<usize, BlockHeader>,
    arenas: Map<usize, usize>,
    owner: Map<usize, usize>,
    dsize: usize,
) -> bool {
    &&& arenas_ok(arenas)
    &&& forall|a: usize| #[trigger] hdr.contains_key(a) ==> links_ok(hdr, arenas, owner, dsize, a)
    &&& forall|a: usize, c: usize|
        #![trigger hdr.contains_key(a), hdr.contains_key(c)]
        hdr.contains_key(a) && hdr.contains_key(c) && a != c ==> apart(hdr, a, c)
}

/// The free block at `a` is not followed by another free block.
pub open spec fn merged_at(hdr: Map<usize, BlockHeader>, a: usize) -> bool {
    !hdr[a].is_busy() && !hdr[a].is_last() ==> hdr[nxt(hdr, a)].is_busy()
}

/// No two neighbouring blocks are both free.
#[verifier::opaque]
pub open spec fn coalesced(hdr: Map<usize, BlockHeader>) -> bool {
    forall|a: usize| #[trigger] hdr.contains_key(a) ==> merged_at(hdr, a)
}

/// The range `[base, base + len)` overlaps no arena.
pub open spec fn region_unused(arenas: Map<usize, usize>, base: usize, len: usize) -> bool {
    forall|b: usize| #[trigger]
        arenas.contains_key(b) ==> b + arenas[b] <= base || base + len <= b
}

/// The header of a block of `size` bytes with the given flags, after a block of `prev_size` bytes.
pub open spec fn header_of(size: usize, flags: usize, prev_size: usize) -> BlockHeader {
    BlockHeader { size_and_flags: size | (flags & FLAG_MASK), prev_size }
}

/// The allocator's bookkeeping: the block headers and the index of free blocks.
pub struct AllocState<F> {
    mem: Memory,
    free: F,
    /// The mapped arenas, base address to length.
    arenas: Ghost<Map<usize, usize>>,
    /// The arena of each block, by block address.
    owner: Ghost<Map<usize, usize>>,
}

impl<F: FreeIndex> AllocState<F> {
    /// The block headers, by address.
    pub closed spec fn blocks(&self) -> Map<usize, BlockHeader> {
        self.mem@
    }

    /// The mapped arenas, base address to length.
    pub closed spec fn arena_map(&self) -> Map<usize, usize> {
        self.arenas@
    }

    /// The index of free blocks.
    pub closed spec fn index(&self) -> F {
        self.free
    }

    /// The state is sound, with `dsize` bytes in a default arena.
    pub closed spec fn wf(&self, dsize: usize) -> bool {
        &&& heap_ok(self.mem@, self.arenas@, self.owner@, dsize)
        &&& coalesced(self.mem@)
        &&& self.free.holds(free_sizes(self.mem@))
    }

    /// State without any arena.
    pub fn new() -> (r: Self)
        ensures
            forall|dsize: usize| r.wf(dsize),
            r.blocks() == Map::<usize, BlockHeader>::empty(),
            r.arena_map() == Map::<usize, usize>::empty(),
    {
        let r = AllocState {
            mem: Memory::new(),
            free: F::empty_index(),
            arenas: Ghost(Map::empty()),
            owner: Ghost(Map::empty()),
        };
        proof {
            reveal(heap_ok);
            reveal(coalesced);
            assert(free_sizes(r.mem@) =~= Map::<usize, usize>::empty());
        }
        r
    }

    /// The free index of a sound state holds exactly the free blocks.
    pub proof fn lemma_index_holds(&self, dsize: usize)
        requires
            self.wf(dsize),
        ensures
            self.index().holds(free_sizes(self.blocks())),
    {
    }

    /// Freeing a block right after it was taken from the free block at `b` for `needed` bytes
    /// gives the block layout back.
    #[verifier::rlimit(40)]
    pub proof fn lemma_free_undoes_take(&self, dsize: usize, b: usize, needed: usize)
        requires
            self.wf(dsize),
            self.blocks().contains_key(b),
            !self.blocks()[b].is_busy(),
            needed % 8 == 0,
            needed > HEADER_SIZE,
            needed <= self.blocks()[b].size(),
        ensures
            coalesce_result(taken_blocks(self.blocks(), b, needed), b).0 == self.blocks(),
            taken_blocks(self.blocks(), b, needed)[b].size() <= dsize,
    {
        let hdr = self.mem@;
        let h = hdr[b];
        let size = h.size();
        let f = h.is_first();
        let l = h.is_last();
        let ps = h.prev_size;
        self.lemma_block(dsize, b);
        crate::block::lemma_rebuild(h);
        lemma_flags_of(false, f, l);
        lemma_header_of(size, flags_of(false, f, l), ps);
        assert(header_of(size, flags_of(false, f, l), ps) == h);
        if !l {
            self.lemma_block(dsize, nxt(hdr, b));
        }
        if !f {
            let p = prv(hdr, b);
            self.lemma_block(dsize, p);
            assert(nxt(hdr, p) == b);
            assert(!hdr[p].is_last());
            assert(hdr[p].is_busy());
        }
        let t = taken_blocks(hdr, b, needed);
        if size - needed >= 32 {
            self.lemma_inside(dsize, b, (b + needed) as usize);
        }
        lemma_taken_keeps(hdr, b, needed);
        if size - needed >= 32 {
            let r = (b + needed) as usize;
            let rem = (size - needed) as usize;
            lemma_header_of(needed, flags_of(true, f, false), ps);
            lemma_flags_of(true, f, false);
            lemma_header_of(rem, flags_of(false, false, l), needed);
            lemma_flags_of(false, false, l);
            lemma_header_of(needed, flags_of(false, f, false), ps);
            lemma_flags_of(false, f, false);
            let c = cleared(t, b);
            assert(c[b] == header_of(needed, flags_of(false, f, false), ps));
            assert(nxt(c, b) == r);
            assert(c[r] == header_of(rem, flags_of(false, false, l), needed));
            let mn = merge_with_next(c, b);
            assert((needed + rem) as usize == size);
            if !l {
                let n = nxt(hdr, b);
                assert(nxt(c, r) == n);
                assert(c[n] == (BlockHeader { prev_size: rem, ..hdr[n] }));
                assert(mn[n] == hdr[n]);
            }
            assert(mn[b] == h);
            assert(mn =~= hdr);
        } else {
            lemma_header_of(size, flags_of(true, f, l), ps);
            lemma_flags_of(true, f, l);
            assert(cleared(t, b) =~= hdr);
        }
    }

    /// Every block of a sound state lies inside one of its mapped arenas.
    pub proof fn lemma_block_in_arena(&self, dsize: usize, a: usize)
        requires
            self.wf(dsize),
            self.blocks().contains_key(a),
        ensures
            exists|base: usize|
                #[trigger] self.arena_map().contains_key(base) && base <= a && a + self.blocks()[a].size()
                    <= base + self.arena_map()[base],
    {
        self.lemma_block(dsize, a);
        let base = self.owner@[a];
        assert(self.arena_map().contains_key(base));
    }

    /// Two blocks of a sound state do not overlap.
    pub proof fn lemma_blocks_apart(&self, dsize: usize, a: usize, c: usize)
        requires
            self.wf(dsize),
            self.blocks().contains_key(a),
            self.blocks().contains_key(c),
            a != c,
        ensures
            apart(self.blocks(), a, c),
    {
        reveal(heap_ok);
    }

    /// A free block of a sound state that is not the last of its arena is followed by a busy
    /// block.
    pub proof fn lemma_free_followed_by_busy(&self, dsize: usize, a: usize)
        requires
            self.wf(dsize),
            self.blocks().contains_key(a),
            !self.blocks()[a].is_busy(),
            !self.blocks()[a].is_last(),
        ensures
            self.blocks().contains_key(nxt(self.blocks(), a)),
            self.blocks()[nxt(self.blocks(), a)].is_busy(),
    {
        self.lemma_block(dsize, a);
    }

    /// Whether a block starts at `b`.
    pub fn contains(&self, b: usize) -> (r: bool)
        ensures
            r == self.blocks().contains_key(b),
    {
        self.mem.contains(b)
    }

    /// The header of the block at `b`.
    pub fn header(&self, b: usize) -> (r: BlockHeader)
        requires
            self.blocks().contains_key(b),
        ensures
            r == self.blocks()[b],
    {
        self.mem.header(b)
    }

    /// The block headers.
    pub fn memory(&self) -> (r: &Memory)
        ensures
            r@ == self.blocks(),
    {
        &self.mem
    }

    /// The free index.
    pub fn free_index(&self) -> (r: &F)
        ensures
            *r == self.index(),
    {
        &self.free
    }

    /// Whether no block is free.
    pub fn is_empty(&self, Ghost(dsize): Ghost<usize>) -> (r: bool)
        requires
            self.wf(dsize),
        ensures
            r == (free_sizes(self.blocks()).dom() =~= Set::<usize>::empty()),
    {
        self.free.index_is_empty(Ghost(free_sizes(self.mem@)))
    }

    /// The free block that a request of `needed` bytes takes, `0` when none is large enough.
    pub fn find_best_fit(&self, Ghost(dsize): Ghost<usize>, needed: usize) -> (r: usize)
        requires
            self.wf(dsize),
        ensures
            r == self.index().pick(free_sizes(self.blocks()), needed),
            crate::free::is_best_fit(free_sizes(self.blocks()), needed, r),
    {
        proof {
            self.free.lemma_pick(free_sizes(self.mem@), needed);
        }
        self.free.best_fit(Ghost(free_sizes(self.mem@)), &self.mem, needed)
    }
}


/// The bits of the flag combinations that blocks are given.
pub proof fn lemma_flag_bits()
    ensures
        (FIRST | LAST) & FLAG_MASK == FIRST | LAST,
        (FIRST | LAST) & BUSY == 0,
        (FIRST | LAST) & FIRST != 0,
        (FIRST | LAST) & LAST != 0,
        (BUSY | FIRST | LAST) & FLAG_MASK == BUSY | FIRST | LAST,
        (BUSY | FIRST | LAST) & BUSY != 0,
        (BUSY | FIRST | LAST) & FIRST != 0,
        (BUSY | FIRST | LAST) & LAST != 0,
        (BUSY | FIRST) & FLAG_MASK == BUSY | FIRST,
        (BUSY | FIRST) & BUSY != 0,
        (BUSY | FIRST) & FIRST != 0,
        (BUSY | FIRST) & LAST == 0,
        (BUSY | LAST) & FLAG_MASK == BUSY | LAST,
        (BUSY | LAST) & BUSY != 0,
        (BUSY | LAST) & FIRST == 0,
        (BUSY | LAST) & LAST != 0,
        BUSY & FLAG_MASK == BUSY,
        BUSY & BUSY != 0,
        BUSY & FIRST == 0,
        BUSY & LAST == 0,
        LAST & FLAG_MASK == LAST,
        LAST & BUSY == 0,
        LAST & FIRST == 0,
        LAST & LAST != 0,
        0usize & BUSY == 0,
        0usize & FIRST == 0,
        0usize & LAST == 0,
        FIRST & FLAG_MASK == FIRST,
        FIRST & BUSY == 0,
        FIRST & FIRST != 0,
        FIRST & LAST == 0,
        (FIRST | LAST) & (FIRST | LAST) == FIRST | LAST,
{
    assert((2usize | 4) & 7 == (2usize | 4) && (2usize | 4) & 1 == 0 && (2usize | 4) & 2 != 0
        && (2usize | 4) & 4 != 0) by (bit_vector);
    assert((1usize | 2 | 4) & 7 == (1usize | 2 | 4) && (1usize | 2 | 4) & 1 != 0 && (1usize | 2
        | 4) & 2 != 0 && (1usize | 2 | 4) & 4 != 0) by (bit_vector);
    assert((1usize | 2) & 7 == (1usize | 2) && (1usize | 2) & 1 != 0 && (1usize | 2) & 2 != 0 && (
    1usize | 2) & 4 == 0) by (bit_vector);
    assert((1usize | 4) & 7 == (1usize | 4) && (1usize | 4) & 1 != 0 && (1usize | 4) & 2 == 0 && (
    1usize | 4) & 4 != 0) by (bit_vector);
    assert(1usize & 7 == 1 && 1usize & 1 != 0 && 1usize & 2 == 0 && 1usize & 4 == 0) by (bit_vector);
    assert(4usize & 7 == 4 && 4usize & 1 == 0 && 4usize & 2 == 0 && 4usize & 4 != 0) by (bit_vector);
    assert(0usize & 1 == 0 && 0usize & 2 == 0 && 0usize & 4 == 0) by (bit_vector);
    assert(2usize & 7 == 2 && 2usize & 1 == 0 && 2usize & 2 != 0 && 2usize & 4 == 0) by (bit_vector);
    assert((2usize | 4) & (2usize | 4) == (2usize | 4)) by (bit_vector);
}

/// A header built from a size that is a multiple of 8 shows that size and the given flags.
pub proof fn lemma_header_of(size: usize, flags: usize, prev_size: usize)
    requires
        size % 8 == 0,
    ensures
        header_of(size, flags, prev_size).size() == size,
        header_of(size, flags, prev_size).flags() == flags & FLAG_MASK,
        header_of(size, flags, prev_size).is_busy() == (flags & BUSY != 0),
        header_of(size, flags, prev_size).is_first() == (flags & FIRST != 0),
        header_of(size, flags, prev_size).is_last() == (flags & LAST != 0),
        header_of(size, flags, prev_size).prev_size == prev_size,
{
    crate::block::lemma_pack(size, flags);
}

/// A sound, coalesced layout with a new arena of `len` bytes at `base`, unused so far, filled by
/// one block with header `h`, stays sound and coalesced. A block larger than a default arena
/// must be busy.
proof fn lemma_new_arena(
    hdr: Map<usize, BlockHeader>,
    arenas: Map<usize, usize>,
    owner: Map<usize, usize>,
    dsize: usize,
    base: usize,
    len: usize,
    h: BlockHeader,
)
    requires
        heap_ok(hdr, arenas, owner, dsize),
        coalesced(hdr),
        region_unused(arenas, base, len),
        base > 0,
        base % 8 == 0,
        len % 8 == 0,
        len > HEADER_SIZE,
        base + len <= usize::MAX,
        h.size() == len,
        h.is_first(),
        h.is_last(),
        h.prev_size == 0,
        len > dsize ==> h.is_busy(),
    ensures
        heap_ok(hdr.insert(base, h), arenas.insert(base, len), owner.insert(base, base), dsize),
        coalesced(hdr.insert(base, h)),
        !hdr.contains_key(base),
        !arenas.contains_key(base),
{
    reveal(heap_ok);
    reveal(coalesced);
    if hdr.contains_key(base) {
        assert(links_ok(hdr, arenas, owner, dsize, base));
        assert(arenas.contains_key(owner[base]));
    }
    assert(!arenas.contains_key(base)) by {
        if arenas.contains_key(base) {
            assert(arenas[base] > 0);
        }
    }
    let nh = hdr.insert(base, h);
    let na = arenas.insert(base, len);
    let no = owner.insert(base, base);
    assert forall|a: usize| #[trigger] nh.contains_key(a) implies links_ok(nh, na, no, dsize, a) by {
        if a != base {
            assert(links_ok(hdr, arenas, owner, dsize, a));
            let b0 = owner[a];
            assert(arenas.contains_key(b0));
            assert(b0 != base);
            if !hdr[a].is_last() {
                assert(nxt(hdr, a) != base);
            }
            if !hdr[a].is_first() {
                assert(prv(hdr, a) != base);
            }
        }
    }
    assert forall|a: usize, c: usize|
        #![trigger nh.contains_key(a), nh.contains_key(c)]
        nh.contains_key(a) && nh.contains_key(c) && a != c implies apart(nh, a, c) by {
        if a != base && c != base {
            assert(apart(hdr, a, c));
        } else if a == base {
            assert(links_ok(hdr, arenas, owner, dsize, c));
            assert(arenas.contains_key(owner[c]));
        } else {
            assert(links_ok(hdr, arenas, owner, dsize, a));
            assert(arenas.contains_key(owner[a]));
        }
    }
    assert forall|a: usize| #[trigger] nh.contains_key(a) implies merged_at(nh, a) by {
        if a != base {
            assert(merged_at(hdr, a));
            assert(links_ok(hdr, arenas, owner, dsize, a));
        }
    }
    assert(arenas_ok(na));
}

impl<F: FreeIndex> AllocState<F> {
    /// Facts about one block of a sound state.
    proof fn lemma_block(&self, dsize: usize, a: usize)
        requires
            self.wf(dsize),
            self.mem@.contains_key(a),
        ensures
            links_ok(self.mem@, self.arenas@, self.owner@, dsize, a),
            merged_at(self.mem@, a),
            a > 0,
            a + self.mem@[a].size() <= usize::MAX,
    {
        reveal(heap_ok);
        reveal(coalesced);
        let base = self.owner@[a];
        assert(self.arenas@.contains_key(base));
    }

    /// No block starts strictly inside another block.
    proof fn lemma_inside(&self, dsize: usize, a: usize, x: usize)
        requires
            self.wf(dsize),
            self.mem@.contains_key(a),
            a < x < a + self.mem@[a].size(),
        ensures
            !self.mem@.contains_key(x),
    {
        reveal(heap_ok);
        if self.mem@.contains_key(x) {
            assert(apart(self.mem@, a, x));
        }
    }

    /// Puts a new default arena of `len` bytes at `base` to use: one free block that fills it.
    pub fn add_default_arena(&mut self, Ghost(dsize): Ghost<usize>, base: usize, len: usize)
        requires
            old(self).wf(dsize),
            region_unused(old(self).arena_map(), base, len),
            base > 0,
            base % 8 == 0,
            len % 8 == 0,
            len > HEADER_SIZE,
            base + len <= usize::MAX,
            len <= dsize,
        ensures
            final(self).wf(dsize),
            final(self).blocks() == old(self).blocks().insert(base, header_of(len, FIRST | LAST, 0)),
            final(self).arena_map() == old(self).arena_map().insert(base, len),
            old(self).index().added(&final(self).index(), base, len),
            !old(self).blocks().contains_key(base),
    {
        let ghost old_mem = self.mem@;
        let ghost sizes = free_sizes(self.mem@);
        proof {
            lemma_flag_bits();
            lemma_header_of(len, FIRST | LAST, 0);
            lemma_new_arena(old_mem, self.arenas@, self.owner@, dsize, base, len, header_of(len, FIRST | LAST, 0));
            assert(!sizes.contains_key(base));
        }
        let mut h = BlockHeader { size_and_flags: 0, prev_size: 0 };
        h.prev_size = 0;
        h.set_size_and_flags(len, FIRST | LAST);
        self.mem.write(base, h);
        self.free.add_block(Ghost(sizes), base, len);
        self.arenas = Ghost(self.arenas@.insert(base, len));
        self.owner = Ghost(self.owner@.insert(base, base));
        proof {
            assert(h == header_of(len, FIRST | LAST, 0));
            assert(free_sizes(self.mem@) =~= sizes.insert(base, len));
        }
    }
}


impl<F: FreeIndex> AllocState<F> {
    /// Puts a new arena of `len` bytes at `base` to use as one busy block, and gives the address
    /// of its payload.
    pub fn add_large_arena(&mut self, Ghost(dsize): Ghost<usize>, base: usize, len: usize) -> (r:
        usize)
        requires
            old(self).wf(dsize),
            region_unused(old(self).arena_map(), base, len),
            base > 0,
            base % 8 == 0,
            len % 8 == 0,
            len > HEADER_SIZE,
            base + len <= usize::MAX,
        ensures
            final(self).wf(dsize),
            r == base + HEADER_SIZE,
            final(self).blocks() == old(self).blocks().insert(
                base,
                header_of(len, BUSY | FIRST | LAST, 0),
            ),
            final(self).arena_map() == old(self).arena_map().insert(base, len),
            final(self).index() == old(self).index(),
            !old(self).blocks().contains_key(base),
    {
        let ghost old_mem = self.mem@;
        proof {
            lemma_flag_bits();
            lemma_header_of(len, BUSY | FIRST | LAST, 0);
            lemma_new_arena(
                old_mem,
                self.arenas@,
                self.owner@,
                dsize,
                base,
                len,
                header_of(len, BUSY | FIRST | LAST, 0),
            );
        }
        let mut h = BlockHeader { size_and_flags: 0, prev_size: 0 };
        h.prev_size = 0;
        h.set_size_and_flags(len, BUSY | FIRST | LAST);
        self.mem.write(base, h);
        self.arenas = Ghost(self.arenas@.insert(base, len));
        self.owner = Ghost(self.owner@.insert(base, base));
        proof {
            assert(h == header_of(len, BUSY | FIRST | LAST, 0));
            assert(free_sizes(self.mem@) =~= free_sizes(old_mem));
        }
        payload_ptr(base)
    }

    /// Gives up the arena of the busy block at `base`, larger than a default arena, which fills it.
    pub fn destroy_arena(&mut self, Ghost(dsize): Ghost<usize>, base: usize)
        requires
            old(self).wf(dsize),
            old(self).blocks().contains_key(base),
            old(self).blocks()[base].is_busy(),
            old(self).blocks()[base].size() > dsize,
        ensures
            final(self).wf(dsize),
            final(self).blocks() == old(self).blocks().remove(base),
            final(self).arena_map() == old(self).arena_map().remove(base),
            old(self).arena_map().contains_key(base),
            old(self).arena_map()[base] == old(self).blocks()[base].size(),
            final(self).index() == old(self).index(),
    {
        let ghost old_mem = self.mem@;
        proof {
            reveal(heap_ok);
            reveal(coalesced);
            assert(links_ok(old_mem, self.arenas@, self.owner@, dsize, base));
            assert(self.owner@[base] == base);
        }
        self.mem.forget(base);
        self.arenas = Ghost(self.arenas@.remove(base));
        self.owner = Ghost(self.owner@.remove(base));
        proof {
            reveal(heap_ok);
            reveal(coalesced);
            let hdr = self.mem@;
            assert(free_sizes(hdr) =~= free_sizes(old_mem));
            assert forall|a: usize| #[trigger] hdr.contains_key(a) implies links_ok(
                hdr,
                self.arenas@,
                self.owner@,
                dsize,
                a,
            ) by {
                assert(links_ok(old_mem, old(self).arenas@, old(self).owner@, dsize, a));
                let b0 = old(self).owner@[a];
                assert(old(self).arenas@.contains_key(b0));
                assert(b0 != base);
                if !old_mem[a].is_last() {
                    assert(old(self).owner@[nxt(old_mem, a)] == b0);
                    assert(nxt(old_mem, a) != base);
                }
                if !old_mem[a].is_first() {
                    assert(old(self).owner@[prv(old_mem, a)] == b0);
                    assert(prv(old_mem, a) != base);
                }
            }
            assert forall|a: usize, c: usize|
                #![trigger hdr.contains_key(a), hdr.contains_key(c)]
                hdr.contains_key(a) && hdr.contains_key(c) && a != c implies apart(hdr, a, c) by {
                assert(apart(old_mem, a, c));
            }
            assert forall|a: usize| #[trigger] hdr.contains_key(a) implies merged_at(hdr, a) by {
                assert(merged_at(old_mem, a));
                assert(links_ok(old_mem, old(self).arenas@, old(self).owner@, dsize, a));
                if !old_mem[a].is_last() {
                    assert(old(self).owner@[nxt(old_mem, a)] == old(self).owner@[a]);
                    assert(nxt(old_mem, a) != base);
                }
            }
        }
    }
}


/// The values of the flag combinations.
pub proof fn lemma_flags_of_values()
    ensures
        flags_of(true, false, false) == BUSY,
        flags_of(true, true, false) == BUSY | FIRST,
        flags_of(true, false, true) == BUSY | LAST,
        flags_of(true, true, true) == BUSY | FIRST | LAST,
        flags_of(false, false, false) == 0,
        flags_of(false, true, false) == FIRST,
        flags_of(false, false, true) == LAST,
        flags_of(false, true, true) == FIRST | LAST,
        BUSY | LAST | FIRST == BUSY | FIRST | LAST,
{
    assert((1usize | 0usize) | 0usize == 1usize && (1usize | 2usize) | 0usize == (1usize | 2usize)
        && (1usize | 0usize) | 4usize == (1usize | 4usize) && (1usize | 2usize) | 4usize == (1usize
        | 2usize | 4usize) && (0usize | 0usize) | 0usize == 0usize && (0usize | 2usize) | 0usize
        == 2usize && (0usize | 0usize) | 4usize == 4usize && (0usize | 2usize) | 4usize == (2usize
        | 4usize) && (1usize | 4usize | 2usize) == (1usize | 2usize | 4usize)) by (bit_vector);
}

/// The headers after the free block at `b` is taken for a request of `needed` bytes: split in
/// two when the rest can stand as a free block of its own, else taken whole.
pub open spec fn taken_blocks(hdr: Map<usize, BlockHeader>, b: usize, needed: usize) -> Map<
    usize,
    BlockHeader,
> {
    let h = hdr[b];
    let size = h.size();
    let rem = (size - needed) as usize;
    if rem >= 32 {
        let r = (b + needed) as usize;
        let m = hdr.insert(b, header_of(needed, flags_of(true, h.is_first(), false), h.prev_size)).insert(
            r,
            header_of(rem, flags_of(false, false, h.is_last()), needed),
        );
        if h.is_last() {
            m
        } else {
            let n = nxt(hdr, b);
            m.insert(n, BlockHeader { prev_size: rem, ..hdr[n] })
        }
    } else {
        hdr.insert(b, header_of(size, flags_of(true, h.is_first(), h.is_last()), h.prev_size))
    }
}

/// Taking the block at `b` for `needed` bytes leaves every other busy block alone and makes the
/// block at `b` busy, of `needed` bytes when the rest is split off and of its whole size else.
pub proof fn lemma_taken_keeps(hdr: Map<usize, BlockHeader>, b: usize, needed: usize)
    requires
        hdr.contains_key(b),
        needed % 8 == 0,
        needed > HEADER_SIZE,
        needed <= hdr[b].size(),
        b + hdr[b].size() <= usize::MAX,
        hdr[b].size() - needed >= 32 ==> !hdr.contains_key((b + needed) as usize),
    ensures
        busy_kept(hdr, taken_blocks(hdr, b, needed), b),
        taken_blocks(hdr, b, needed).contains_key(b),
        taken_blocks(hdr, b, needed)[b].is_busy(),
        taken_blocks(hdr, b, needed)[b].size() == (if hdr[b].size() - needed >= 32 {
            needed
        } else {
            hdr[b].size()
        }),
{
    let h = hdr[b];
    crate::block::lemma_size_multiple(h);
    lemma_header_of(needed, flags_of(true, h.is_first(), false), h.prev_size);
    lemma_flags_of(true, h.is_first(), false);
    lemma_header_of(h.size(), flags_of(true, h.is_first(), h.is_last()), h.prev_size);
    lemma_flags_of(true, h.is_first(), h.is_last());
}

/// What a sound state shows of the block at `b`: it sits at a multiple of 8, its size is a
/// multiple of 8 larger than a header, and it fits in the address space.
pub proof fn lemma_block_facts<F: FreeIndex>(st: &AllocState<F>, dsize: usize, b: usize)
    requires
        st.wf(dsize),
        st.blocks().contains_key(b),
    ensures
        b % 8 == 0,
        b > 0,
        st.blocks()[b].size() % 8 == 0,
        st.blocks()[b].size() > HEADER_SIZE,
        b + st.blocks()[b].size() <= usize::MAX,
{
    st.lemma_block(dsize, b);
}

/// `post` is the free index `pre` after the free block at `b` of `hdr` is taken for `needed`
/// bytes: the block leaves the index, and the rest that is split off joins it.
pub open spec fn take_index<F: FreeIndex>(
    pre: F,
    post: F,
    hdr: Map<usize, BlockHeader>,
    b: usize,
    needed: usize,
) -> bool {
    let size = hdr[b].size();
    if size - needed >= 32 {
        exists|mid: F|
            #[trigger] pre.taken(&mid, b, size) && mid.added(
                &post,
                (b + needed) as usize,
                (size - needed) as usize,
            )
    } else {
        pre.taken(&post, b, size)
    }
}

impl<F: FreeIndex> AllocState<F> {
    /// Takes the free block at `b` for a request of `needed` bytes and gives the address of its
    /// payload; the rest of the block stays free when it is large enough to stand alone.
    pub fn split_and_take(&mut self, Ghost(dsize): Ghost<usize>, b: usize, needed: usize) -> (r:
        usize)
        requires
            old(self).wf(dsize),
            old(self).blocks().contains_key(b),
            !old(self).blocks()[b].is_busy(),
            needed % 8 == 0,
            needed > HEADER_SIZE,
            needed <= old(self).blocks()[b].size(),
        ensures
            final(self).wf(dsize),
            r == b + HEADER_SIZE,
            final(self).blocks() == taken_blocks(old(self).blocks(), b, needed),
            final(self).arena_map() == old(self).arena_map(),
            take_index(old(self).index(), final(self).index(), old(self).blocks(), b, needed),
            busy_kept(old(self).blocks(), final(self).blocks(), b),
            final(self).blocks().contains_key(b),
            final(self).blocks()[b].is_busy(),
            final(self).blocks()[b].size() >= needed,
    {
        let ghost hdr0 = self.mem@;
        let ghost sizes0 = free_sizes(self.mem@);
        let ghost base = self.owner@[b];
        let ghost old_free = self.free;
        proof {
            self.lemma_block(dsize, b);
            if needed < hdr0[b].size() {
                self.lemma_inside(dsize, b, (b + needed) as usize);
            }
            lemma_flag_bits();
            lemma_flags_of_values();
            lemma_taken_keeps(hdr0, b, needed);
        }
        let h = self.mem.header(b);
        let orig_size = h.size();
        let orig_flags = h.flags();
        let orig_first = (orig_flags & FIRST) != 0;
        let orig_last = (orig_flags & LAST) != 0;
        self.free.take_block(Ghost(sizes0), b, orig_size);
        let ghost mid_free = self.free;
        let remainder = orig_size.saturating_sub(needed);
        if remainder >= min_free_block_size() {
            let r = b + needed;
            let mut rh = BlockHeader { size_and_flags: 0, prev_size: 0 };
            rh.prev_size = needed;
            rh.set_size_and_flags(remainder, if orig_last { LAST } else { 0 });
            if !rh.is_last() {
                let after = next_block(r, &rh);
                let mut ah = self.mem.header(after);
                ah.prev_size = remainder;
                self.mem.write(after, ah);
            }
            let mut a_flags = BUSY;
            if orig_first {
                a_flags = a_flags | FIRST;
            }
            let mut bh = h;
            bh.set_size_and_flags(needed, a_flags);
            self.mem.write(b, bh);
            self.mem.write(r, rh);
            proof {
                assert(bh == header_of(needed, flags_of(true, orig_first, false), h.prev_size));
                assert(rh == header_of(remainder, flags_of(false, false, orig_last), needed));
                assert(self.mem@ =~= taken_blocks(hdr0, b, needed));
                assert(free_sizes(self.mem@) =~= sizes0.remove(b).insert(r, remainder));
            }
            self.free.add_block(Ghost(sizes0.remove(b)), r, remainder);
            self.owner = Ghost(self.owner@.insert(r, base));
            proof {
                self.lemma_split_wf(dsize, hdr0, old(self).owner@, b, needed);
                assert(old_free.taken(&mid_free, b, orig_size) && mid_free.added(&self.free, r, remainder));
                assert(old(self).index() == old_free);
                assert(self.index() == self.free);
                assert(old(self).index().taken(&mid_free, b, orig_size));
                assert(mid_free.added(&self.index(), (b + needed) as usize, (orig_size - needed) as usize));
                assert(take_index(old(self).index(), self.index(), hdr0, b, needed));
            }
        } else {
            let mut a_flags = BUSY;
            if orig_last {
                a_flags = a_flags | LAST;
            }
            if orig_first {
                a_flags = a_flags | FIRST;
            }
            let mut bh = h;
            bh.set_size_and_flags(orig_size, a_flags);
            self.mem.write(b, bh);
            proof {
                assert(bh == header_of(orig_size, flags_of(true, orig_first, orig_last), h.prev_size));
                assert(self.mem@ =~= taken_blocks(hdr0, b, needed));
                assert(free_sizes(self.mem@) =~= sizes0.remove(b));
                self.lemma_take_whole_wf(dsize, hdr0, b);
            }
        }
        payload_ptr(b)
    }

    #[verifier::rlimit(100)]
    proof fn lemma_take_whole_wf(&self, dsize: usize, hdr0: Map<usize, BlockHeader>, b: usize)
        requires
            heap_ok(hdr0, self.arenas@, self.owner@, dsize),
            coalesced(hdr0),
            hdr0.contains_key(b),
            !hdr0[b].is_busy(),
            self.mem@ == hdr0.insert(
                b,
                header_of(
                    hdr0[b].size(),
                    flags_of(true, hdr0[b].is_first(), hdr0[b].is_last()),
                    hdr0[b].prev_size,
                ),
            ),
            self.free.holds(free_sizes(self.mem@)),
        ensures
            self.wf(dsize),
    {
        reveal(heap_ok);
        reveal(coalesced);
        let hdr = self.mem@;
        lemma_header_of(
            hdr0[b].size(),
            flags_of(true, hdr0[b].is_first(), hdr0[b].is_last()),
            hdr0[b].prev_size,
        );
        lemma_flags_of(true, hdr0[b].is_first(), hdr0[b].is_last());
        assert(links_ok(hdr0, self.arenas@, self.owner@, dsize, b));
        assert forall|a: usize| #[trigger] hdr.contains_key(a) implies links_ok(
            hdr,
            self.arenas@,
            self.owner@,
            dsize,
            a,
        ) by {
            assert(links_ok(hdr0, self.arenas@, self.owner@, dsize, a));
        }
        assert forall|a: usize, c: usize|
            #![trigger hdr.contains_key(a), hdr.contains_key(c)]
            hdr.contains_key(a) && hdr.contains_key(c) && a != c implies apart(hdr, a, c) by {
            assert(apart(hdr0, a, c));
        }
        assert forall|a: usize| #[trigger] hdr.contains_key(a) implies merged_at(hdr, a) by {
            assert(merged_at(hdr0, a));
        }
    }

    proof fn lemma_split_wf(
        &self,
        dsize: usize,
        hdr0: Map<usize, BlockHeader>,
        owner0: Map<usize, usize>,
        b: usize,
        needed: usize,
    )
        requires
            heap_ok(hdr0, self.arenas@, owner0, dsize),
            coalesced(hdr0),
            hdr0.contains_key(b),
            !hdr0[b].is_busy(),
            needed % 8 == 0,
            needed > HEADER_SIZE,
            needed <= hdr0[b].size(),
            hdr0[b].size() - needed >= 32,
            self.mem@ == taken_blocks(hdr0, b, needed),
            self.owner@ == owner0.insert((b + needed) as usize, owner0[b]),
            self.free.holds(free_sizes(self.mem@)),
        ensures
            self.wf(dsize),
    {
        lemma_heap_block(hdr0, self.arenas@, owner0, dsize, b);
        lemma_split_facts(hdr0, self.arenas@, owner0, dsize, b, needed);
        lemma_split_links(hdr0, self.arenas@, owner0, dsize, b, needed);
        lemma_split_apart(hdr0, self.arenas@, owner0, dsize, b, needed);
        lemma_split_merged(hdr0, self.arenas@, owner0, dsize, b, needed);
        reveal(heap_ok);
        reveal(coalesced);
    }
}

/// One block of a sound layout.
pub proof fn lemma_heap_block(
    hdr: Map<usize, BlockHeader>,
    arenas: Map<usize, usize>,
    owner: Map<usize, usize>,
    dsize: usize,
    a: usize,
)
    requires
        heap_ok(hdr, arenas, owner, dsize),
        hdr.contains_key(a),
    ensures
        links_ok(hdr, arenas, owner, dsize, a),
        arenas.contains_key(owner[a]),
        owner[a] > 0,
        owner[a] + arenas[owner[a]] <= usize::MAX,
{
    reveal(heap_ok);
    assert(links_ok(hdr, arenas, owner, dsize, a));
    assert(arenas.contains_key(owner[a]));
}

/// Two blocks of a sound layout do not overlap.
pub proof fn lemma_heap_apart(
    hdr: Map<usize, BlockHeader>,
    arenas: Map<usize, usize>,
    owner: Map<usize, usize>,
    dsize: usize,
    a: usize,
    c: usize,
)
    requires
        heap_ok(hdr, arenas, owner, dsize),
        hdr.contains_key(a),
        hdr.contains_key(c),
        a != c,
    ensures
        apart(hdr, a, c),
{
    reveal(heap_ok);
}

/// One block of a coalesced layout.
pub proof fn lemma_merged(hdr: Map<usize, BlockHeader>, a: usize)
    requires
        coalesced(hdr),
        hdr.contains_key(a),
    ensures
        merged_at(hdr, a),
{
    reveal(coalesced);
}

/// What the split of the block at `b` rests on.
proof fn lemma_split_facts(
    hdr0: Map<usize, BlockHeader>,
    arenas: Map<usize, usize>,
    owner0: Map<usize, usize>,
    dsize: usize,
    b: usize,
    needed: usize,
)
    requires
        heap_ok(hdr0, arenas, owner0, dsize),
        coalesced(hdr0),
        hdr0.contains_key(b),
        arenas[owner0[b]] <= dsize,
        needed % 8 == 0,
        needed > HEADER_SIZE,
        needed <= hdr0[b].size(),
        hdr0[b].size() - needed >= 32,
    ensures
        ({
            let h = hdr0[b];
            let r = (b + needed) as usize;
            let n = nxt(hdr0, b);
            let hdr = taken_blocks(hdr0, b, needed);
            &&& links_ok(hdr0, arenas, owner0, dsize, b)
            &&& arenas.contains_key(owner0[b])
            &&& arenas[owner0[b]] <= dsize
            &&& !hdr0.contains_key(r)
            &&& b + h.size() <= usize::MAX
            &&& !h.is_last() ==> hdr0.contains_key(n) && links_ok(hdr0, arenas, owner0, dsize, n)
                && n != b && n != r && n == b + h.size()
            &&& !h.is_busy() && !h.is_last() ==> hdr0[n].is_busy()
            &&& hdr[b].size() == needed
            &&& hdr[b].is_busy()
            &&& hdr[b].is_first() == h.is_first()
            &&& !hdr[b].is_last()
            &&& hdr[b].prev_size == h.prev_size
            &&& hdr[r].size() == (h.size() - needed) as usize
            &&& !hdr[r].is_busy()
            &&& !hdr[r].is_first()
            &&& hdr[r].is_last() == h.is_last()
            &&& hdr[r].prev_size == needed
            &&& !h.is_last() ==> hdr[n] == (BlockHeader { prev_size: (h.size() - needed) as usize, ..hdr0[n] })
            &&& forall|a: usize| a != b && a != r && (h.is_last() || a != n) ==> hdr[a] == hdr0[a]
            &&& forall|a: usize| hdr.contains_key(a) <==> hdr0.contains_key(a) || a == r
        }),
{
    let h = hdr0[b];
    let rem = (h.size() - needed) as usize;
    let r = (b + needed) as usize;
    let n = nxt(hdr0, b);
    lemma_heap_block(hdr0, arenas, owner0, dsize, b);
    lemma_header_of(needed, flags_of(true, h.is_first(), false), h.prev_size);
    lemma_header_of(rem, flags_of(false, false, h.is_last()), needed);
    lemma_flags_of(true, h.is_first(), false);
    lemma_flags_of(false, false, h.is_last());
    if hdr0.contains_key(r) {
        lemma_heap_apart(hdr0, arenas, owner0, dsize, b, r);
    }
    if !h.is_last() {
        lemma_heap_block(hdr0, arenas, owner0, dsize, n);
        lemma_merged(hdr0, b);
    }
    let hdr = taken_blocks(hdr0, b, needed);
    assert forall|a: usize| hdr.contains_key(a) <==> hdr0.contains_key(a) || a == r by {}
}

proof fn lemma_split_link_b(
    hdr0: Map<usize, BlockHeader>,
    arenas: Map<usize, usize>,
    owner0: Map<usize, usize>,
    dsize: usize,
    b: usize,
    needed: usize,
    a: usize,
)
    requires
        heap_ok(hdr0, arenas, owner0, dsize),
        coalesced(hdr0),
        hdr0.contains_key(b),
        arenas[owner0[b]] <= dsize,
        needed % 8 == 0,
        needed > HEADER_SIZE,
        needed <= hdr0[b].size(),
        hdr0[b].size() - needed >= 32,
        taken_blocks(hdr0, b, needed).contains_key(a),
        a == b,
    ensures
        links_ok(taken_blocks(hdr0, b, needed), arenas, owner0.insert((b + needed) as usize, owner0[b]), dsize, a),
{
    lemma_split_facts(hdr0, arenas, owner0, dsize, b, needed);
    let hdr = taken_blocks(hdr0, b, needed);
    let owner = owner0.insert((b + needed) as usize, owner0[b]);
    let h = hdr0[b];
    let r = (b + needed) as usize;
    let n = nxt(hdr0, b);
    if !h.is_first() {
        let p = prv(hdr0, b);
        lemma_heap_block(hdr0, arenas, owner0, dsize, p);
        assert(p != r);
        assert(h.is_last() || p != n);
    }
}

proof fn lemma_split_link_r(
    hdr0: Map<usize, BlockHeader>,
    arenas: Map<usize, usize>,
    owner0: Map<usize, usize>,
    dsize: usize,
    b: usize,
    needed: usize,
    a: usize,
)
    requires
        heap_ok(hdr0, arenas, owner0, dsize),
        coalesced(hdr0),
        hdr0.contains_key(b),
        arenas[owner0[b]] <= dsize,
        needed % 8 == 0,
        needed > HEADER_SIZE,
        needed <= hdr0[b].size(),
        hdr0[b].size() - needed >= 32,
        taken_blocks(hdr0, b, needed).contains_key(a),
        a == (b + needed) as usize,
    ensures
        links_ok(taken_blocks(hdr0, b, needed), arenas, owner0.insert((b + needed) as usize, owner0[b]), dsize, a),
{
    lemma_split_facts(hdr0, arenas, owner0, dsize, b, needed);
    let hdr = taken_blocks(hdr0, b, needed);
    let owner = owner0.insert((b + needed) as usize, owner0[b]);
    let h = hdr0[b];
    let r = (b + needed) as usize;
    let n = nxt(hdr0, b);
}

proof fn lemma_split_link_n(
    hdr0: Map<usize, BlockHeader>,
    arenas: Map<usize, usize>,
    owner0: Map<usize, usize>,
    dsize: usize,
    b: usize,
    needed: usize,
    a: usize,
)
    requires
        heap_ok(hdr0, arenas, owner0, dsize),
        coalesced(hdr0),
        hdr0.contains_key(b),
        arenas[owner0[b]] <= dsize,
        needed % 8 == 0,
        needed > HEADER_SIZE,
        needed <= hdr0[b].size(),
        hdr0[b].size() - needed >= 32,
        taken_blocks(hdr0, b, needed).contains_key(a),
        !hdr0[b].is_last() && a == nxt(hdr0, b),
    ensures
        links_ok(taken_blocks(hdr0, b, needed), arenas, owner0.insert((b + needed) as usize, owner0[b]), dsize, a),
{
    lemma_split_facts(hdr0, arenas, owner0, dsize, b, needed);
    let hdr = taken_blocks(hdr0, b, needed);
    let owner = owner0.insert((b + needed) as usize, owner0[b]);
    let h = hdr0[b];
    let r = (b + needed) as usize;
    let n = nxt(hdr0, b);
    if !hdr0[n].is_last() {
        let nn = nxt(hdr0, n);
        lemma_heap_block(hdr0, arenas, owner0, dsize, nn);
    }
}

proof fn lemma_split_link_other(
    hdr0: Map<usize, BlockHeader>,
    arenas: Map<usize, usize>,
    owner0: Map<usize, usize>,
    dsize: usize,
    b: usize,
    needed: usize,
    a: usize,
)
    requires
        heap_ok(hdr0, arenas, owner0, dsize),
        coalesced(hdr0),
        hdr0.contains_key(b),
        arenas[owner0[b]] <= dsize,
        needed % 8 == 0,
        needed > HEADER_SIZE,
        needed <= hdr0[b].size(),
        hdr0[b].size() - needed >= 32,
        taken_blocks(hdr0, b, needed).contains_key(a),
        a != b && a != (b + needed) as usize && (hdr0[b].is_last() || a != nxt(hdr0, b)),
    ensures
        links_ok(taken_blocks(hdr0, b, needed), arenas, owner0.insert((b + needed) as usize, owner0[b]), dsize, a),
{
    lemma_split_facts(hdr0, arenas, owner0, dsize, b, needed);
    let hdr = taken_blocks(hdr0, b, needed);
    let owner = owner0.insert((b + needed) as usize, owner0[b]);
    let h = hdr0[b];
    let r = (b + needed) as usize;
    let n = nxt(hdr0, b);
    lemma_heap_block(hdr0, arenas, owner0, dsize, a);
    if !hdr0[a].is_last() {
        let na = nxt(hdr0, a);
        if !h.is_last() && na == n {
            lemma_heap_apart(hdr0, arenas, owner0, dsize, a, b);
        }
    }
    if !hdr0[a].is_first() {
        let pa = prv(hdr0, a);
        lemma_heap_block(hdr0, arenas, owner0, dsize, pa);
    }
}

proof fn lemma_split_links(
    hdr0: Map<usize, BlockHeader>,
    arenas: Map<usize, usize>,
    owner0: Map<usize, usize>,
    dsize: usize,
    b: usize,
    needed: usize,
)
    requires
        heap_ok(hdr0, arenas, owner0, dsize),
        coalesced(hdr0),
        hdr0.contains_key(b),
        arenas[owner0[b]] <= dsize,
        needed % 8 == 0,
        needed > HEADER_SIZE,
        needed <= hdr0[b].size(),
        hdr0[b].size() - needed >= 32,
    ensures
        ({
            let hdr = taken_blocks(hdr0, b, needed);
            let owner = owner0.insert((b + needed) as usize, owner0[b]);
            forall|a: usize| #[trigger] hdr.contains_key(a) ==> links_ok(hdr, arenas, owner, dsize, a)
        }),
{
    let hdr = taken_blocks(hdr0, b, needed);
    let owner = owner0.insert((b + needed) as usize, owner0[b]);
    assert forall|a: usize| #[trigger] hdr.contains_key(a) implies links_ok(hdr, arenas, owner, dsize, a) by {
        if a == b {
            lemma_split_link_b(hdr0, arenas, owner0, dsize, b, needed, a);
        } else if a == (b + needed) as usize {
            lemma_split_link_r(hdr0, arenas, owner0, dsize, b, needed, a);
        } else if !hdr0[b].is_last() && a == nxt(hdr0, b) {
            lemma_split_link_n(hdr0, arenas, owner0, dsize, b, needed, a);
        } else {
            lemma_split_link_other(hdr0, arenas, owner0, dsize, b, needed, a);
        }
    }
}

proof fn lemma_split_apart(
    hdr0: Map<usize, BlockHeader>,
    arenas: Map<usize, usize>,
    owner0: Map<usize, usize>,
    dsize: usize,
    b: usize,
    needed: usize,
)
    requires
        heap_ok(hdr0, arenas, owner0, dsize),
        coalesced(hdr0),
        hdr0.contains_key(b),
        arenas[owner0[b]] <= dsize,
        needed % 8 == 0,
        needed > HEADER_SIZE,
        needed <= hdr0[b].size(),
        hdr0[b].size() - needed >= 32,
    ensures
        ({
            let hdr = taken_blocks(hdr0, b, needed);
            forall|a: usize, c: usize|
                #![trigger hdr.contains_key(a), hdr.contains_key(c)]
                hdr.contains_key(a) && hdr.contains_key(c) && a != c ==> apart(hdr, a, c)
        }),
{
    lemma_split_facts(hdr0, arenas, owner0, dsize, b, needed);
    reveal(heap_ok);
    let hdr = taken_blocks(hdr0, b, needed);
    let r = (b + needed) as usize;
    assert forall|a: usize, c: usize|
        #![trigger hdr.contains_key(a), hdr.contains_key(c)]
        hdr.contains_key(a) && hdr.contains_key(c) && a != c implies apart(hdr, a, c) by {
        if a != r && c != r {
            assert(apart(hdr0, a, c));
        } else if a == r && c != b {
            assert(apart(hdr0, b, c));
        } else if c == r && a != b {
            assert(apart(hdr0, a, b));
        }
    }
}

/// Cutting the tail off the busy block at `b` leaves the tail pending to be freed.
proof fn lemma_shrink_pending(
    hdr0: Map<usize, BlockHeader>,
    arenas: Map<usize, usize>,
    owner0: Map<usize, usize>,
    dsize: usize,
    b: usize,
    needed: usize,
)
    requires
        heap_ok(hdr0, arenas, owner0, dsize),
        coalesced(hdr0),
        hdr0.contains_key(b),
        hdr0[b].is_busy(),
        arenas[owner0[b]] <= dsize,
        needed % 8 == 0,
        needed > HEADER_SIZE,
        needed <= hdr0[b].size(),
        hdr0[b].size() - needed >= 32,
    ensures
        pending(
            taken_blocks(hdr0, b, needed),
            arenas,
            owner0.insert((b + needed) as usize, owner0[b]),
            dsize,
            (b + needed) as usize,
        ),
        free_sizes(taken_blocks(hdr0, b, needed)).remove((b + needed) as usize) == free_sizes(hdr0),
        (b + needed) as usize == b + needed,
{
    lemma_split_facts(hdr0, arenas, owner0, dsize, b, needed);
    lemma_split_links(hdr0, arenas, owner0, dsize, b, needed);
    lemma_split_apart(hdr0, arenas, owner0, dsize, b, needed);
    let hdr = taken_blocks(hdr0, b, needed);
    let owner = owner0.insert((b + needed) as usize, owner0[b]);
    let h = hdr0[b];
    let r = (b + needed) as usize;
    let n = nxt(hdr0, b);
    assert(heap_ok(hdr, arenas, owner, dsize)) by {
        reveal(heap_ok);
    }
    assert(free_sizes(hdr).remove(r) =~= free_sizes(hdr0));
    assert forall|a: usize| #[trigger]
        hdr.contains_key(a) && a != r && !(!hdr[a].is_last() && nxt(hdr, a) == r) implies merged_at(hdr, a) by {
        if a != b {
            lemma_merged(hdr0, a);
            lemma_heap_block(hdr0, arenas, owner0, dsize, a);
            if !hdr0[a].is_last() {
                let na = nxt(hdr0, a);
                if !h.is_last() && na == n {
                    lemma_heap_apart(hdr0, arenas, owner0, dsize, a, b);
                }
                if !h.is_last() && a == n {
                    lemma_heap_block(hdr0, arenas, owner0, dsize, na);
                }
            }
        }
    }
    reveal(coalesced_except);
}

proof fn lemma_split_merged(
    hdr0: Map<usize, BlockHeader>,
    arenas: Map<usize, usize>,
    owner0: Map<usize, usize>,
    dsize: usize,
    b: usize,
    needed: usize,
)
    requires
        heap_ok(hdr0, arenas, owner0, dsize),
        coalesced(hdr0),
        hdr0.contains_key(b),
        !hdr0[b].is_busy(),
        arenas[owner0[b]] <= dsize,
        needed % 8 == 0,
        needed > HEADER_SIZE,
        needed <= hdr0[b].size(),
        hdr0[b].size() - needed >= 32,
    ensures
        ({
            let hdr = taken_blocks(hdr0, b, needed);
            forall|a: usize| #[trigger] hdr.contains_key(a) ==> merged_at(hdr, a)
        }),
{
    lemma_split_facts(hdr0, arenas, owner0, dsize, b, needed);
    reveal(heap_ok);
    reveal(coalesced);
    let hdr = taken_blocks(hdr0, b, needed);
    let h = hdr0[b];
    let r = (b + needed) as usize;
    let n = nxt(hdr0, b);
    assert forall|a: usize| #[trigger] hdr.contains_key(a) implies merged_at(hdr, a) by {
        if a == b {
        } else if a == r {
        } else {
            assert(merged_at(hdr0, a));
            assert(links_ok(hdr0, arenas, owner0, dsize, a));
            if !hdr0[a].is_last() {
                let na = nxt(hdr0, a);
                if !h.is_last() && na == n && a != n {
                    assert(apart(hdr0, a, b));
                }
                if !h.is_last() && a == n {
                    assert(links_ok(hdr0, arenas, owner0, dsize, na));
                }
            }
        }
    }
}


/// Keeping only the place bits of a flag word.
pub proof fn lemma_keep_flags(f: usize)
    ensures
        f & (FIRST | LAST) == flags_of(false, f & FIRST != 0, f & LAST != 0),
{
    assert(f & (2usize | 4usize) == (0usize | (if f & 2 != 0 { 2usize } else { 0usize })) | (if f & 4
        != 0 { 4usize } else { 0usize })) by (bit_vector);
}

/// The place bits of a merged block: first from one block, last from the other.
pub proof fn lemma_merge_flags(f: usize, g: usize)
    ensures
        (f & FIRST) | (g & LAST) == flags_of(false, f & FIRST != 0, g & LAST != 0),
{
    assert((f & 2usize) | (g & 4usize) == (0usize | (if f & 2 != 0 { 2usize } else { 0usize })) | (
    if g & 4 != 0 { 4usize } else { 0usize })) by (bit_vector);
}

/// Freeing the block at `b` merges it with the block after it.
pub open spec fn next_merges(hdr: Map<usize, BlockHeader>, b: usize) -> bool {
    let c = cleared(hdr, b);
    !c[b].is_last() && !c[nxt(c, b)].is_busy()
}

/// Freeing the block at `b` merges it into the block before it.
pub open spec fn prev_merges(hdr: Map<usize, BlockHeader>, b: usize) -> bool {
    let mn = merge_with_next(cleared(hdr, b), b);
    !mn[b].is_first() && !mn[prv(mn, b)].is_busy()
}

/// `post` is the free index `pre` after freeing the block at `b` of `hdr`: the neighbours that
/// merge are taken out, then the merged block is added.
pub open spec fn coalesce_index<F: FreeIndex>(
    pre: F,
    post: F,
    hdr: Map<usize, BlockHeader>,
    b: usize,
) -> bool {
    let c = cleared(hdr, b);
    let n = nxt(c, b);
    let mn = merge_with_next(c, b);
    let p = prv(mn, b);
    let fin = merge_with_prev(mn, b);
    exists|m1: F, m2: F|
        #[trigger] took(pre, m1, next_merges(hdr, b), n, c[n].size()) && #[trigger] took(
            m1,
            m2,
            prev_merges(hdr, b),
            p,
            mn[p].size(),
        ) && m2.added(&post, fin.1, fin.0[fin.1].size())
}

/// `post` is `pre` after taking the block `b` of `size` bytes when `cond` holds, else `pre` itself.
pub open spec fn took<F: FreeIndex>(pre: F, post: F, cond: bool, b: usize, size: usize) -> bool {
    if cond {
        pre.taken(&post, b, size)
    } else {
        post == pre
    }
}

impl<F: FreeIndex> AllocState<F> {
    /// The state is sound but for the block at `b`, which is about to be freed: its neighbours may
    /// be free and it is not in the free index. Its arena is no larger than a default arena.
    pub closed spec fn wf_pending(&self, dsize: usize, b: usize) -> bool {
        &&& pending(self.mem@, self.arenas@, self.owner@, dsize, b)
        &&& self.free.holds(free_sizes(self.mem@).remove(b))
    }

    /// A busy block of a sound state, no larger than a default arena, is ready to be freed.
    pub proof fn lemma_ready_to_free(&self, dsize: usize, b: usize)
        requires
            self.wf(dsize),
            self.blocks().contains_key(b),
            self.blocks()[b].is_busy(),
            self.blocks()[b].size() <= dsize,
        ensures
            self.wf_pending(dsize, b),
    {
        self.lemma_block(dsize, b);
        reveal(coalesced);
        reveal(coalesced_except);
        assert(free_sizes(self.mem@).remove(b) =~= free_sizes(self.mem@));
    }

    /// Frees the block at `b`, merges it with the free blocks right before and after it, and
    /// puts the result into the free index.
    #[verifier::rlimit(30)]
    pub fn coalesce_and_insert(&mut self, Ghost(dsize): Ghost<usize>, b: usize)
        requires
            old(self).wf_pending(dsize, b),
        ensures
            final(self).wf(dsize),
            final(self).blocks() == coalesce_result(old(self).blocks(), b).0,
            final(self).arena_map() == old(self).arena_map(),
            coalesce_index(old(self).index(), final(self).index(), old(self).blocks(), b),
    {
        let ghost hdr0 = self.mem@;
        let ghost free0 = self.free;
        let ghost b0 = b;
        let mut b = b;
        let mut h = self.mem.header(b);
        let flags_keep = h.flags() & (FIRST | LAST);
        let sz = h.size();
        proof {
            lemma_clear(hdr0, self.arenas@, self.owner@, dsize, b);
            crate::heap::state::lemma_heap_block(hdr0, self.arenas@, self.owner@, dsize, b);
            lemma_keep_flags(h.flags());
        }
        h.set_size_and_flags(sz, flags_keep);
        self.mem.write(b, h);
        let ghost hdr1 = self.mem@;
        proof {
            assert(hdr1 =~= cleared(hdr0, b));
        }
        let ghost n0 = nxt(hdr1, b);
        let ghost next_merge = !hdr1[b].is_last() && !hdr1[n0].is_busy();
        if !h.is_last() {
            let n = next_block(b, &h);
            proof {
                crate::heap::merge::lemma_next_back(hdr1, self.arenas@, self.owner@, dsize, b);
            }
            let nh = self.mem.header(n);
            if !nh.is_busy() {
                proof {
                    lemma_merge_next(hdr1, self.arenas@, self.owner@, dsize, b);
                    lemma_merge_flags(h.flags(), nh.flags());
                    if !nh.is_last() {
                        crate::heap::merge::lemma_next_back(hdr1, self.arenas@, self.owner@, dsize, n);
                    }
                }
                self.free.take_block(Ghost(free_sizes(hdr1).remove(b)), n, nh.size());
                let new_size = h.size() + nh.size();
                let new_flags = (h.flags() & FIRST) | (nh.flags() & LAST);
                h.set_size_and_flags(new_size, new_flags);
                proof {
                    assert(h == merge_with_next(hdr1, b)[b]);
                    crate::heap::state::lemma_heap_block(
                        merge_with_next(hdr1, b),
                        self.arenas@,
                        self.owner@,
                        dsize,
                        b,
                    );
                }
                self.mem.write(b, h);
                self.mem.forget(n);
                if !h.is_last() {
                    let after = next_block(b, &h);
                    let mut ah = self.mem.header(after);
                    ah.prev_size = new_size;
                    self.mem.write(after, ah);
                }
                proof {
                    assert(self.mem@ =~= merge_with_next(hdr1, b));
                }
            }
        }
        let ghost hdr2 = self.mem@;
        let ghost free2 = self.free;
        proof {
            assert(hdr2 == merge_with_next(hdr1, b));
            assert(self.free.holds(free_sizes(hdr2).remove(b)));
            assert(pending(hdr2, self.arenas@, self.owner@, dsize, b));
            assert(h == hdr2[b]);
            assert(!hdr2[b].is_busy());
            assert(!hdr2[b].is_last() ==> hdr2[nxt(hdr2, b)].is_busy());
        }
        let ghost p0 = prv(hdr2, b);
        let ghost prev_merge = !hdr2[b].is_first() && !hdr2[p0].is_busy();
        if !h.is_first() {
            proof {
                crate::heap::state::lemma_heap_block(hdr2, self.arenas@, self.owner@, dsize, b);
                crate::heap::merge::lemma_prev_back(hdr2, self.arenas@, self.owner@, dsize, b);
            }
            let p = prev_block(b, &h);
            let mut ph = self.mem.header(p);
            if !ph.is_busy() {
                proof {
                    lemma_merge_prev(hdr2, self.arenas@, self.owner@, dsize, b);
                    lemma_merge_flags(ph.flags(), h.flags());
                    if !h.is_last() {
                        crate::heap::merge::lemma_next_back(hdr2, self.arenas@, self.owner@, dsize, b);
                    }
                }
                self.free.take_block(Ghost(free_sizes(hdr2).remove(b)), p, ph.size());
                let new_size = ph.size() + h.size();
                let new_flags = (ph.flags() & FIRST) | (h.flags() & LAST);
                ph.set_size_and_flags(new_size, new_flags);
                proof {
                    assert(ph == merge_with_prev(hdr2, b).0[p]);
                    crate::heap::state::lemma_heap_block(
                        merge_with_prev(hdr2, b).0,
                        self.arenas@,
                        self.owner@,
                        dsize,
                        p,
                    );
                }
                self.mem.write(p, ph);
                self.mem.forget(b);
                if !ph.is_last() {
                    let after = next_block(p, &ph);
                    let mut ah = self.mem.header(after);
                    ah.prev_size = new_size;
                    self.mem.write(after, ah);
                }
                proof {
                    assert(self.mem@ =~= merge_with_prev(hdr2, b).0);
                }
                b = p;
            }
        }
        let ghost hdr3 = self.mem@;
        let ghost free3 = self.free;
        proof {
            assert(hdr3 == merge_with_prev(hdr2, b0).0);
            assert(b == merge_with_prev(hdr2, b0).1);
            assert(pending(hdr3, self.arenas@, self.owner@, dsize, b));
            assert(self.free.holds(free_sizes(hdr3).remove(b)));
            lemma_finish(hdr3, self.arenas@, self.owner@, dsize, b);
            crate::heap::state::lemma_heap_block(hdr3, self.arenas@, self.owner@, dsize, b);
        }
        let size = self.mem.header(b).size();
        self.free.add_block(Ghost(free_sizes(hdr3).remove(b)), b, size);
        proof {
            assert(free_sizes(hdr3).remove(b).insert(b, size) =~= free_sizes(hdr3));
            assert(took(free0, free2, next_merge, n0, hdr1[n0].size()));
            assert(took(free2, free3, prev_merge, p0, hdr2[p0].size()));
            assert(free3.added(&self.free, b, size));
            assert(next_merges(hdr0, b0) == next_merge);
            assert(prev_merges(hdr0, b0) == prev_merge);
            assert(took(free0, free2, next_merges(hdr0, b0), n0, hdr1[n0].size()));
        }
    }
}


impl<F: FreeIndex> AllocState<F> {
    /// Cuts the busy block at `b` down to `needed` bytes and frees the tail, merged with a free
    /// block after it.
    pub fn shrink_block(&mut self, Ghost(dsize): Ghost<usize>, b: usize, needed: usize)
        requires
            old(self).wf(dsize),
            old(self).blocks().contains_key(b),
            old(self).blocks()[b].is_busy(),
            old(self).blocks()[b].size() <= dsize,
            needed % 8 == 0,
            needed > HEADER_SIZE,
            needed <= old(self).blocks()[b].size(),
            old(self).blocks()[b].size() - needed >= 32,
        ensures
            final(self).wf(dsize),
            final(self).blocks() == coalesce_result(
                taken_blocks(old(self).blocks(), b, needed),
                (b + needed) as usize,
            ).0,
            final(self).arena_map() == old(self).arena_map(),
            coalesce_index(
                old(self).index(),
                final(self).index(),
                taken_blocks(old(self).blocks(), b, needed),
                (b + needed) as usize,
            ),
            busy_kept(old(self).blocks(), final(self).blocks(), b),
            final(self).blocks().contains_key(b),
            final(self).blocks()[b].is_busy(),
            final(self).blocks()[b].size() == needed,
    {
        let ghost hdr0 = self.mem@;
        proof {
            self.lemma_block(dsize, b);
            lemma_split_facts(hdr0, self.arenas@, self.owner@, dsize, b, needed);
            lemma_taken_keeps(hdr0, b, needed);
            lemma_coalesce_keeps(taken_blocks(hdr0, b, needed), (b + needed) as usize);
            lemma_shrink_pending(hdr0, self.arenas@, self.owner@, dsize, b, needed);
            lemma_flag_bits();
            lemma_flags_of_values();
        }
        let mut h = self.mem.header(b);
        let old_total = h.size();
        let remainder = old_total - needed;
        let orig_flags = h.flags();
        let orig_first = (orig_flags & FIRST) != 0;
        let orig_last = (orig_flags & LAST) != 0;
        let mut a_flags = BUSY;
        if orig_first {
            a_flags = a_flags | FIRST;
        }
        let ghost h0 = h;
        h.set_size_and_flags(needed, a_flags);
        self.mem.write(b, h);
        let r = b + needed;
        let mut rh = BlockHeader { size_and_flags: 0, prev_size: 0 };
        rh.prev_size = needed;
        rh.set_size_and_flags(remainder, if orig_last { LAST } else { 0 });
        if !rh.is_last() {
            let after = next_block(r, &rh);
            let mut ah = self.mem.header(after);
            ah.prev_size = remainder;
            self.mem.write(after, ah);
        }
        self.mem.write(r, rh);
        self.owner = Ghost(self.owner@.insert(r, self.owner@[b]));
        proof {
            assert(h == header_of(needed, flags_of(true, h0.is_first(), false), h0.prev_size));
            assert(rh == header_of(remainder, flags_of(false, false, h0.is_last()), needed));
            assert(self.mem@ =~= taken_blocks(hdr0, b, needed));
        }
        self.coalesce_and_insert(Ghost(dsize), r);
    }
}


/// The busy block at `b` can grow in place to `needed` bytes: the block after it is free and
/// large enough.
pub open spec fn grow_fits(hdr: Map<usize, BlockHeader>, b: usize, needed: usize) -> bool {
    !hdr[b].is_last() && !hdr[nxt(hdr, b)].is_busy() && hdr[b].size() + hdr[nxt(hdr, b)].size()
        >= needed
}

/// The headers after the busy block at `b` takes in the free block after it and gives back what
/// it does not need, when that rest can stand as a free block.
pub open spec fn grown_blocks(hdr: Map<usize, BlockHeader>, b: usize, needed: usize) -> Map<
    usize,
    BlockHeader,
> {
    let m = merge_with_next(hdr, b);
    if m[b].size() - needed >= 32 {
        coalesce_result(taken_blocks(m, b, needed), (b + needed) as usize).0
    } else {
        m
    }
}

/// `post` is the free index `pre` after the busy block at `b` of `hdr` grows in place to `needed`
/// bytes: the free block after it leaves the index, and the rest that is split off again is
/// freed into it.
pub open spec fn grow_index<F: FreeIndex>(
    pre: F,
    post: F,
    hdr: Map<usize, BlockHeader>,
    b: usize,
    needed: usize,
) -> bool {
    let n = nxt(hdr, b);
    let m = merge_with_next(hdr, b);
    if m[b].size() - needed >= 32 {
        exists|mid: F|
            pre.taken(&mid, n, hdr[n].size()) && coalesce_index(
                mid,
                post,
                taken_blocks(m, b, needed),
                (b + needed) as usize,
            )
    } else {
        pre.taken(&post, n, hdr[n].size())
    }
}

impl<F: FreeIndex> AllocState<F> {
    /// A busy block that is not the last of its arena, followed by a free block with which it
    /// has at least `needed` bytes, grows in place: it stays busy and takes `needed` bytes when
    /// the rest can stand as a free block, which then follows it with exactly the rest, and
    /// takes both blocks whole otherwise. Where the free block lies in the arena plays no part.
    #[verifier::rlimit(60)]
    pub proof fn lemma_grow_in_place(&self, dsize: usize, b: usize, needed: usize)
        requires
            self.wf(dsize),
            self.blocks().contains_key(b),
            self.blocks()[b].is_busy(),
            needed % 8 == 0,
            needed >= self.blocks()[b].size(),
            !self.blocks()[b].is_last(),
            !self.blocks()[(b + self.blocks()[b].size()) as usize].is_busy(),
            self.blocks()[b].size() + self.blocks()[(b + self.blocks()[b].size()) as usize].size() >= needed,
        ensures
            ({
                let hdr = self.blocks();
                let combined = hdr[b].size() + hdr[(b + hdr[b].size()) as usize].size();
                let g = grown_blocks(hdr, b, needed);
                &&& grow_fits(hdr, b, needed)
                &&& g.contains_key(b)
                &&& g[b].is_busy()
                &&& g[b].size() == (if combined - needed >= 32 { needed as int } else { combined })
                &&& combined - needed >= 32 ==> {
                    &&& g.contains_key((b + needed) as usize)
                    &&& !g[(b + needed) as usize].is_busy()
                    &&& g[(b + needed) as usize].size() == combined - needed
                }
            }),
    {
        let hdr = self.mem@;
        let h = hdr[b];
        let n = nxt(hdr, b);
        self.lemma_block(dsize, b);
        self.lemma_block(dsize, n);
        crate::heap::merge::lemma_next_back(hdr, self.arenas@, self.owner@, dsize, b);
        let hn = hdr[n];
        let combined = (h.size() + hn.size()) as usize;
        crate::block::lemma_sum_multiple(h.size(), hn.size());
        lemma_header_of(combined, flags_of(true, h.is_first(), hn.is_last()), h.prev_size);
        lemma_flags_of(true, h.is_first(), hn.is_last());
        let m = merge_with_next(hdr, b);
        if !hn.is_last() {
            crate::heap::merge::lemma_next_back(hdr, self.arenas@, self.owner@, dsize, n);
            self.lemma_block(dsize, nxt(hdr, n));
            assert(hdr[nxt(hdr, n)].is_busy());
        }
        assert(m[b] == header_of(combined, flags_of(true, h.is_first(), hn.is_last()), h.prev_size));
        if combined - needed >= 32 {
            let r = (b + needed) as usize;
            let rem = (combined - needed) as usize;
            if r != n {
                if r < n {
                    self.lemma_inside(dsize, b, r);
                } else {
                    self.lemma_inside(dsize, n, r);
                }
            }
            assert(!m.contains_key(r));
            lemma_taken_keeps(m, b, needed);
            let t = taken_blocks(m, b, needed);
            lemma_header_of(rem, flags_of(false, false, hn.is_last()), needed);
            lemma_flags_of(false, false, hn.is_last());
            assert(t[r] == header_of(rem, flags_of(false, false, hn.is_last()), needed));
            crate::heap::merge::lemma_coalesce_keeps(t, r);
            let c = crate::heap::merge::cleared(t, r);
            assert(c[r] == t[r]);
            if !hn.is_last() {
                let a2 = nxt(hdr, n);
                assert(nxt(c, r) == a2);
                assert(c[a2].size_and_flags == hdr[a2].size_and_flags);
            }
            let mn = merge_with_next(c, r);
            assert(mn == c);
            assert(prv(mn, r) == b);
            assert(mn[b].is_busy());
            assert(crate::heap::merge::merge_with_prev(mn, r).0 == mn);
        }
    }
}

impl<F: FreeIndex> AllocState<F> {
    /// Grows the busy block at `b` to `needed` bytes into the free block after it, when that
    /// block is large enough; gives the rest back when it can stand as a free block.
    #[verifier::rlimit(40)]
    pub fn grow_into_next(&mut self, Ghost(dsize): Ghost<usize>, b: usize, needed: usize) -> (r: bool)
        requires
            old(self).wf(dsize),
            old(self).blocks().contains_key(b),
            old(self).blocks()[b].is_busy(),
            old(self).blocks()[b].size() <= dsize,
            needed % 8 == 0,
            needed >= old(self).blocks()[b].size(),
        ensures
            final(self).wf(dsize),
            r == grow_fits(old(self).blocks(), b, needed),
            r ==> final(self).blocks() == grown_blocks(old(self).blocks(), b, needed),
            !r ==> final(self).blocks() == old(self).blocks() && final(self).index() == old(
                self,
            ).index(),
            final(self).arena_map() == old(self).arena_map(),
            r ==> busy_kept(old(self).blocks(), final(self).blocks(), b),
            r ==> final(self).blocks().contains_key(b) && final(self).blocks()[b].is_busy()
                && final(self).blocks()[b].size() >= needed,
            r ==> grow_index(old(self).index(), final(self).index(), old(self).blocks(), b, needed),
            ({
                let hdr = old(self).blocks();
                let n = (b + hdr[b].size()) as usize;
                let combined = hdr[b].size() + hdr[n].size();
                &&& r == (!hdr[b].is_last() && !hdr[n].is_busy() && combined >= needed)
                &&& r ==> final(self).blocks()[b].size() == (if combined - needed >= 32 {
                    needed as int
                } else {
                    combined
                })
                &&& r && combined - needed >= 32 ==> {
                    &&& final(self).blocks().contains_key((b + needed) as usize)
                    &&& !final(self).blocks()[(b + needed) as usize].is_busy()
                    &&& final(self).blocks()[(b + needed) as usize].size() == combined - needed
                }
            }),
    {
        let ghost hdr0 = self.mem@;
        let ghost free0 = self.free;
        proof {
            let n = (b + hdr0[b].size()) as usize;
            if !hdr0[b].is_last() && !hdr0[n].is_busy() && hdr0[b].size() + hdr0[n].size() >= needed {
                self.lemma_grow_in_place(dsize, b, needed);
            }
        }
        proof {
            self.lemma_block(dsize, b);
            lemma_flag_bits();
            lemma_flags_of_values();
        }
        let mut h = self.mem.header(b);
        let old_total = h.size();
        if !h.is_last() {
            let n = next_block(b, &h);
            proof {
                self.lemma_block(dsize, n);
                crate::heap::merge::lemma_next_back(hdr0, self.arenas@, self.owner@, dsize, b);
            }
            let nh = self.mem.header(n);
            if !nh.is_busy() {
                let combined = old_total + nh.size();
                if combined >= needed {
                    let ghost m = merge_with_next(hdr0, b);
                    proof {
                        reveal(coalesced);
                        reveal(coalesced_except);
                        assert(pending(hdr0, self.arenas@, self.owner@, dsize, b));
                        lemma_merge_next(hdr0, self.arenas@, self.owner@, dsize, b);
                        lemma_finish_busy(m, self.arenas@, self.owner@, dsize, b);
                        assert(free_sizes(m) =~= free_sizes(hdr0).remove(n));
                        if !nh.is_last() {
                            crate::heap::merge::lemma_next_back(hdr0, self.arenas@, self.owner@, dsize, n);
                        }
                        lemma_header_of(combined, flags_of(true, h.is_first(), nh.is_last()), h.prev_size);
                        lemma_flags_of(true, h.is_first(), nh.is_last());
                        lemma_merge_next_keeps(hdr0, b);
                    }
                    self.free.take_block(Ghost(free_sizes(hdr0)), n, nh.size());
                    let ghost free1 = self.free;
                    let orig_first = (h.flags() & FIRST) != 0;
                    let merged_last = (nh.flags() & LAST) != 0;
                    let extra = combined - needed;
                    self.mem.forget(n);
                    if extra >= min_free_block_size() {
                        proof {
                            crate::heap::state::lemma_heap_block(m, self.arenas@, self.owner@, dsize, b);
                            lemma_split_facts(m, self.arenas@, self.owner@, dsize, b, needed);
                            lemma_shrink_pending(m, self.arenas@, self.owner@, dsize, b, needed);
                            lemma_taken_keeps(m, b, needed);
                            lemma_coalesce_keeps(taken_blocks(m, b, needed), (b + needed) as usize);
                        }
                        let mut a_flags = BUSY;
                        if orig_first {
                            a_flags = a_flags | FIRST;
                        }
                        h.set_size_and_flags(needed, a_flags);
                        self.mem.write(b, h);
                        let r = b + needed;
                        let mut rh = BlockHeader { size_and_flags: 0, prev_size: 0 };
                        rh.prev_size = needed;
                        rh.set_size_and_flags(extra, if merged_last { LAST } else { 0 });
                        if !rh.is_last() {
                            let after = next_block(r, &rh);
                            let mut ah = self.mem.header(after);
                            ah.prev_size = extra;
                            self.mem.write(after, ah);
                        }
                        self.mem.write(r, rh);
                        self.owner = Ghost(self.owner@.insert(r, self.owner@[b]));
                        proof {
                            assert(self.mem@ =~= taken_blocks(m, b, needed));
                        }
                        self.coalesce_and_insert(Ghost(dsize), r);
                        proof {
                            assert(free0.taken(&free1, n, hdr0[n].size()));
                            assert(old(self).index().taken(&free1, n, hdr0[n].size()));
                            assert(coalesce_index(free1, self.index(), taken_blocks(m, b, needed), r));
                            assert(m[b].size() == combined);
                        }
                    } else {
                        let mut a_flags = BUSY;
                        if orig_first {
                            a_flags = a_flags | FIRST;
                        }
                        if merged_last {
                            a_flags = a_flags | LAST;
                        }
                        h.set_size_and_flags(combined, a_flags);
                        self.mem.write(b, h);
                        if !merged_last {
                            let after = next_block(b, &h);
                            let mut ah = self.mem.header(after);
                            ah.prev_size = combined;
                            self.mem.write(after, ah);
                        }
                        proof {
                            assert(self.mem@ =~= m);
                            assert(m[b].size() == combined);
                            assert(old(self).index().taken(&self.index(), n, hdr0[n].size()));
                        }
                    }
                    return true;
                }
            }
        }
        false
    }
}

} // verus!