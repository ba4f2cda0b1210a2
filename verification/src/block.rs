use vstd::prelude::*;

verus! {

/// Alignment of every block and of every payload handed out by the small-block path.
pub const ALIGN: usize = 8;

/// Flag bit: the block is handed out to a caller.
pub const BUSY: usize = 0b001;
/// Flag bit: the block is the first one of its arena.
pub const FIRST: usize = 0b010;
/// Flag bit: the block is the last one of its arena.
pub const LAST: usize = 0b100;
/// All flag bits (`BUSY | FIRST | LAST`); block sizes are multiples of `ALIGN`, so these bits of
/// the size are free.
pub const FLAG_MASK: usize = 0b111;

/// Size in bytes of a block header (two machine words on a 64-bit target).
pub const HEADER_SIZE: usize = 16;
/// Size in bytes of the free-list links kept right after the header of a free block.
pub const FREE_NODE_SIZE: usize = 16;

/// `a` is a power of two.
pub open spec fn is_pow2(a: usize) -> bool {
    a != 0 && a & ((a - 1) as usize) == 0
}

/// The bit pattern that `align_up` computes.
pub open spec fn align_up_bits(x: usize, a: usize) -> usize {
    ((x + a - 1) as usize) & !((a - 1) as usize)
}

/// The smallest multiple of `a` that is at least `x`.
pub open spec fn round_up(x: int, a: int) -> int {
    ((x + a - 1) / a) * a
}

/// Clearing the bits below a power of two `a` rounds down to a multiple of `a`.
pub proof fn lemma_mask_rounds_down(y: usize, a: usize)
    requires
        is_pow2(a),
    ensures
        (y & !((a - 1) as usize)) as int == (y as int / a as int) * a,
    decreases a,
{
    let m = (a - 1) as usize;
    if a == 1 {
        assert(y & !m == y) by (bit_vector)
            requires
                m == 0usize,
        ;
    } else {
        let h = a / 2;
        let hm = (h - 1) as usize;
        assert(a % 2 == 0 && h != 0 && h & hm == 0 && a == 2 * h) by (bit_vector)
            requires
                a != 0usize,
                a != 1usize,
                m == (a - 1) as usize,
                a & m == 0usize,
                h == a / 2,
                hm == (h - 1) as usize,
        ;
        lemma_mask_rounds_down(y / 2, h);
        assert(y & !m == ((y / 2) & !hm) * 2) by (bit_vector)
            requires
                a == 2 * h,
                h != 0usize,
                h & hm == 0usize,
                m == (a - 1) as usize,
                hm == (h - 1) as usize,
        ;
        vstd::arithmetic::div_mod::lemma_div_denominator(y as int, 2, h as int);
        assert((y as int / 2) / (h as int) == y as int / a as int);
        vstd::arithmetic::mul::lemma_mul_is_associative(y as int / a as int, h as int, 2);
    }
}

pub proof fn lemma_align_up_pow2(x: usize, a: usize)
    requires
        is_pow2(a),
        x + a - 1 <= usize::MAX,
    ensures
        align_up_bits(x, a) == round_up(x as int, a as int),
        align_up_bits(x, a) % a == 0,
        x <= align_up_bits(x, a),
        align_up_bits(x, a) < x + a,
{
    let y = (x + a - 1) as usize;
    lemma_mask_rounds_down(y, a);
    let q = y as int / a as int;
    vstd::arithmetic::div_mod::lemma_fundamental_div_mod(y as int, a as int);
    vstd::arithmetic::div_mod::lemma_mod_multiples_basic(q, a as int);
}

/// Rounds `x` up with the mask of `a - 1`.
///
/// For a power of two `a` this is the least multiple of `a` that is at least `x`.
pub fn align_up(x: usize, a: usize) -> (r: usize)
    requires
        a >= 1,
        x + (a - 1) <= usize::MAX,
    ensures
        r == align_up_bits(x, a),
        is_pow2(a) ==> r == round_up(x as int, a as int),
        is_pow2(a) ==> r % a == 0 && x <= r < x + a,
{
    proof {
        if is_pow2(a) {
            lemma_align_up_pow2(x, a);
        }
    }
    (x + (a - 1)) & !(a - 1)
}


/// The smallest block that can stand on its own as a free block: a header and the free links.
pub open spec fn spec_min_free_block_size() -> usize {
    32
}

/// The smallest block that can stand on its own as a free block: a header and the free links,
/// rounded up to `ALIGN`.
#[verifier::when_used_as_spec(spec_min_free_block_size)]
pub fn min_free_block_size() -> (r: usize)
    ensures
        r == spec_min_free_block_size(),
{
    proof {
        assert(is_pow2(ALIGN)) by (bit_vector);
    }
    let r = align_up(HEADER_SIZE + FREE_NODE_SIZE, ALIGN);
    assert(r == 32);
    r
}

/// The header at the start of every block: its size with the flag bits, and the size of the
/// block just before it in the same arena.
#[derive(Clone, Copy, Debug)]
pub struct BlockHeader {
    pub size_and_flags: usize,
    pub prev_size: usize,
}

/// The links of a free block in a free list; `0` stands for no block.
#[derive(Clone, Copy, Debug)]
pub struct FreeNode {
    pub prev_free: usize,
    pub next_free: usize,
}

/// The flag bits for the three block properties.
pub open spec fn flags_of(busy: bool, first: bool, last: bool) -> usize {
    (if busy { BUSY } else { 0usize }) | (if first { FIRST } else { 0usize }) | (if last {
        LAST
    } else {
        0usize
    })
}

impl BlockHeader {
    pub open spec fn spec_size(&self) -> usize {
        self.size_and_flags & !FLAG_MASK
    }

    pub open spec fn spec_flags(&self) -> usize {
        self.size_and_flags & FLAG_MASK
    }

    pub open spec fn spec_is_busy(&self) -> bool {
        (self.size_and_flags & FLAG_MASK) & BUSY != 0
    }

    pub open spec fn spec_is_first(&self) -> bool {
        (self.size_and_flags & FLAG_MASK) & FIRST != 0
    }

    pub open spec fn spec_is_last(&self) -> bool {
        (self.size_and_flags & FLAG_MASK) & LAST != 0
    }

    /// The block size in bytes, header included.
    #[verifier::when_used_as_spec(spec_size)]
    pub fn size(&self) -> (r: usize)
        ensures
            r == self.spec_size(),
    {
        self.size_and_flags & !FLAG_MASK
    }

    /// The flag bits of the block.
    #[verifier::when_used_as_spec(spec_flags)]
    pub fn flags(&self) -> (r: usize)
        ensures
            r == self.spec_flags(),
    {
        self.size_and_flags & FLAG_MASK
    }

    /// Whether the block is handed out.
    #[verifier::when_used_as_spec(spec_is_busy)]
    pub fn is_busy(&self) -> (r: bool)
        ensures
            r == self.spec_is_busy(),
    {
        (self.flags() & BUSY) != 0
    }

    /// Whether the block starts its arena.
    #[verifier::when_used_as_spec(spec_is_first)]
    pub fn is_first(&self) -> (r: bool)
        ensures
            r == self.spec_is_first(),
    {
        (self.flags() & FIRST) != 0
    }

    /// Whether the block ends its arena.
    #[verifier::when_used_as_spec(spec_is_last)]
    pub fn is_last(&self) -> (r: bool)
        ensures
            r == self.spec_is_last(),
    {
        (self.flags() & LAST) != 0
    }

    /// Stores `size` together with the flag bits of `flags`.
    pub fn set_size_and_flags(&mut self, size: usize, flags: usize)
        ensures
            final(self).size_and_flags == size | (flags & FLAG_MASK),
            final(self).prev_size == old(self).prev_size,
            size % 8 == 0 ==> final(self).size() == size,
            size % 8 == 0 ==> final(self).flags() == flags & FLAG_MASK,
            size % 8 == 0 ==> final(self).is_busy() == (flags & BUSY != 0),
            size % 8 == 0 ==> final(self).is_first() == (flags & FIRST != 0),
            size % 8 == 0 ==> final(self).is_last() == (flags & LAST != 0),
    {
        self.size_and_flags = size | (flags & FLAG_MASK);
        proof {
            if size % 8 == 0 {
                lemma_pack(size, flags);
            }
        }
    }
}

/// Packing a size that is a multiple of 8 with flag bits keeps both apart.
pub proof fn lemma_pack(size: usize, flags: usize)
    requires
        size % 8 == 0,
    ensures
        (size | (flags & FLAG_MASK)) & !FLAG_MASK == size,
        (size | (flags & FLAG_MASK)) & FLAG_MASK == flags & FLAG_MASK,
        ((size | (flags & FLAG_MASK)) & FLAG_MASK) & BUSY == flags & BUSY,
        ((size | (flags & FLAG_MASK)) & FLAG_MASK) & FIRST == flags & FIRST,
        ((size | (flags & FLAG_MASK)) & FLAG_MASK) & LAST == flags & LAST,
{
    assert(size & 7 == 0) by (bit_vector)
        requires
            size % 8 == 0,
    ;
    let v = size | (flags & 7);
    assert(v & !7usize == size && v & 7 == flags & 7 && (v & 7) & 1 == flags & 1 && (v & 7) & 2
        == flags & 2 && (v & 7) & 4 == flags & 4) by (bit_vector)
        requires
            size & 7 == 0,
            v == size | (flags & 7),
    ;
}

/// The flag bits of `flags_of` are the ones asked for.
pub proof fn lemma_flags_of(busy: bool, first: bool, last: bool)
    ensures
        flags_of(busy, first, last) & BUSY != 0 <==> busy,
        flags_of(busy, first, last) & FIRST != 0 <==> first,
        flags_of(busy, first, last) & LAST != 0 <==> last,
        flags_of(busy, first, last) & FLAG_MASK == flags_of(busy, first, last),
{
    let b = if busy { 1usize } else { 0usize };
    let f = if first { 2usize } else { 0usize };
    let l = if last { 4usize } else { 0usize };
    assert((b | f | l) & 1 != 0 <==> b == 1) by (bit_vector)
        requires
            b == 0 || b == 1,
            f == 0 || f == 2,
            l == 0 || l == 4,
    ;
    assert((b | f | l) & 2 != 0 <==> f == 2) by (bit_vector)
        requires
            b == 0 || b == 1,
            f == 0 || f == 2,
            l == 0 || l == 4,
    ;
    assert((b | f | l) & 4 != 0 <==> l == 4) by (bit_vector)
        requires
            b == 0 || b == 1,
            f == 0 || f == 2,
            l == 0 || l == 4,
    ;
    assert((b | f | l) & 7 == (b | f | l)) by (bit_vector)
        requires
            b == 0 || b == 1,
            f == 0 || f == 2,
            l == 0 || l == 4,
    ;
}

/// Address of the free links of the block at `b`.
pub fn free_node_ptr(b: usize) -> (r: usize)
    requires
        b + HEADER_SIZE <= usize::MAX,
    ensures
        r == b + HEADER_SIZE,
{
    b + HEADER_SIZE
}

/// Address of the block that follows the block at `b` whose header is `h`.
pub fn next_block(b: usize, h: &BlockHeader) -> (r: usize)
    requires
        b + h.size() <= usize::MAX,
    ensures
        r == b + h.size(),
{
    b + h.size()
}

/// Address of the block that precedes the block at `b` whose header is `h`.
pub fn prev_block(b: usize, h: &BlockHeader) -> (r: usize)
    requires
        h.prev_size <= b,
    ensures
        r == b - h.prev_size,
{
    b - h.prev_size
}

/// Address of the payload of the block at `b`.
pub fn payload_ptr(b: usize) -> (r: usize)
    requires
        b + HEADER_SIZE <= usize::MAX,
    ensures
        r == b + HEADER_SIZE,
{
    b + HEADER_SIZE
}

/// Address of the header of the block whose payload starts at `p`.
pub fn header_from_payload(p: usize) -> (r: usize)
    requires
        p >= HEADER_SIZE,
    ensures
        r == p - HEADER_SIZE,
{
    p - HEADER_SIZE
}

/// The size of a header is a multiple of 8.
pub proof fn lemma_size_multiple(h: BlockHeader)
    ensures
        h.size() % 8 == 0,
{
    let v = h.size_and_flags;
    assert((v & !7usize) % 8 == 0) by (bit_vector);
}

/// A sum of two multiples of 8, taken in a machine word, is a multiple of 8.
pub proof fn lemma_sum_multiple(x: usize, y: usize)
    requires
        x % 8 == 0,
        y % 8 == 0,
    ensures
        ((x + y) as usize) % 8 == 0,
{
    assert(((x + y) as usize) % 8 == 0) by (bit_vector)
        requires
            x % 8 == 0,
            y % 8 == 0,
    ;
}


/// A header's size joined with the flag bits of its own properties is the header's word.
pub proof fn lemma_rebuild(h: BlockHeader)
    ensures
        h.size() | (flags_of(h.is_busy(), h.is_first(), h.is_last()) & FLAG_MASK) == h.size_and_flags,
{
    let v = h.size_and_flags;
    assert(((v & 7) & 1 != 0 ==> v & 1 == 1) && ((v & 7) & 1 == 0 ==> v & 1 == 0)) by (bit_vector);
    assert(((v & 7) & 2 != 0 ==> v & 2 == 2) && ((v & 7) & 2 == 0 ==> v & 2 == 0)) by (bit_vector);
    assert(((v & 7) & 4 != 0 ==> v & 4 == 4) && ((v & 7) & 4 == 0 ==> v & 4 == 0)) by (bit_vector);
    assert((v & !7usize) | (((v & 1) | (v & 2) | (v & 4)) & 7) == v) by (bit_vector);
}

} // verus!
