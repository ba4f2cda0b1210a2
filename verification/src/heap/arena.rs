use vstd::prelude::*;
use crate::block::{FREE_NODE_SIZE, HEADER_SIZE, align_up, is_pow2, round_up};

verus! {

/// Pages in a default arena.
pub const DEFAULT_ARENA_PAGES: usize = 8;

/// Bytes of a default arena when the page size is unknown (zero).
pub const FALLBACK_ARENA_SIZE: usize = 32 * 1024;

/// Bytes at the start of a free block that hold its header and free links.
pub const FREE_META_SIZE: usize = HEADER_SIZE + FREE_NODE_SIZE;

/// The size of a default arena for pages of `page` bytes (`0` when unknown).
pub open spec fn spec_default_arena_size(page: usize) -> usize {
    if page == 0 {
        FALLBACK_ARENA_SIZE
    } else {
        (DEFAULT_ARENA_PAGES * page) as usize
    }
}

/// The size of a default arena: eight pages, or 32 KiB when the page size is unknown (zero).
pub fn default_arena_size(page: usize) -> (r: usize)
    requires
        DEFAULT_ARENA_PAGES * page <= usize::MAX,
    ensures
        r == spec_default_arena_size(page),
{
    if page == 0 {
        FALLBACK_ARENA_SIZE
    } else {
        DEFAULT_ARENA_PAGES * page
    }
}

/// The length of the mapping for a large block of `needed` bytes: `needed` rounded up to whole
/// pages, or `needed` itself when the page size is unknown (zero).
pub open spec fn spec_large_arena_len(needed: usize, page: usize) -> usize {
    if page == 0 {
        needed
    } else {
        round_up(needed as int, page as int) as usize
    }
}

/// The length of the mapping for a large block of `needed` bytes.
pub fn large_arena_len(needed: usize, page: usize) -> (r: usize)
    requires
        page == 0 || is_pow2(page),
        page != 0 ==> needed + page - 1 <= usize::MAX,
    ensures
        r == spec_large_arena_len(needed, page),
        needed <= r,
        page != 0 ==> r % page == 0,
{
    if page == 0 {
        needed
    } else {
        align_up(needed, page)
    }
}

/// Rounds `x` up to a multiple of the power of two `page`.
pub fn page_align_up(x: usize, page: usize) -> (r: usize)
    requires
        is_pow2(page),
        x + page - 1 <= usize::MAX,
    ensures
        r == round_up(x as int, page as int),
        r % page == 0,
        x <= r < x + page,
{
    proof {
        crate::block::lemma_align_up_pow2(x, page);
    }
    (x + (page - 1)) & !(page - 1)
}

/// Rounds `x` down to a multiple of the power of two `page`.
pub fn page_align_down(x: usize, page: usize) -> (r: usize)
    requires
        is_pow2(page),
    ensures
        r == (x as int / page as int) * page,
        r % page == 0,
        r <= x,
        x - r < page,
{
    proof {
        crate::block::lemma_mask_rounds_down(x, page);
        vstd::arithmetic::div_mod::lemma_fundamental_div_mod(x as int, page as int);
        vstd::arithmetic::div_mod::lemma_mod_multiples_basic(x as int / page as int, page as int);
    }
    x & !(page - 1)
}

/// The whole pages of the free block at `start` of `size` bytes that lie past its header and
/// links, as a start address and a length, when there are any and the page size is known.
pub open spec fn spec_advise_range(start: usize, size: usize, page: usize) -> Option<(usize, usize)> {
    if page == 0 {
        None
    } else {
        let lo = round_up(start + FREE_META_SIZE, page as int);
        let hi = ((start + size) / (page as int)) * page;
        if hi > lo {
            Some((lo as usize, (hi - lo) as usize))
        } else {
            None
        }
    }
}

/// The range of whole pages of a free block that the system may take back.
pub fn advise_free_pages(start: usize, size: usize, page: usize) -> (r: Option<(usize, usize)>)
    requires
        page != 0 ==> is_pow2(page) && start + size <= usize::MAX && start + FREE_META_SIZE + page - 1
            <= usize::MAX,
    ensures
        r == spec_advise_range(start, size, page),
        r matches Some((lo, len)) ==> lo % page == 0 && len % page == 0 && start + FREE_META_SIZE
            <= lo && lo + len <= start + size,
{
    if page == 0 {
        return None;
    }
    let end = start + size;
    let meta_end = start + FREE_META_SIZE;
    let advise_start = page_align_up(meta_end, page);
    let advise_end = page_align_down(end, page);
    if advise_end > advise_start {
        proof {
            let qh = end as int / page as int;
            let ql = (meta_end + page - 1) as int / page as int;
            assert(advise_end == qh * page);
            assert(advise_start == ql * page);
            vstd::arithmetic::mul::lemma_mul_is_distributive_sub_other_way(page as int, qh, ql);
            vstd::arithmetic::div_mod::lemma_mod_multiples_basic(qh - ql, page as int);
        }
        Some((advise_start, advise_end - advise_start))
    } else {
        None
    }
}

} // verus!
