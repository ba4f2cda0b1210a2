use vstd::prelude::*;
use crate::block::{
    BlockHeader, HEADER_SIZE, flags_of, lemma_flags_of, lemma_size_multiple, lemma_sum_multiple,
};
use crate::heap::state::{
    apart, coalesced, free_sizes, header_of, heap_ok, lemma_header_of, lemma_heap_apart,
    lemma_heap_block, links_ok, merged_at, nxt, prv,
};

verus! {

/// Every block but `x` and the one just before `x` is not followed by another free block.
#[verifier::opaque]
pub open spec fn coalesced_except(hdr: Map<usize, BlockHeader>, x: usize) -> bool {
    forall|a: usize| #[trigger]
        hdr.contains_key(a) && a != x && !(!hdr[a].is_last() && nxt(hdr, a) == x) ==> merged_at(
            hdr,
            a,
        )
}

/// The layout is sound, and every block but the block at `x` and its neighbours is coalesced;
/// `x` lies in an arena no larger than `dsize`.
pub open spec fn pending(
    hdr: Map<usize, BlockHeader>,
    arenas: Map<usize, usize>,
    owner: Map<usize, usize>,
    dsize: usize,
    x: usize,
) -> bool {
    &&& heap_ok(hdr, arenas, owner, dsize)
    &&& hdr.contains_key(x)
    &&& arenas[owner[x]] <= dsize
    &&& coalesced_except(hdr, x)
}

/// The block at `b` with its busy bit cleared.
pub open spec fn cleared(hdr: Map<usize, BlockHeader>, b: usize) -> Map<usize, BlockHeader> {
    let h = hdr[b];
    hdr.insert(b, header_of(h.size(), flags_of(false, h.is_first(), h.is_last()), h.prev_size))
}

/// The block at `x` merged with the block after it when that one is free; the merged block is
/// busy when the block at `x` is.
pub open spec fn merge_with_next(hdr: Map<usize, BlockHeader>, x: usize) -> Map<usize, BlockHeader> {
    let h = hdr[x];
    let n = nxt(hdr, x);
    if !h.is_last() && !hdr[n].is_busy() {
        let size = (h.size() + hdr[n].size()) as usize;
        let m = hdr.remove(n).insert(
            x,
            header_of(size, flags_of(h.is_busy(), h.is_first(), hdr[n].is_last()), h.prev_size),
        );
        if hdr[n].is_last() {
            m
        } else {
            let after = nxt(hdr, n);
            m.insert(after, BlockHeader { prev_size: size, ..hdr[after] })
        }
    } else {
        hdr
    }
}

/// The free block at `x` merged into the block before it when that one is free too, with the
/// address of the resulting block.
pub open spec fn merge_with_prev(hdr: Map<usize, BlockHeader>, x: usize) -> (Map<usize, BlockHeader>, usize) {
    let h = hdr[x];
    let p = prv(hdr, x);
    if !h.is_first() && !hdr[p].is_busy() {
        let size = (hdr[p].size() + h.size()) as usize;
        let m = hdr.remove(x).insert(
            p,
            header_of(size, flags_of(false, hdr[p].is_first(), h.is_last()), hdr[p].prev_size),
        );
        (
            if h.is_last() {
                m
            } else {
                let after = nxt(hdr, x);
                m.insert(after, BlockHeader { prev_size: size, ..hdr[after] })
            },
            p,
        )
    } else {
        (hdr, x)
    }
}

/// The headers after the block at `b` is freed and merged with its free neighbours, with the
/// address of the resulting free block.
pub open spec fn coalesce_result(hdr: Map<usize, BlockHeader>, b: usize) -> (Map<usize, BlockHeader>, usize) {
    merge_with_prev(merge_with_next(cleared(hdr, b), b), b)
}

/// The block after `a` has `a` as its block before.
pub proof fn lemma_next_back(
    hdr: Map<usize, BlockHeader>,
    arenas: Map<usize, usize>,
    owner: Map<usize, usize>,
    dsize: usize,
    a: usize,
)
    requires
        heap_ok(hdr, arenas, owner, dsize),
        hdr.contains_key(a),
        !hdr[a].is_last(),
    ensures
        hdr.contains_key(nxt(hdr, a)),
        !hdr[nxt(hdr, a)].is_first(),
        prv(hdr, nxt(hdr, a)) == a,
        nxt(hdr, a) > a,
        owner[nxt(hdr, a)] == owner[a],
{
    lemma_heap_block(hdr, arenas, owner, dsize, a);
    lemma_heap_block(hdr, arenas, owner, dsize, nxt(hdr, a));
}

/// The block before `a` has `a` as its block after.
pub proof fn lemma_prev_back(
    hdr: Map<usize, BlockHeader>,
    arenas: Map<usize, usize>,
    owner: Map<usize, usize>,
    dsize: usize,
    a: usize,
)
    requires
        heap_ok(hdr, arenas, owner, dsize),
        hdr.contains_key(a),
        !hdr[a].is_first(),
    ensures
        hdr.contains_key(prv(hdr, a)),
        !hdr[prv(hdr, a)].is_last(),
        nxt(hdr, prv(hdr, a)) == a,
        prv(hdr, a) < a,
        owner[prv(hdr, a)] == owner[a],
{
    lemma_heap_block(hdr, arenas, owner, dsize, a);
    lemma_heap_block(hdr, arenas, owner, dsize, prv(hdr, a));
}

/// Two blocks that end at the same address are the same block.
pub proof fn lemma_end_unique(
    hdr: Map<usize, BlockHeader>,
    arenas: Map<usize, usize>,
    owner: Map<usize, usize>,
    dsize: usize,
    a: usize,
    c: usize,
)
    requires
        heap_ok(hdr, arenas, owner, dsize),
        hdr.contains_key(a),
        hdr.contains_key(c),
        a + hdr[a].size() == c + hdr[c].size(),
    ensures
        a == c,
{
    if a != c {
        lemma_heap_apart(hdr, arenas, owner, dsize, a, c);
        lemma_heap_block(hdr, arenas, owner, dsize, a);
        lemma_heap_block(hdr, arenas, owner, dsize, c);
    }
}

/// Clearing the busy bit of the block at `x` keeps the layout sound.
pub proof fn lemma_clear(
    hdr: Map<usize, BlockHeader>,
    arenas: Map<usize, usize>,
    owner: Map<usize, usize>,
    dsize: usize,
    x: usize,
)
    requires
        pending(hdr, arenas, owner, dsize, x),
    ensures
        pending(cleared(hdr, x), arenas, owner, dsize, x),
        !cleared(hdr, x)[x].is_busy(),
        cleared(hdr, x)[x].size() == hdr[x].size(),
        cleared(hdr, x)[x].is_first() == hdr[x].is_first(),
        cleared(hdr, x)[x].is_last() == hdr[x].is_last(),
        cleared(hdr, x)[x].prev_size == hdr[x].prev_size,
        free_sizes(cleared(hdr, x)).remove(x) == free_sizes(hdr).remove(x),
{
    let h = hdr[x];
    let m = cleared(hdr, x);
    lemma_heap_block(hdr, arenas, owner, dsize, x);
    lemma_header_of(h.size(), flags_of(false, h.is_first(), h.is_last()), h.prev_size);
    lemma_flags_of(false, h.is_first(), h.is_last());
    assert(free_sizes(m).remove(x) =~= free_sizes(hdr).remove(x));
    assert forall|a: usize| #[trigger] m.contains_key(a) implies links_ok(m, arenas, owner, dsize, a) by {
        lemma_heap_block(hdr, arenas, owner, dsize, a);
    }
    assert forall|a: usize, c: usize|
        #![trigger m.contains_key(a), m.contains_key(c)]
        m.contains_key(a) && m.contains_key(c) && a != c implies apart(m, a, c) by {
        lemma_heap_apart(hdr, arenas, owner, dsize, a, c);
    }
    reveal(heap_ok);
    reveal(coalesced_except);
    assert forall|a: usize| #[trigger]
        m.contains_key(a) && a != x && !(!m[a].is_last() && nxt(m, a) == x) implies merged_at(m, a) by {
        assert(merged_at(hdr, a));
    }
}

/// What merging the free block at `x` with the free block after it rests on.
proof fn lemma_mn_facts(
    hdr: Map<usize, BlockHeader>,
    arenas: Map<usize, usize>,
    owner: Map<usize, usize>,
    dsize: usize,
    x: usize,
)
    requires
        pending(hdr, arenas, owner, dsize, x),
        !hdr[x].is_last(),
        !hdr[nxt(hdr, x)].is_busy(),
    ensures
        ({
            let h = hdr[x];
            let n = nxt(hdr, x);
            let size = (h.size() + hdr[n].size()) as usize;
            let after = nxt(hdr, n);
            let m = merge_with_next(hdr, x);
            &&& links_ok(hdr, arenas, owner, dsize, x)
            &&& hdr.contains_key(n)
            &&& links_ok(hdr, arenas, owner, dsize, n)
            &&& n > x
            &&& owner[n] == owner[x]
            &&& prv(hdr, n) == x
            &&& arenas.contains_key(owner[x])
            &&& x + size <= owner[x] + arenas[owner[x]]
            &&& size == h.size() + hdr[n].size()
            &&& size % 8 == 0
            &&& !hdr[n].is_last() ==> {
                &&& hdr.contains_key(after)
                &&& after > n
                &&& after == x + size
                &&& owner[after] == owner[x]
                &&& hdr[after].is_busy()
                &&& !hdr[after].is_first()
                &&& prv(hdr, after) == n
            }
            &&& forall|a: usize| m.contains_key(a) <==> hdr.contains_key(a) && a != n
            &&& forall|a: usize| a != x && a != n && (hdr[n].is_last() || a != after) ==> m[a] == hdr[a]
            &&& !hdr[n].is_last() ==> m[after] == (BlockHeader { prev_size: size, ..hdr[after] })
            &&& m[x].is_busy() == h.is_busy()
            &&& m[x].size() == size
            &&& m[x].is_first() == h.is_first()
            &&& m[x].is_last() == hdr[n].is_last()
            &&& m[x].prev_size == h.prev_size
        }),
{
    let h = hdr[x];
    let n = nxt(hdr, x);
    let size = (h.size() + hdr[n].size()) as usize;
    lemma_heap_block(hdr, arenas, owner, dsize, x);
    lemma_next_back(hdr, arenas, owner, dsize, x);
    lemma_heap_block(hdr, arenas, owner, dsize, n);
    lemma_header_of(size, flags_of(h.is_busy(), h.is_first(), hdr[n].is_last()), h.prev_size);
    lemma_flags_of(h.is_busy(), h.is_first(), hdr[n].is_last());
    if !hdr[n].is_last() {
        lemma_next_back(hdr, arenas, owner, dsize, n);
        reveal(coalesced_except);
        assert(merged_at(hdr, n));
    }
    let m = merge_with_next(hdr, x);
    assert forall|a: usize| m.contains_key(a) <==> hdr.contains_key(a) && a != n by {}
}

proof fn lemma_mn_link_x(
    hdr: Map<usize, BlockHeader>,
    arenas: Map<usize, usize>,
    owner: Map<usize, usize>,
    dsize: usize,
    x: usize,
)
    requires
        pending(hdr, arenas, owner, dsize, x),
        !hdr[x].is_last(),
        !hdr[nxt(hdr, x)].is_busy(),
    ensures
        links_ok(merge_with_next(hdr, x), arenas, owner, dsize, x),
{
    lemma_mn_facts(hdr, arenas, owner, dsize, x);
    let h = hdr[x];
    if !h.is_first() {
        lemma_prev_back(hdr, arenas, owner, dsize, x);
    }
}

proof fn lemma_mn_link_after(
    hdr: Map<usize, BlockHeader>,
    arenas: Map<usize, usize>,
    owner: Map<usize, usize>,
    dsize: usize,
    x: usize,
    a: usize,
)
    requires
        pending(hdr, arenas, owner, dsize, x),
        !hdr[x].is_last(),
        !hdr[nxt(hdr, x)].is_busy(),
        !hdr[nxt(hdr, x)].is_last(),
        a == nxt(hdr, nxt(hdr, x)),
    ensures
        links_ok(merge_with_next(hdr, x), arenas, owner, dsize, a),
{
    lemma_mn_facts(hdr, arenas, owner, dsize, x);
    lemma_heap_block(hdr, arenas, owner, dsize, a);
    if !hdr[a].is_last() {
        lemma_next_back(hdr, arenas, owner, dsize, a);
    }
}

proof fn lemma_mn_link_other(
    hdr: Map<usize, BlockHeader>,
    arenas: Map<usize, usize>,
    owner: Map<usize, usize>,
    dsize: usize,
    x: usize,
    a: usize,
)
    requires
        pending(hdr, arenas, owner, dsize, x),
        !hdr[x].is_last(),
        !hdr[nxt(hdr, x)].is_busy(),
        merge_with_next(hdr, x).contains_key(a),
        a != x,
        hdr[nxt(hdr, x)].is_last() || a != nxt(hdr, nxt(hdr, x)),
    ensures
        links_ok(merge_with_next(hdr, x), arenas, owner, dsize, a),
{
    lemma_mn_facts(hdr, arenas, owner, dsize, x);
    let n = nxt(hdr, x);
    lemma_heap_block(hdr, arenas, owner, dsize, a);
    if !hdr[a].is_last() {
        lemma_next_back(hdr, arenas, owner, dsize, a);
        if nxt(hdr, a) == n {
            lemma_end_unique(hdr, arenas, owner, dsize, a, x);
        }
        if !hdr[n].is_last() && nxt(hdr, a) == nxt(hdr, n) {
            lemma_end_unique(hdr, arenas, owner, dsize, a, n);
        }
    }
    if !hdr[a].is_first() {
        lemma_prev_back(hdr, arenas, owner, dsize, a);
    }
}

/// Merging the block at `x` with the free block after it keeps the layout sound.
pub proof fn lemma_merge_next(
    hdr: Map<usize, BlockHeader>,
    arenas: Map<usize, usize>,
    owner: Map<usize, usize>,
    dsize: usize,
    x: usize,
)
    requires
        pending(hdr, arenas, owner, dsize, x),
        !hdr[x].is_last(),
        !hdr[nxt(hdr, x)].is_busy(),
    ensures
        ({
            let h = hdr[x];
            let n = nxt(hdr, x);
            let m = merge_with_next(hdr, x);
            &&& pending(m, arenas, owner, dsize, x)
            &&& m[x].is_busy() == h.is_busy()
            &&& m[x].size() == h.size() + hdr[n].size()
            &&& m[x].is_first() == h.is_first()
            &&& m[x].is_last() == hdr[n].is_last()
            &&& m[x].prev_size == h.prev_size
            &&& !m[x].is_last() ==> m.contains_key(nxt(m, x)) && m[nxt(m, x)].is_busy()
            &&& !h.is_first() ==> prv(m, x) == prv(hdr, x) && m[prv(hdr, x)] == hdr[prv(hdr, x)]
            &&& free_sizes(m).remove(x) == free_sizes(hdr).remove(x).remove(n)
            &&& hdr.contains_key(n)
            &&& hdr[n].size() == free_sizes(hdr)[n]
            &&& free_sizes(hdr).contains_key(n)
        }),
{
    lemma_mn_facts(hdr, arenas, owner, dsize, x);
    let h = hdr[x];
    let n = nxt(hdr, x);
    let m = merge_with_next(hdr, x);
    let after = nxt(hdr, n);
    if !h.is_first() {
        lemma_prev_back(hdr, arenas, owner, dsize, x);
    }
    assert forall|a: usize| #[trigger] m.contains_key(a) implies links_ok(m, arenas, owner, dsize, a) by {
        if a == x {
            lemma_mn_link_x(hdr, arenas, owner, dsize, x);
        } else if !hdr[n].is_last() && a == after {
            lemma_mn_link_after(hdr, arenas, owner, dsize, x, a);
        } else {
            lemma_mn_link_other(hdr, arenas, owner, dsize, x, a);
        }
    }
    assert forall|a: usize, c: usize|
        #![trigger m.contains_key(a), m.contains_key(c)]
        m.contains_key(a) && m.contains_key(c) && a != c implies apart(m, a, c) by {
        if a == x {
            lemma_heap_apart(hdr, arenas, owner, dsize, x, c);
            lemma_heap_apart(hdr, arenas, owner, dsize, n, c);
        } else if c == x {
            lemma_heap_apart(hdr, arenas, owner, dsize, a, x);
            lemma_heap_apart(hdr, arenas, owner, dsize, a, n);
        } else {
            lemma_heap_apart(hdr, arenas, owner, dsize, a, c);
        }
    }
    assert forall|a: usize| #[trigger]
        m.contains_key(a) && a != x && !(!m[a].is_last() && nxt(m, a) == x) implies merged_at(m, a) by {
        reveal(coalesced_except);
        if !hdr[a].is_last() {
            lemma_next_back(hdr, arenas, owner, dsize, a);
            if nxt(hdr, a) == n {
                lemma_end_unique(hdr, arenas, owner, dsize, a, x);
            }
            if !hdr[n].is_last() && nxt(hdr, a) == after {
                lemma_end_unique(hdr, arenas, owner, dsize, a, n);
            }
            if !hdr[n].is_last() && a == after {
                lemma_next_back(hdr, arenas, owner, dsize, after);
            }
        }
        assert(merged_at(hdr, a));
    }
    assert(free_sizes(m).remove(x) =~= free_sizes(hdr).remove(x).remove(n));
    reveal(heap_ok);
    reveal(coalesced_except);
    if !m[x].is_last() {
        assert(nxt(m, x) == after);
    }
}

/// What merging the free block at `x` into the free block before it rests on.
proof fn lemma_mp_facts(
    hdr: Map<usize, BlockHeader>,
    arenas: Map<usize, usize>,
    owner: Map<usize, usize>,
    dsize: usize,
    x: usize,
)
    requires
        pending(hdr, arenas, owner, dsize, x),
        !hdr[x].is_busy(),
        !hdr[x].is_first(),
        !hdr[prv(hdr, x)].is_busy(),
        !hdr[x].is_last() ==> hdr[nxt(hdr, x)].is_busy(),
    ensures
        ({
            let h = hdr[x];
            let p = prv(hdr, x);
            let size = (hdr[p].size() + h.size()) as usize;
            let after = nxt(hdr, x);
            let m = merge_with_prev(hdr, x).0;
            &&& merge_with_prev(hdr, x).1 == p
            &&& links_ok(hdr, arenas, owner, dsize, x)
            &&& hdr.contains_key(p)
            &&& links_ok(hdr, arenas, owner, dsize, p)
            &&& p < x
            &&& nxt(hdr, p) == x
            &&& !hdr[p].is_last()
            &&& owner[p] == owner[x]
            &&& arenas.contains_key(owner[x])
            &&& arenas[owner[p]] <= dsize
            &&& size == hdr[p].size() + h.size()
            &&& size % 8 == 0
            &&& p + size == x + h.size()
            &&& !h.is_last() ==> {
                &&& hdr.contains_key(after)
                &&& after > x
                &&& owner[after] == owner[x]
                &&& hdr[after].is_busy()
                &&& !hdr[after].is_first()
                &&& prv(hdr, after) == x
            }
            &&& !hdr[p].is_first() ==> {
                &&& hdr.contains_key(prv(hdr, p))
                &&& prv(hdr, p) < p
                &&& hdr[prv(hdr, p)].is_busy()
                &&& !hdr[prv(hdr, p)].is_last()
                &&& nxt(hdr, prv(hdr, p)) == p
            }
            &&& forall|a: usize| m.contains_key(a) <==> hdr.contains_key(a) && a != x
            &&& forall|a: usize| a != x && a != p && (h.is_last() || a != after) ==> m[a] == hdr[a]
            &&& !h.is_last() ==> m[after] == (BlockHeader { prev_size: size, ..hdr[after] })
            &&& !m[p].is_busy()
            &&& m[p].size() == size
            &&& m[p].is_first() == hdr[p].is_first()
            &&& m[p].is_last() == h.is_last()
            &&& m[p].prev_size == hdr[p].prev_size
        }),
{
    let h = hdr[x];
    let p = prv(hdr, x);
    let size = (hdr[p].size() + h.size()) as usize;
    lemma_heap_block(hdr, arenas, owner, dsize, x);
    lemma_prev_back(hdr, arenas, owner, dsize, x);
    lemma_heap_block(hdr, arenas, owner, dsize, p);
    lemma_header_of(size, flags_of(false, hdr[p].is_first(), h.is_last()), hdr[p].prev_size);
    lemma_flags_of(false, hdr[p].is_first(), h.is_last());
    if !h.is_last() {
        lemma_next_back(hdr, arenas, owner, dsize, x);
    }
    if !hdr[p].is_first() {
        lemma_prev_back(hdr, arenas, owner, dsize, p);
        reveal(coalesced_except);
        let pp = prv(hdr, p);
        assert(merged_at(hdr, pp));
    }
    let m = merge_with_prev(hdr, x).0;
    assert forall|a: usize| m.contains_key(a) <==> hdr.contains_key(a) && a != x by {}
}

proof fn lemma_mp_link_p(
    hdr: Map<usize, BlockHeader>,
    arenas: Map<usize, usize>,
    owner: Map<usize, usize>,
    dsize: usize,
    x: usize,
)
    requires
        pending(hdr, arenas, owner, dsize, x),
        !hdr[x].is_busy(),
        !hdr[x].is_first(),
        !hdr[prv(hdr, x)].is_busy(),
        !hdr[x].is_last() ==> hdr[nxt(hdr, x)].is_busy(),
    ensures
        links_ok(merge_with_prev(hdr, x).0, arenas, owner, dsize, prv(hdr, x)),
{
    lemma_mp_facts(hdr, arenas, owner, dsize, x);
    let p = prv(hdr, x);
    if !hdr[p].is_first() {
        lemma_prev_back(hdr, arenas, owner, dsize, p);
        lemma_heap_block(hdr, arenas, owner, dsize, prv(hdr, p));
    }
}

proof fn lemma_mp_link_after(
    hdr: Map<usize, BlockHeader>,
    arenas: Map<usize, usize>,
    owner: Map<usize, usize>,
    dsize: usize,
    x: usize,
    a: usize,
)
    requires
        pending(hdr, arenas, owner, dsize, x),
        !hdr[x].is_busy(),
        !hdr[x].is_first(),
        !hdr[prv(hdr, x)].is_busy(),
        !hdr[x].is_last() ==> hdr[nxt(hdr, x)].is_busy(),
        !hdr[x].is_last(),
        a == nxt(hdr, x),
    ensures
        links_ok(merge_with_prev(hdr, x).0, arenas, owner, dsize, a),
{
    lemma_mp_facts(hdr, arenas, owner, dsize, x);
    lemma_heap_block(hdr, arenas, owner, dsize, a);
    if !hdr[a].is_last() {
        lemma_next_back(hdr, arenas, owner, dsize, a);
    }
}

proof fn lemma_mp_link_other(
    hdr: Map<usize, BlockHeader>,
    arenas: Map<usize, usize>,
    owner: Map<usize, usize>,
    dsize: usize,
    x: usize,
    a: usize,
)
    requires
        pending(hdr, arenas, owner, dsize, x),
        !hdr[x].is_busy(),
        !hdr[x].is_first(),
        !hdr[prv(hdr, x)].is_busy(),
        !hdr[x].is_last() ==> hdr[nxt(hdr, x)].is_busy(),
        merge_with_prev(hdr, x).0.contains_key(a),
        a != prv(hdr, x),
        hdr[x].is_last() || a != nxt(hdr, x),
    ensures
        links_ok(merge_with_prev(hdr, x).0, arenas, owner, dsize, a),
{
    lemma_mp_facts(hdr, arenas, owner, dsize, x);
    let p = prv(hdr, x);
    lemma_heap_block(hdr, arenas, owner, dsize, a);
    if !hdr[a].is_last() {
        lemma_next_back(hdr, arenas, owner, dsize, a);
        if nxt(hdr, a) == x {
            lemma_end_unique(hdr, arenas, owner, dsize, a, p);
        }
        if !hdr[x].is_last() && nxt(hdr, a) == nxt(hdr, x) {
            lemma_end_unique(hdr, arenas, owner, dsize, a, x);
        }
    }
    if !hdr[a].is_first() {
        lemma_prev_back(hdr, arenas, owner, dsize, a);
    }
}

/// Merging the free block at `x` into the free block before it keeps the layout sound.
pub proof fn lemma_merge_prev(
    hdr: Map<usize, BlockHeader>,
    arenas: Map<usize, usize>,
    owner: Map<usize, usize>,
    dsize: usize,
    x: usize,
)
    requires
        pending(hdr, arenas, owner, dsize, x),
        !hdr[x].is_busy(),
        !hdr[x].is_first(),
        !hdr[prv(hdr, x)].is_busy(),
        !hdr[x].is_last() ==> hdr[nxt(hdr, x)].is_busy(),
    ensures
        ({
            let h = hdr[x];
            let p = prv(hdr, x);
            let m = merge_with_prev(hdr, x).0;
            &&& merge_with_prev(hdr, x).1 == p
            &&& pending(m, arenas, owner, dsize, p)
            &&& !m[p].is_busy()
            &&& m[p].size() == hdr[p].size() + h.size()
            &&& !m[p].is_last() ==> m.contains_key(nxt(m, p)) && m[nxt(m, p)].is_busy()
            &&& !m[p].is_first() ==> m.contains_key(prv(m, p)) && m[prv(m, p)].is_busy()
            &&& free_sizes(m).remove(p) == free_sizes(hdr).remove(x).remove(p)
            &&& free_sizes(hdr).remove(x).contains_key(p)
            &&& free_sizes(hdr).remove(x)[p] == hdr[p].size()
        }),
{
    lemma_mp_facts(hdr, arenas, owner, dsize, x);
    let h = hdr[x];
    let p = prv(hdr, x);
    let m = merge_with_prev(hdr, x).0;
    let after = nxt(hdr, x);
    assert forall|a: usize| #[trigger] m.contains_key(a) implies links_ok(m, arenas, owner, dsize, a) by {
        if a == p {
            lemma_mp_link_p(hdr, arenas, owner, dsize, x);
        } else if !h.is_last() && a == after {
            lemma_mp_link_after(hdr, arenas, owner, dsize, x, a);
        } else {
            lemma_mp_link_other(hdr, arenas, owner, dsize, x, a);
        }
    }
    assert forall|a: usize, c: usize|
        #![trigger m.contains_key(a), m.contains_key(c)]
        m.contains_key(a) && m.contains_key(c) && a != c implies apart(m, a, c) by {
        if a == p {
            lemma_heap_apart(hdr, arenas, owner, dsize, p, c);
            lemma_heap_apart(hdr, arenas, owner, dsize, x, c);
        } else if c == p {
            lemma_heap_apart(hdr, arenas, owner, dsize, a, p);
            lemma_heap_apart(hdr, arenas, owner, dsize, a, x);
        } else {
            lemma_heap_apart(hdr, arenas, owner, dsize, a, c);
        }
    }
    assert forall|a: usize| #[trigger]
        m.contains_key(a) && a != p && !(!m[a].is_last() && nxt(m, a) == p) implies merged_at(m, a) by {
        reveal(coalesced_except);
        if !hdr[a].is_last() {
            lemma_next_back(hdr, arenas, owner, dsize, a);
            if nxt(hdr, a) == x {
                lemma_end_unique(hdr, arenas, owner, dsize, a, p);
            }
            if !h.is_last() && nxt(hdr, a) == after {
                lemma_end_unique(hdr, arenas, owner, dsize, a, x);
            }
            if !h.is_last() && a == after {
                lemma_next_back(hdr, arenas, owner, dsize, after);
            }
        }
        assert(merged_at(hdr, a));
    }
    assert(free_sizes(m).remove(p) =~= free_sizes(hdr).remove(x).remove(p));
    reveal(heap_ok);
    reveal(coalesced_except);
    if !m[p].is_last() {
        assert(nxt(m, p) == after);
    }
    if !m[p].is_first() {
        assert(prv(m, p) == prv(hdr, p));
    }
}

/// A pending block whose neighbours are busy completes a coalesced layout.
pub proof fn lemma_finish(
    hdr: Map<usize, BlockHeader>,
    arenas: Map<usize, usize>,
    owner: Map<usize, usize>,
    dsize: usize,
    x: usize,
)
    requires
        pending(hdr, arenas, owner, dsize, x),
        !hdr[x].is_last() ==> hdr[nxt(hdr, x)].is_busy(),
        !hdr[x].is_first() ==> hdr[prv(hdr, x)].is_busy(),
    ensures
        coalesced(hdr),
{
    reveal(coalesced);
    assert forall|a: usize| #[trigger] hdr.contains_key(a) implies merged_at(hdr, a) by {
        reveal(coalesced_except);
        if a != x && !hdr[a].is_last() && nxt(hdr, a) == x {
            lemma_next_back(hdr, arenas, owner, dsize, a);
        }
    }
}

/// A pending block that is busy completes a coalesced layout.
pub proof fn lemma_finish_busy(
    hdr: Map<usize, BlockHeader>,
    arenas: Map<usize, usize>,
    owner: Map<usize, usize>,
    dsize: usize,
    x: usize,
)
    requires
        pending(hdr, arenas, owner, dsize, x),
        hdr[x].is_busy(),
    ensures
        coalesced(hdr),
{
    reveal(coalesced);
    assert forall|a: usize| #[trigger] hdr.contains_key(a) implies merged_at(hdr, a) by {
        reveal(coalesced_except);
    }
}

/// Every busy block of `pre` but the one at `x` is in `post` too, busy and of the same size.
pub open spec fn busy_kept(pre: Map<usize, BlockHeader>, post: Map<usize, BlockHeader>, x: usize) -> bool {
    forall|q: usize|
        #[trigger] pre.contains_key(q) && q != x && pre[q].is_busy() ==> post.contains_key(q)
            && post[q].is_busy() && post[q].size() == pre[q].size()
}

/// A free header built from a multiple of 8 is not busy.
proof fn lemma_free_header(size: usize, first: bool, last: bool, prev_size: usize)
    requires
        size % 8 == 0,
    ensures
        !header_of(size, flags_of(false, first, last), prev_size).is_busy(),
        header_of(size, flags_of(false, first, last), prev_size).size() == size,
{
    lemma_header_of(size, flags_of(false, first, last), prev_size);
    lemma_flags_of(false, first, last);
}

/// Merging the block at `x` with the free block after it leaves every other busy block alone;
/// a free block at `x` stays free.
pub proof fn lemma_merge_next_keeps(hdr: Map<usize, BlockHeader>, x: usize)
    requires
        hdr.contains_key(x),
    ensures
        busy_kept(hdr, merge_with_next(hdr, x), x),
        !hdr[x].is_busy() ==> !(merge_with_next(hdr, x).contains_key(x) && merge_with_next(hdr, x)[x].is_busy()),
{
    let h = hdr[x];
    let n = nxt(hdr, x);
    if !h.is_last() && !hdr[n].is_busy() {
        lemma_size_multiple(h);
        lemma_size_multiple(hdr[n]);
        lemma_sum_multiple(h.size(), hdr[n].size());
        let size = (h.size() + hdr[n].size()) as usize;
        lemma_header_of(size, flags_of(h.is_busy(), h.is_first(), hdr[n].is_last()), h.prev_size);
        lemma_flags_of(h.is_busy(), h.is_first(), hdr[n].is_last());
    }
}

/// Merging the free block at `x` into the free block before it leaves every other busy block
/// alone, and no busy block stays at `x`.
pub proof fn lemma_merge_prev_keeps(hdr: Map<usize, BlockHeader>, x: usize)
    requires
        hdr.contains_key(x),
        !hdr[x].is_busy(),
    ensures
        busy_kept(hdr, merge_with_prev(hdr, x).0, x),
        !(merge_with_prev(hdr, x).0.contains_key(x) && merge_with_prev(hdr, x).0[x].is_busy()),
{
    let h = hdr[x];
    let p = prv(hdr, x);
    if !h.is_first() && !hdr[p].is_busy() {
        lemma_size_multiple(h);
        lemma_size_multiple(hdr[p]);
        lemma_sum_multiple(hdr[p].size(), h.size());
        let size = (hdr[p].size() + h.size()) as usize;
        lemma_free_header(size, hdr[p].is_first(), h.is_last(), hdr[p].prev_size);
    }
}

/// Freeing the block at `b` and merging it with its free neighbours leaves every other busy
/// block alone, and no busy block stays at `b`.
pub proof fn lemma_coalesce_keeps(hdr: Map<usize, BlockHeader>, b: usize)
    requires
        hdr.contains_key(b),
    ensures
        busy_kept(hdr, coalesce_result(hdr, b).0, b),
        !(coalesce_result(hdr, b).0.contains_key(b) && coalesce_result(hdr, b).0[b].is_busy()),
{
    let h = hdr[b];
    let c = cleared(hdr, b);
    lemma_size_multiple(h);
    lemma_free_header(h.size(), h.is_first(), h.is_last(), h.prev_size);
    assert(busy_kept(hdr, c, b));
    lemma_merge_next_keeps(c, b);
    let mn = merge_with_next(c, b);
    assert(mn.contains_key(b)) by {
        let n = nxt(c, b);
        if !c[b].is_last() && !c[n].is_busy() {
        }
    }
    lemma_merge_prev_keeps(mn, b);
}

} // verus!