pub mod avl;
pub mod freelist;

use vstd::prelude::*;
use crate::heap::memory::Memory;

verus! {

/// `r` is a best fit for a request of `needed` bytes among the blocks of `sizes`: `0` when no
/// block is large enough, else a block that is large enough and no larger than any other such block.
pub open spec fn is_best_fit(sizes: Map<usize, usize>, needed: usize, r: usize) -> bool {
    &&& (r == 0) <==> (forall|a: usize| #[trigger] sizes.contains_key(a) ==> sizes[a] < needed)
    &&& r != 0 ==> {
        &&& sizes.contains_key(r)
        &&& sizes[r] >= needed
        &&& forall|a: usize| #[trigger]
            sizes.contains_key(a) && sizes[a] >= needed ==> sizes[r] <= sizes[a]
    }
}

/// A set of free blocks that can be searched by size.
pub trait FreeIndex: Sized {
    /// The index is well formed and holds exactly the blocks of `sizes`, by address.
    spec fn holds(&self, sizes: Map<usize, usize>) -> bool;

    /// The block that `best_fit` picks for a request of `needed` bytes.
    spec fn pick(&self, sizes: Map<usize, usize>, needed: usize) -> usize;

    /// `post` is this index after `add_block(b, size)`.
    spec fn added(&self, post: &Self, b: usize, size: usize) -> bool;

    /// `post` is this index after `take_block(b, size)`.
    spec fn taken(&self, post: &Self, b: usize, size: usize) -> bool;

    /// The picked block is a best fit.
    proof fn lemma_pick(&self, sizes: Map<usize, usize>, needed: usize)
        requires
            self.holds(sizes),
        ensures
            is_best_fit(sizes, needed, self.pick(sizes, needed)),
    ;

    /// An index without blocks.
    fn empty_index() -> (r: Self)
        ensures
            r.holds(Map::empty()),
    ;

    /// Whether the index holds no block.
    fn index_is_empty(&self, Ghost(sizes): Ghost<Map<usize, usize>>) -> (r: bool)
        requires
            self.holds(sizes),
        ensures
            r == (sizes.dom() =~= Set::<usize>::empty()),
    ;

    /// Adds the free block at `b` of `size` bytes.
    fn add_block(&mut self, Ghost(sizes): Ghost<Map<usize, usize>>, b: usize, size: usize)
        requires
            old(self).holds(sizes),
            !sizes.contains_key(b),
            b != 0,
            0 < size < usize::MAX,
        ensures
            final(self).holds(sizes.insert(b, size)),
            old(self).added(final(self), b, size),
    ;

    /// Takes the free block at `b` of `size` bytes out of the index.
    fn take_block(&mut self, Ghost(sizes): Ghost<Map<usize, usize>>, b: usize, size: usize)
        requires
            old(self).holds(sizes),
            sizes.contains_key(b),
            sizes[b] == size,
        ensures
            final(self).holds(sizes.remove(b)),
            old(self).taken(final(self), b, size),
    ;

    /// The block picked for a request of `needed` bytes, `0` when none is large enough.
    fn best_fit(&self, Ghost(sizes): Ghost<Map<usize, usize>>, mem: &Memory, needed: usize) -> (r:
        usize)
        requires
            self.holds(sizes),
            forall|a: usize| #[trigger]
                sizes.contains_key(a) ==> mem@.contains_key(a) && mem@[a].size() == sizes[a],
        ensures
            r == self.pick(sizes, needed),
    ;
}

} // verus!
