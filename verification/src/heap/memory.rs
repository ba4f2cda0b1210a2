use vstd::prelude::*;
use vstd::hash_map::HashMapWithView;
use crate::block::BlockHeader;

verus! {

broadcast use vstd::std_specs::hash::group_hash_axioms;

/// The block headers of all mapped arenas, by block address.
///
/// A header stands for the bytes at the start of its block; the library keeps it here, beside the
/// mapped memory, so that every header access is checked.
pub struct Memory {
    headers: HashMapWithView<usize, BlockHeader>,
}

impl View for Memory {
    type V = Map<usize, BlockHeader>;

    closed spec fn view(&self) -> Map<usize, BlockHeader> {
        self.headers@
    }
}

/// The block sizes of `m`, by block address.
pub open spec fn sizes_of(m: Map<usize, BlockHeader>) -> Map<usize, usize> {
    Map::new(|a: usize| m.contains_key(a), |a: usize| m[a].size())
}

impl Memory {
    /// Memory without any block.
    pub fn new() -> (r: Self)
        ensures
            r@ == Map::<usize, BlockHeader>::empty(),
    {
        Memory { headers: HashMapWithView::new() }
    }

    /// Whether a block starts at `b`.
    pub fn contains(&self, b: usize) -> (r: bool)
        ensures
            r == self@.contains_key(b),
    {
        self.headers.contains_key(&b)
    }

    /// The header of the block at `b`.
    pub fn header(&self, b: usize) -> (r: BlockHeader)
        requires
            self@.contains_key(b),
        ensures
            r == self@[b],
    {
        *self.headers.get(&b).unwrap()
    }

    /// Writes the header of the block at `b`.
    pub fn write(&mut self, b: usize, h: BlockHeader)
        ensures
            final(self)@ == old(self)@.insert(b, h),
    {
        self.headers.insert(b, h);
    }

    /// Drops the header at `b`: no block starts there any more.
    pub fn forget(&mut self, b: usize)
        ensures
            final(self)@ == old(self)@.remove(b),
    {
        self.headers.remove(&b);
    }
}

} // verus!
