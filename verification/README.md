# tal

A page-based memory allocator whose bookkeeping is verified with Verus.

Memory comes from the system in arenas: default arenas of eight pages, cut into blocks, and
arenas of their own for blocks too large for a default arena. Every block starts with a header
that holds its size, three flags (busy, first and last block of its arena) and the size of the
block before it. Free blocks are indexed by size, either in a doubly linked list or in an AVL
tree whose nodes carry lists of blocks of equal size. An allocation takes the best-fitting free
block and splits off the rest; freeing merges a block with its free neighbours.

## Layout

- `src/` is the verified library.
  - `block.rs`: block headers, flag bits and address arithmetic.
  - `free/`: the free indexes, `FreeList` and `FreeTree`, behind the `FreeIndex` trait.
  - `heap/`: the block headers by address (`memory.rs`), the sound layout and the operations on
    it (`state.rs`), freeing with merges (`merge.rs`), and arena sizes (`arena.rs`).
  - `allocator/`: `ArenaAllocator` (tree) and `ArenaListAllocator` (list). Each operation is a
    step function: it returns the result, or asks for a mapping, and the caller comes back with
    the address it got.
- `app/` runs the step functions behind `GlobalAlloc`: it maps and unmaps memory, copies the
  bytes of a moved block, and offers a C interface.
- `tests/` exercises the library on given addresses, without mapping memory.

The bookkeeping (headers and free links) is kept in the library's own maps, which allocate
from the Rust heap; so these allocators serve explicit calls and cannot themselves be installed
as the `#[global_allocator]`.
