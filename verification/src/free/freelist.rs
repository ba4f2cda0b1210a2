use vstd::prelude::*;
use vstd::hash_map::HashMapWithView;
use crate::block::FreeNode;
use crate::heap::memory::{Memory, sizes_of};
use crate::free::{FreeIndex, is_best_fit};

verus! {

broadcast use vstd::std_specs::hash::group_hash_axioms;

/// A doubly linked list of free blocks, newest first.
///
/// The links of a block are kept by block address; `0` stands for no block.
pub struct FreeList {
    head: usize,
    nodes: HashMapWithView<usize, FreeNode>,
    order: Ghost<Seq<usize>>,
}

/// One line of a listing of a free list.
#[derive(Clone, Copy, Debug)]
pub struct FreeListEntry {
    pub block: usize,
    pub size: usize,
    pub flags: usize,
    pub prev_free: usize,
    pub next_free: usize,
}

/// `i` is the first position in `o` whose block is a best fit for `needed`.
pub open spec fn first_best(o: Seq<usize>, sizes: Map<usize, usize>, needed: usize, i: int) -> bool {
    &&& 0 <= i < o.len()
    &&& sizes[o[i]] >= needed
    &&& forall|j: int| 0 <= j < o.len() && sizes[o[j]] >= needed ==> sizes[o[i]] <= #[trigger] sizes[o[j]]
    &&& forall|j: int| 0 <= j < i && sizes[o[j]] >= needed ==> sizes[o[i]] < #[trigger] sizes[o[j]]
}

/// The block that a walk of the list `o` picks for `needed`: the first one of the smallest size
/// that is at least `needed`, or `0`.
pub open spec fn list_pick(o: Seq<usize>, sizes: Map<usize, usize>, needed: usize) -> usize {
    if exists|i: int| first_best(o, sizes, needed, i) {
        o[choose|i: int| first_best(o, sizes, needed, i)]
    } else {
        0
    }
}

proof fn lemma_first_best_unique(o: Seq<usize>, sizes: Map<usize, usize>, needed: usize, i: int, k: int)
    requires
        first_best(o, sizes, needed, i),
        first_best(o, sizes, needed, k),
    ensures
        i == k,
{
    if i < k {
        assert(sizes[o[k]] <= sizes[o[i]]);
    } else if k < i {
        assert(sizes[o[i]] <= sizes[o[k]]);
    }
}

proof fn lemma_list_pick_found(o: Seq<usize>, sizes: Map<usize, usize>, needed: usize, i: int)
    requires
        first_best(o, sizes, needed, i),
    ensures
        list_pick(o, sizes, needed) == o[i],
{
    let k = choose|k: int| first_best(o, sizes, needed, k);
    lemma_first_best_unique(o, sizes, needed, i, k);
}

proof fn lemma_list_pick_none(o: Seq<usize>, sizes: Map<usize, usize>, needed: usize)
    requires
        forall|j: int| 0 <= j < o.len() ==> sizes[#[trigger] o[j]] < needed,
    ensures
        list_pick(o, sizes, needed) == 0,
{
    if exists|i: int| first_best(o, sizes, needed, i) {
        let k = choose|k: int| first_best(o, sizes, needed, k);
        assert(sizes[o[k]] < needed);
    }
}

/// Putting a block that is not in the list at its front and then taking it out gives the list
/// back.
pub proof fn lemma_push_then_remove(o: Seq<usize>, b: usize)
    requires
        !o.contains(b),
    ensures
        (seq![b] + o).remove((seq![b] + o).index_of(b)) == o,
{
    let l = seq![b] + o;
    assert(l[0] == b);
    assert(l.contains(b));
    let k = l.index_of(b);
    if k != 0 {
        assert(l[k] == b && o[k - 1] == b);
        assert(o.contains(b));
    }
    assert(l.remove(0) =~= o);
}

impl View for FreeList {
    type V = Seq<usize>;

    /// The blocks of the list, from its head on.
    closed spec fn view(&self) -> Seq<usize> {
        self.order@
    }
}

impl FreeList {
    /// The list is well formed: distinct nonzero blocks, each linked to its neighbours.
    pub closed spec fn inv(&self) -> bool {
        let o = self.order@;
        &&& o.no_duplicates()
        &&& forall|i: int| 0 <= i < o.len() ==> #[trigger] o[i] != 0
        &&& self.head == (if o.len() == 0 { 0 } else { o[0] })
        &&& forall|i: int|
            0 <= i < o.len() ==> {
                &&& self.nodes@.contains_key(#[trigger] o[i])
                &&& self.nodes@[o[i]].next_free == (if i + 1 < o.len() { o[i + 1] } else { 0 })
                &&& self.nodes@[o[i]].prev_free == (if i > 0 { o[i - 1] } else { 0 })
            }
    }

    /// The links stored for block `b`.
    pub closed spec fn links(&self, b: usize) -> FreeNode {
        self.nodes@[b]
    }

    /// What a sound list shows of its links: its blocks are distinct and nonzero, and each one
    /// is linked to the block before it and the block after it, `0` at either end.
    pub proof fn lemma_links(&self)
        requires
            self.inv(),
        ensures
            self@.no_duplicates(),
            forall|i: int| 0 <= i < self@.len() ==> #[trigger] self@[i] != 0,
            forall|i: int|
                0 <= i < self@.len() ==> #[trigger] self.links(self@[i]) == (FreeNode {
                    prev_free: if i > 0 { self@[i - 1] } else { 0 },
                    next_free: if i + 1 < self@.len() { self@[i + 1] } else { 0 },
                }),
    {
        assert forall|i: int| 0 <= i < self@.len() implies #[trigger] self.links(self@[i]) == (FreeNode {
            prev_free: if i > 0 { self@[i - 1] } else { 0 },
            next_free: if i + 1 < self@.len() { self@[i + 1] } else { 0 },
        }) by {
            assert(self.nodes@.contains_key(self.order@[i]));
        }
    }

    /// An empty list.
    pub fn new() -> (r: Self)
        ensures
            r.inv(),
            r@ == Seq::<usize>::empty(),
    {
        FreeList { head: 0, nodes: HashMapWithView::new(), order: Ghost(Seq::empty()) }
    }

    /// The first block of the list, `0` when it is empty.
    pub fn head(&self) -> (r: usize)
        requires
            self.inv(),
        ensures
            r == (if self@.len() == 0 { 0 } else { self@[0] }),
    {
        self.head
    }

    /// Whether the list holds no block.
    pub fn is_empty(&self) -> (r: bool)
        requires
            self.inv(),
        ensures
            r == (self@.len() == 0),
    {
        self.head == 0
    }

    fn node(&self, b: usize) -> (r: FreeNode)
        requires
            self.nodes@.contains_key(b),
        ensures
            r == self.nodes@[b],
    {
        *self.nodes.get(&b).unwrap()
    }

    /// Puts the block `b` at the front of the list.
    pub fn push_front(&mut self, b: usize)
        requires
            old(self).inv(),
            b != 0,
            !old(self)@.contains(b),
        ensures
            final(self).inv(),
            final(self)@ == seq![b] + old(self)@,
            final(self).links(b) == (FreeNode {
                prev_free: 0,
                next_free: if old(self)@.len() == 0 { 0 } else { old(self)@[0] },
            }),
            old(self)@.len() > 0 ==> final(self).links(old(self)@[0]).prev_free == b,
    {
        let ghost o = self.order@;
        let node = FreeNode { prev_free: 0, next_free: self.head };
        self.nodes.insert(b, node);
        if self.head != 0 {
            let h = self.head;
            let mut head_node = self.node(h);
            head_node.prev_free = b;
            self.nodes.insert(h, head_node);
        }
        self.head = b;
        self.order = Ghost(seq![b] + o);
        proof {
            let n = self.order@;
            assert forall|i: int| 0 <= i < n.len() implies #[trigger] n[i] != 0 by {
                if i > 0 {
                    assert(n[i] == o[i - 1]);
                }
            }
            assert forall|i: int| 0 <= i < n.len() implies {
                &&& self.nodes@.contains_key(#[trigger] n[i])
                &&& self.nodes@[n[i]].next_free == (if i + 1 < n.len() { n[i + 1] } else { 0 })
                &&& self.nodes@[n[i]].prev_free == (if i > 0 { n[i - 1] } else { 0 })
            } by {
                if i > 0 {
                    assert(n[i] == o[i - 1]);
                    assert(o[i - 1] != b);
                    if i + 1 < n.len() {
                        assert(n[i + 1] == o[i]);
                    }
                }
            }
            assert(n.no_duplicates()) by {
                assert forall|i: int, j: int| 0 <= i < n.len() && 0 <= j < n.len() && i != j implies n[i] != n[j] by {
                    if i > 0 && j > 0 {
                        assert(n[i] == o[i - 1] && n[j] == o[j - 1]);
                    } else if i == 0 {
                        assert(n[j] == o[j - 1]);
                    } else {
                        assert(n[i] == o[i - 1]);
                    }
                }
            }
        }
    }

    /// Unlinks the block `b` from the list and clears its links.
    pub fn remove(&mut self, b: usize)
        requires
            old(self).inv(),
            old(self)@.contains(b),
        ensures
            final(self).inv(),
            final(self)@ == old(self)@.remove(old(self)@.index_of(b)),
            final(self).links(b) == (FreeNode { prev_free: 0, next_free: 0 }),
            old(self)@.index_of(b) == 0 ==> old(self).links(b).next_free == (if final(self)@.len() == 0 {
                0
            } else {
                final(self)@[0]
            }),
    {
        let ghost o = self.order@;
        let ghost k = o.index_of(b);
        proof {
            assert(o[k] == b);
        }
        let node = self.node(b);
        let prev = node.prev_free;
        let next = node.next_free;
        if prev == 0 {
            proof {
                if k > 0 {
                    assert(o[k - 1] != 0);
                }
            }
            self.head = next;
        } else {
            let mut prev_node = self.node(prev);
            prev_node.next_free = next;
            self.nodes.insert(prev, prev_node);
        }
        if next != 0 {
            let mut next_node = self.node(next);
            next_node.prev_free = prev;
            self.nodes.insert(next, next_node);
        }
        self.nodes.insert(b, FreeNode { prev_free: 0, next_free: 0 });
        self.order = Ghost(o.remove(k));
        proof {
            let n = self.order@;
            assert(k == 0 <==> prev == 0) by {
                if k > 0 {
                    assert(o[k - 1] != 0);
                }
            }
            assert(k + 1 == o.len() <==> next == 0) by {
                if k + 1 < o.len() {
                    assert(o[k + 1] != 0);
                }
            }
            assert forall|i: int| 0 <= i < n.len() implies #[trigger] n[i] != 0 by {
                if i < k {
                    assert(n[i] == o[i]);
                } else {
                    assert(n[i] == o[i + 1]);
                }
            }
            assert forall|i: int| 0 <= i < n.len() implies {
                &&& self.nodes@.contains_key(#[trigger] n[i])
                &&& self.nodes@[n[i]].next_free == (if i + 1 < n.len() { n[i + 1] } else { 0 })
                &&& self.nodes@[n[i]].prev_free == (if i > 0 { n[i - 1] } else { 0 })
            } by {
                if i < k {
                    assert(n[i] == o[i]);
                    assert(o[i] != b);
                    if i + 1 < k {
                        assert(n[i + 1] == o[i + 1]);
                        assert(o[i] != o[i + 1]);
                    }
                    if i + 1 == k && k + 1 < o.len() {
                        assert(n[i + 1] == o[k + 1]);
                    }
                    if i > 0 {
                        assert(n[i - 1] == o[i - 1]);
                        assert(o[i] != o[i - 1]);
                        assert(o[i] != o[k + 1] || k + 1 >= o.len());
                    }
                    if k + 1 < o.len() {
                        assert(o[i] != o[k + 1]);
                    }
                } else {
                    assert(n[i] == o[i + 1]);
                    assert(o[i + 1] != b);
                    if i + 1 < n.len() {
                        assert(n[i + 1] == o[i + 2]);
                    }
                    if i > k {
                        assert(n[i - 1] == o[i]);
                    }
                    if k > 0 {
                        assert(o[i + 1] != o[k - 1]);
                    }
                }
            }
            assert(n.no_duplicates()) by {
                assert forall|i: int, j: int| 0 <= i < n.len() && 0 <= j < n.len() && i != j implies n[i] != n[j] by {
                    let oi = if i < k { i } else { i + 1 };
                    let oj = if j < k { j } else { j + 1 };
                    assert(n[i] == o[oi] && n[j] == o[oj]);
                }
            }
        }
    }

    /// The first block of the smallest size that is at least `needed`, `0` when no block is
    /// large enough.
    #[verifier::rlimit(30)]
    pub fn find_best_fit(&self, mem: &Memory, needed: usize) -> (r: usize)
        requires
            self.inv(),
            forall|i: int|
                0 <= i < self@.len() ==> #[trigger] mem@.contains_key(self@[i]) && mem@[self@[i]].size()
                    < usize::MAX,
        ensures
            r == list_pick(self@, sizes_of(mem@), needed),
    {
        let ghost o = self.order@;
        let ghost sizes = sizes_of(mem@);
        let mut cur = self.head;
        let mut best: usize = 0;
        let mut best_size: usize = usize::MAX;
        let ghost mut i: int = 0;
        let ghost mut bi: int = -1;
        while cur != 0
            invariant_except_break
                cur == (if i < o.len() { o[i] } else { 0 }),
            invariant
                self.inv(),
                o == self.order@,
                sizes == sizes_of(mem@),
                forall|j: int|
                    0 <= j < self@.len() ==> #[trigger] mem@.contains_key(self@[j]) && mem@[self@[j]].size()
                        < usize::MAX,
                0 <= i <= o.len(),
                bi == -1 ==> best == 0 && best_size == usize::MAX && forall|j: int|
                    0 <= j < i ==> sizes[#[trigger] o[j]] < needed,
                bi != -1 ==> {
                    &&& 0 <= bi < i
                    &&& best == o[bi]
                    &&& best_size == sizes[o[bi]]
                    &&& sizes[o[bi]] >= needed
                    &&& forall|j: int|
                        0 <= j < i && sizes[o[j]] >= needed ==> best_size <= #[trigger] sizes[o[j]]
                    &&& forall|j: int|
                        0 <= j < bi && sizes[o[j]] >= needed ==> best_size < #[trigger] sizes[o[j]]
                },
            ensures
                bi != -1 && best_size == needed || (i == o.len() && cur == 0),
            decreases o.len() - i,
        {
            proof {
                if i >= o.len() {
                    assert(cur == 0);
                }
            }
            assert(mem@.contains_key(self@[i]));
            let block_size = mem.header(cur).size();
            assert(block_size == sizes[o[i]]);
            assert(block_size < usize::MAX);
            if block_size >= needed && block_size < best_size {
                best = cur;
                best_size = block_size;
                proof {
                    bi = i;
                }
                if block_size == needed {
                    proof {
                        i = i + 1;
                    }
                    break;
                }
            }
            let next = self.node(cur).next_free;
            cur = next;
            proof {
                i = i + 1;
            }
        }
        proof {
            if bi == -1 {
                lemma_list_pick_none(o, sizes, needed);
            } else {
                assert forall|j: int|
                    0 <= j < o.len() && sizes[o[j]] >= needed implies sizes[o[bi]] <= #[trigger] sizes[o[j]] by {
                    if j >= i {
                        assert(best_size == needed);
                    }
                }
                assert(first_best(o, sizes, needed, bi));
                lemma_list_pick_found(o, sizes, needed, bi);
            }
        }
        best
    }
}

} // verus!

verus! {

/// The most entries a listing of a free list shows before it stops.
pub const DUMP_LIMIT: usize = 10001;

impl FreeList {
    /// A listing of the list from its head: each block with its size, flags and links, at most
    /// `DUMP_LIMIT` of them; the flag tells whether the listing stopped at the limit.
    #[verifier::rlimit(40)]
    pub fn dump_entries(&self, mem: &Memory) -> (r: (Vec<FreeListEntry>, bool))
        requires
            self.inv(),
            forall|i: int| 0 <= i < self@.len() ==> #[trigger] mem@.contains_key(self@[i]),
        ensures
            r.0@.len() == (if self@.len() < DUMP_LIMIT { self@.len() } else { DUMP_LIMIT as nat }),
            r.1 == (self@.len() >= DUMP_LIMIT),
            forall|i: int| #![trigger r.0@[i]] 0 <= i < r.0@.len() ==> {
                &&& r.0@[i].block == self@[i]
                &&& r.0@[i].size == mem@[self@[i]].size()
                &&& r.0@[i].flags == mem@[self@[i]].flags()
                &&& r.0@[i].prev_free == self.links(self@[i]).prev_free
                &&& r.0@[i].next_free == self.links(self@[i]).next_free
            },
    {
        let ghost o = self.order@;
        let mut out: Vec<FreeListEntry> = Vec::new();
        let mut i: usize = 0;
        let mut cur = self.head;
        while cur != 0
            invariant_except_break
                cur == (if i < o.len() { o[i as int] } else { 0 }),
                i < DUMP_LIMIT,
            invariant
                self.inv(),
                o == self.order@,
                forall|j: int| 0 <= j < self@.len() ==> #[trigger] mem@.contains_key(self@[j]),
                i <= o.len(),
                out@.len() == i,
                forall|j: int| #![trigger out@[j]] 0 <= j < i ==> {
                    &&& out@[j].block == o[j]
                    &&& out@[j].size == mem@[o[j]].size()
                    &&& out@[j].flags == mem@[o[j]].flags()
                    &&& out@[j].prev_free == self.nodes@[o[j]].prev_free
                    &&& out@[j].next_free == self.nodes@[o[j]].next_free
                },
            ensures
                (i == o.len() && o.len() < DUMP_LIMIT) || (i == DUMP_LIMIT && i <= o.len()),
            decreases o.len() - i,
        {
            proof {
                if i >= o.len() {
                    assert(cur == 0);
                }
                assert(mem@.contains_key(self@[i as int]));
            }
            let h = mem.header(cur);
            let node = self.node(cur);
            let ghost out0 = out@;
            out.push(FreeListEntry {
                block: cur,
                size: h.size(),
                flags: h.flags(),
                prev_free: node.prev_free,
                next_free: node.next_free,
            });
            proof {
                assert(out@ == out0.push(out@[i as int]));
                assert(node.next_free == (if i + 1 < o.len() { o[i + 1] } else { 0 }));
            }
            cur = node.next_free;
            i = i + 1;
            if i >= DUMP_LIMIT {
                break;
            }
        }
        (out, i >= DUMP_LIMIT)
    }
}

proof fn lemma_first_best_exists(o: Seq<usize>, sizes: Map<usize, usize>, needed: usize, j: int)
    requires
        0 <= j < o.len(),
        sizes[o[j]] >= needed,
    ensures
        exists|i: int| first_best(o, sizes, needed, i),
    decreases sizes[o[j]], j,
{
    if exists|k: int| 0 <= k < o.len() && sizes[o[k]] >= needed && sizes[o[k]] < sizes[o[j]] {
        let k = choose|k: int| 0 <= k < o.len() && sizes[o[k]] >= needed && sizes[o[k]] < sizes[o[j]];
        lemma_first_best_exists(o, sizes, needed, k);
    } else if exists|k: int| 0 <= k < j && sizes[o[k]] >= needed && sizes[o[k]] <= sizes[o[j]] {
        let k = choose|k: int| 0 <= k < j && sizes[o[k]] >= needed && sizes[o[k]] <= sizes[o[j]];
        lemma_first_best_exists(o, sizes, needed, k);
    } else {
        assert(first_best(o, sizes, needed, j));
    }
}

proof fn lemma_list_pick_agree(o: Seq<usize>, s1: Map<usize, usize>, s2: Map<usize, usize>, needed: usize)
    requires
        forall|j: int| 0 <= j < o.len() ==> s1[#[trigger] o[j]] == s2[o[j]],
    ensures
        list_pick(o, s1, needed) == list_pick(o, s2, needed),
{
    if exists|i: int| first_best(o, s1, needed, i) {
        let k = choose|k: int| first_best(o, s1, needed, k);
        assert(first_best(o, s2, needed, k));
        lemma_list_pick_found(o, s2, needed, k);
    } else if exists|i: int| first_best(o, s2, needed, i) {
        let k = choose|k: int| first_best(o, s2, needed, k);
        assert(first_best(o, s1, needed, k));
    }
}

impl FreeIndex for FreeList {
    open spec fn holds(&self, sizes: Map<usize, usize>) -> bool {
        &&& self.inv()
        &&& forall|b: usize| self@.contains(b) <==> #[trigger] sizes.contains_key(b)
        &&& forall|b: usize| #[trigger] sizes.contains_key(b) ==> sizes[b] < usize::MAX
    }

    open spec fn pick(&self, sizes: Map<usize, usize>, needed: usize) -> usize {
        list_pick(self@, sizes, needed)
    }

    open spec fn added(&self, post: &Self, b: usize, size: usize) -> bool {
        post@ == seq![b] + self@
    }

    open spec fn taken(&self, post: &Self, b: usize, size: usize) -> bool {
        post@ == self@.remove(self@.index_of(b))
    }

    proof fn lemma_pick(&self, sizes: Map<usize, usize>, needed: usize) {
        let o = self@;
        if exists|i: int| first_best(o, sizes, needed, i) {
            let k = choose|k: int| first_best(o, sizes, needed, k);
            lemma_list_pick_found(o, sizes, needed, k);
            assert forall|a: usize| #[trigger]
                sizes.contains_key(a) && sizes[a] >= needed implies sizes[o[k]] <= sizes[a] by {
                assert(o.contains(a));
                let j = choose|j: int| 0 <= j < o.len() && o[j] == a;
            }
            assert(o.contains(o[k]));
            assert(sizes.contains_key(o[k]));
            assert(o[k] != 0);
        } else {
            assert forall|a: usize| #[trigger] sizes.contains_key(a) implies sizes[a] < needed by {
                assert(o.contains(a));
                let j = choose|j: int| 0 <= j < o.len() && o[j] == a;
                if sizes[a] >= needed {
                    lemma_first_best_exists(o, sizes, needed, j);
                }
            }
        }
    }

    fn empty_index() -> (r: Self) {
        FreeList::new()
    }

    fn index_is_empty(&self, Ghost(sizes): Ghost<Map<usize, usize>>) -> (r: bool) {
        let r = self.is_empty();
        proof {
            if !r {
                assert(self@.contains(self@[0]));
                assert(sizes.dom().contains(self@[0]));
            } else {
                assert(sizes.dom() =~= Set::<usize>::empty());
            }
        }
        r
    }

    fn add_block(&mut self, Ghost(sizes): Ghost<Map<usize, usize>>, b: usize, size: usize) {
        self.push_front(b);
        proof {
            let n = self@;
            assert forall|c: usize| n.contains(c) <==> #[trigger] sizes.insert(b, size).contains_key(c) by {
                if n.contains(c) {
                    let j = choose|j: int| 0 <= j < n.len() && n[j] == c;
                    if j > 0 {
                        assert(old(self)@[j - 1] == c);
                    }
                }
                if sizes.contains_key(c) && c != b {
                    let j = choose|j: int| 0 <= j < old(self)@.len() && old(self)@[j] == c;
                    assert(n[j + 1] == c);
                }
                if c == b {
                    assert(n[0] == b);
                }
            }
        }
    }

    fn take_block(&mut self, Ghost(sizes): Ghost<Map<usize, usize>>, b: usize, size: usize) {
        proof {
            assert(self@.contains(b));
        }
        let ghost o = self@;
        self.remove(b);
        proof {
            let n = self@;
            let k = o.index_of(b);
            assert forall|c: usize| n.contains(c) <==> #[trigger] sizes.remove(b).contains_key(c) by {
                if n.contains(c) {
                    let j = choose|j: int| 0 <= j < n.len() && n[j] == c;
                    if j < k {
                        assert(o[j] == c);
                    } else {
                        assert(o[j + 1] == c);
                    }
                    assert(o.contains(c));
                    assert(c != b) by {
                        if c == b {
                            let jj = if j < k { j } else { j + 1 };
                            assert(o[jj] == o[k]);
                        }
                    }
                }
                if sizes.contains_key(c) && c != b {
                    assert(o.contains(c));
                    let j = choose|j: int| 0 <= j < o.len() && o[j] == c;
                    assert(j != k);
                    if j < k {
                        assert(n[j] == c);
                    } else {
                        assert(n[j - 1] == c);
                    }
                }
            }
        }
    }

    fn best_fit(&self, Ghost(sizes): Ghost<Map<usize, usize>>, mem: &Memory, needed: usize) -> (r: usize) {
        proof {
            assert forall|i: int| 0 <= i < self@.len() implies #[trigger] mem@.contains_key(self@[i])
                && mem@[self@[i]].size() < usize::MAX by {
                assert(self@.contains(self@[i]));
                assert(sizes.contains_key(self@[i]));
            }
            assert forall|j: int| 0 <= j < self@.len() implies sizes_of(mem@)[#[trigger] self@[j]] == sizes[self@[j]] by {
                assert(self@.contains(self@[j]));
                assert(sizes.contains_key(self@[j]));
            }
            lemma_list_pick_agree(self@, sizes_of(mem@), sizes, needed);
        }
        self.find_best_fit(mem, needed)
    }
}

} // verus!
