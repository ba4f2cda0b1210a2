use vstd::prelude::*;
use crate::heap::memory::Memory;
use crate::free::{FreeIndex, is_best_fit};

verus! {

/// A node of the size tree: one size, the free blocks of that size (the first is the head that
/// stands for the node), and the subtrees of smaller and larger sizes.
pub struct Node {
    size: usize,
    blocks: Vec<usize>,
    height: usize,
    left: Option<Box<Node>>,
    right: Option<Box<Node>>,
}

/// Free blocks by size, as a height-balanced search tree keyed by block size; blocks of one size
/// form a list whose head stands in the tree.
pub struct FreeTree {
    root: Option<Box<Node>>,
}

/// The blocks of each size held by `t`, head first.
spec fn tmap(t: Option<Box<Node>>) -> Map<usize, Seq<usize>>
    decreases t,
{
    match t {
        None => Map::empty(),
        Some(n) => tmap(n.left).union_prefer_right(tmap(n.right)).insert(n.size, n.blocks@),
    }
}

/// The shape of a size tree: the size and the height of each node with its two subtrees; the
/// lists of blocks are left out.
pub enum TreeShape {
    Leaf,
    Node { size: usize, height: usize, left: Box<TreeShape>, right: Box<TreeShape> },
}

/// The shape of `t`.
spec fn tshape(t: Option<Box<Node>>) -> TreeShape
    decreases t,
{
    match t {
        None => TreeShape::Leaf,
        Some(n) => TreeShape::Node {
            size: n.size,
            height: n.height,
            left: Box::new(tshape(n.left)),
            right: Box::new(tshape(n.right)),
        },
    }
}

/// The height of `t`.
spec fn ht(t: Option<Box<Node>>) -> nat {
    match t {
        None => 0,
        Some(n) => n.height as nat,
    }
}

spec fn max_nat(a: nat, b: nat) -> nat {
    if a >= b {
        a
    } else {
        b
    }
}

/// Every size in `t` is below `k`.
spec fn all_below(t: Option<Box<Node>>, k: int) -> bool {
    forall|j: usize| #[trigger] tmap(t).contains_key(j) ==> j < k
}

/// Every size in `t` is above `k`.
spec fn all_above(t: Option<Box<Node>>, k: int) -> bool {
    forall|j: usize| #[trigger] tmap(t).contains_key(j) ==> j > k
}

/// `t` is a search tree by size with exact heights and a nonempty list in every node.
spec fn twf(t: Option<Box<Node>>) -> bool
    decreases t,
{
    match t {
        None => true,
        Some(n) => {
            &&& twf(n.left)
            &&& twf(n.right)
            &&& all_below(n.left, n.size as int)
            &&& all_above(n.right, n.size as int)
            &&& n.height == 1 + max_nat(ht(n.left), ht(n.right))
            &&& n.blocks@.len() > 0
        },
    }
}

/// `t` is height-balanced: the heights of the two subtrees of every node differ by at most one.
spec fn balanced(t: Option<Box<Node>>) -> bool
    decreases t,
{
    match t {
        None => true,
        Some(n) => {
            &&& balanced(n.left)
            &&& balanced(n.right)
            &&& ht(n.left) <= ht(n.right) + 1
            &&& ht(n.right) <= ht(n.left) + 1
        },
    }
}

/// The smallest size in `t` that is at least `needed`, found by descending the search tree.
spec fn best_key(t: Option<Box<Node>>, needed: usize) -> Option<usize>
    decreases t,
{
    match t {
        None => None,
        Some(n) => if n.size >= needed {
            match best_key(n.left, needed) {
                Some(k) => Some(k),
                None => Some(n.size),
            }
        } else {
            best_key(n.right, needed)
        },
    }
}

/// The sizes of `t` lie within `[lo, hi]`, so its height is at most the number of them.
proof fn lemma_height_bound(t: Option<Box<Node>>, lo: int, hi: int)
    requires
        twf(t),
        forall|j: usize| #[trigger] tmap(t).contains_key(j) ==> lo <= j <= hi,
    ensures
        ht(t) <= (if hi >= lo { hi - lo + 1 } else { 0 }),
        t is Some ==> lo <= hi,
    decreases t,
{
    match t {
        None => {},
        Some(n) => {
            assert(tmap(t).contains_key(n.size));
            assert forall|j: usize| #[trigger] tmap(n.left).contains_key(j) implies lo <= j <= n.size - 1 by {
                assert(tmap(t).contains_key(j));
            }
            assert forall|j: usize| #[trigger] tmap(n.right).contains_key(j) implies n.size + 1 <= j <= hi by {
                assert(tmap(t).contains_key(j));
            }
            lemma_height_bound(n.left, lo, n.size - 1);
            lemma_height_bound(n.right, n.size + 1, hi);
        },
    }
}

/// `best_key` gives the smallest size of the tree that is at least `needed`.
proof fn lemma_best_key(t: Option<Box<Node>>, needed: usize)
    requires
        twf(t),
    ensures
        best_key(t, needed) matches Some(k) ==> tmap(t).contains_key(k) && k >= needed && forall|j: usize|
            #[trigger] tmap(t).contains_key(j) && j >= needed ==> k <= j,
        best_key(t, needed) is None ==> forall|j: usize| #[trigger] tmap(t).contains_key(j) ==> j < needed,
    decreases t,
{
    match t {
        None => {
            assert(tmap(t) =~= Map::<usize, Seq<usize>>::empty());
        },
        Some(n) => {
            lemma_best_key(n.left, needed);
            lemma_best_key(n.right, needed);
            assert(tmap(t) == tmap(n.left).union_prefer_right(tmap(n.right)).insert(n.size, n.blocks@));
            assert(all_below(n.left, n.size as int));
            assert(all_above(n.right, n.size as int));
            assert forall|j: usize| #[trigger] tmap(t).contains_key(j) implies j == n.size || tmap(n.left).contains_key(j) || tmap(n.right).contains_key(j) by {}
        },
    }
}

/// The height of `t`.
fn height(t: &Option<Box<Node>>) -> (r: usize)
    ensures
        r == ht(*t),
{
    match t {
        None => 0,
        Some(n) => n.height,
    }
}

/// The size and the head block of the node of `t` whose size is the smallest one at least
/// `needed`.
fn best_node(t: &Option<Box<Node>>, needed: usize) -> (r: Option<(usize, usize)>)
    requires
        twf(*t),
    ensures
        r matches Some((k, h)) ==> best_key(*t, needed) == Some(k) && tmap(*t).contains_key(k) && h
            == tmap(*t)[k][0],
        r is None ==> best_key(*t, needed) is None,
    decreases *t,
{
    match t {
        None => None,
        Some(n) => {
            proof {
                lemma_node_map(*t);
                lemma_node_map_parts(n.size, n.blocks@, n.left, n.right);
            }
            if n.size >= needed {
                match best_node(&n.left, needed) {
                    Some(kh) => Some(kh),
                    None => Some((n.size, n.blocks[0])),
                }
            } else {
                best_node(&n.right, needed)
            }
        },
    }
}

/// Every list of a well-formed tree holds at least one block.
proof fn lemma_lists_nonempty(t: Option<Box<Node>>)
    requires
        twf(t),
    ensures
        forall|k: usize| #[trigger] tmap(t).contains_key(k) ==> tmap(t)[k].len() > 0,
    decreases t,
{
    match t {
        None => {
            assert(tmap(t) =~= Map::<usize, Seq<usize>>::empty());
        },
        Some(n) => {
            lemma_lists_nonempty(n.left);
            lemma_lists_nonempty(n.right);
            lemma_node_map(t);
            lemma_node_map_parts(n.size, n.blocks@, n.left, n.right);
        },
    }
}

/// The map of a node with the given fields.
spec fn node_map(size: usize, blocks: Seq<usize>, l: Option<Box<Node>>, r: Option<Box<Node>>) -> Map<usize, Seq<usize>> {
    tmap(l).union_prefer_right(tmap(r)).insert(size, blocks)
}

/// Every size in `t` is at least one.
spec fn keys_pos(t: Option<Box<Node>>) -> bool {
    all_above(t, 0)
}

/// The children of a node, ordered around its size, make a well-formed node.
spec fn node_parts_ok(size: usize, l: Option<Box<Node>>, r: Option<Box<Node>>) -> bool {
    &&& twf(l)
    &&& twf(r)
    &&& all_below(l, size as int)
    &&& all_above(r, size as int)
    &&& keys_pos(l)
    &&& size >= 1
}

proof fn lemma_node_map(t: Option<Box<Node>>)
    requires
        t is Some,
    ensures
        tmap(t) == node_map(t->0.size, t->0.blocks@, t->0.left, t->0.right),
        twf(t) == (twf(t->0.left) && twf(t->0.right) && all_below(t->0.left, t->0.size as int)
            && all_above(t->0.right, t->0.size as int) && t->0.height == 1 + max_nat(
            ht(t->0.left),
            ht(t->0.right),
        ) && t->0.blocks@.len() > 0),
        keys_pos(t) ==> keys_pos(t->0.left) && keys_pos(t->0.right) && t->0.size >= 1,
        balanced(t) == (balanced(t->0.left) && balanced(t->0.right) && ht(t->0.left) <= ht(t->0.right) + 1
            && ht(t->0.right) <= ht(t->0.left) + 1),
        ht(t) == t->0.height,
{
    let n = t->0;
    if keys_pos(t) {
        assert(tmap(t).contains_key(n.size));
        assert forall|j: usize| #[trigger] tmap(n.left).contains_key(j) implies j > 0 by {
            assert(tmap(t).contains_key(j));
        }
        assert forall|j: usize| #[trigger] tmap(n.right).contains_key(j) implies j > 0 by {
            assert(tmap(t).contains_key(j));
        }
    }
}

/// A map built from ordered parts.
proof fn lemma_node_map_parts(size: usize, blocks: Seq<usize>, l: Option<Box<Node>>, r: Option<Box<Node>>)
    requires
        all_below(l, size as int),
        all_above(r, size as int),
    ensures
        forall|j: usize| #[trigger] node_map(size, blocks, l, r).contains_key(j) <==> j == size || tmap(l).contains_key(j) || tmap(r).contains_key(j),
        forall|j: usize| #[trigger] tmap(l).contains_key(j) ==> node_map(size, blocks, l, r).contains_key(j),
        forall|j: usize| #[trigger] tmap(r).contains_key(j) ==> node_map(size, blocks, l, r).contains_key(j),
        forall|j: usize| #[trigger] tmap(l).contains_key(j) ==> node_map(size, blocks, l, r)[j] == tmap(l)[j],
        forall|j: usize| #[trigger] tmap(r).contains_key(j) ==> node_map(size, blocks, l, r)[j] == tmap(r)[j],
        node_map(size, blocks, l, r)[size] == blocks,
{
    assert forall|j: usize| #[trigger] tmap(l).contains_key(j) implies node_map(size, blocks, l, r)[j] == tmap(l)[j] by {
        assert(!tmap(r).contains_key(j));
    }
}

/// Recomputes the height of the node from its subtrees.
fn update_height(n: &mut Box<Node>)
    requires
        node_parts_ok(old(n).size, old(n).left, old(n).right),
    ensures
        final(n).size == old(n).size,
        final(n).blocks == old(n).blocks,
        final(n).left == old(n).left,
        final(n).right == old(n).right,
        final(n).height == 1 + max_nat(ht(old(n).left), ht(old(n).right)),
        twf(Some(*final(n))) <== final(n).blocks@.len() > 0,
{
    proof {
        assert forall|j: usize| #[trigger] tmap(n.left).contains_key(j) implies 1 <= j <= n.size - 1 by {}
        lemma_height_bound(n.left, 1, n.size - 1);
        lemma_height_bound(n.right, n.size + 1, usize::MAX as int);
    }
    let l = height(&n.left);
    let r = height(&n.right);
    n.height = 1 + if l >= r { l } else { r };
}

/// The difference of the heights of the subtrees of `n`.
fn balance_factor(n: &Box<Node>) -> (r: i128)
    ensures
        r == ht(n.left) - ht(n.right),
{
    height(&n.left) as i128 - height(&n.right) as i128
}


/// The tree map after adding block `b` of size `size`: behind the head of the list of that size,
/// or as the only block of a new size.
pub open spec fn list_insert(v: Map<usize, Seq<usize>>, size: usize, b: usize) -> Map<usize, Seq<usize>> {
    if v.contains_key(size) {
        v.insert(size, v[size].insert(1, b))
    } else {
        v.insert(size, seq![b])
    }
}

/// Turns the left child of `y` into the root of the subtree.
fn rotate_right(y: Box<Node>) -> (r: Box<Node>)
    requires
        node_parts_ok(y.size, y.left, y.right),
        y.left is Some,
        y.blocks@.len() > 0,
    ensures
        twf(Some(r)),
        tmap(Some(r)) == node_map(y.size, y.blocks@, y.left, y.right),
        keys_pos(Some(r)),
        r.left == y.left->0.left,
        r.right is Some,
        r.right->0.left == y.left->0.right,
        r.right->0.right == y.right,
{
    let Node { size: ys, blocks: yb, height: yh, left: yl, right: c } = *y;
    let x = yl.unwrap();
    proof {
        lemma_node_map(Some(x));
        lemma_node_map_parts(x.size, x.blocks@, x.left, x.right);
        lemma_node_map_parts(ys, yb@, Some(x), c);
    }
    let Node { size: xs, blocks: xb, height: xh, left: a, right: b } = *x;
    let mut ny = Box::new(Node { size: ys, blocks: yb, height: yh, left: b, right: c });
    update_height(&mut ny);
    proof {
        lemma_node_map(Some(ny));
        lemma_node_map_parts(ys, yb@, b, c);
        assert(tmap(Some(x)).contains_key(xs));
        assert forall|j: usize| #[trigger] tmap(Some(ny)).contains_key(j) implies j > xs by {
            if tmap(b).contains_key(j) {
            } else if tmap(c).contains_key(j) {
            }
        }
        assert(twf(Some(ny)));
    }
    let mut nx = Box::new(Node { size: xs, blocks: xb, height: xh, left: a, right: Some(ny) });
    update_height(&mut nx);
    proof {
        lemma_node_map(Some(nx));
        lemma_node_map_parts(xs, xb@, a, Some(ny));
        assert(tmap(Some(nx)) =~= node_map(ys, yb@, Some(x), c));
    }
    nx
}

/// Turns the right child of `x` into the root of the subtree.
fn rotate_left(x: Box<Node>) -> (r: Box<Node>)
    requires
        node_parts_ok(x.size, x.left, x.right),
        x.right is Some,
        x.blocks@.len() > 0,
    ensures
        twf(Some(r)),
        tmap(Some(r)) == node_map(x.size, x.blocks@, x.left, x.right),
        keys_pos(Some(r)),
        r.right == x.right->0.right,
        r.left is Some,
        r.left->0.right == x.right->0.left,
        r.left->0.left == x.left,
{
    let Node { size: xs, blocks: xb, height: xh, left: a, right: xr } = *x;
    let y = xr.unwrap();
    proof {
        lemma_node_map(Some(y));
        lemma_node_map_parts(y.size, y.blocks@, y.left, y.right);
        lemma_node_map_parts(xs, xb@, a, Some(y));
    }
    let Node { size: ys, blocks: yb, height: yh, left: b, right: c } = *y;
    let mut nx = Box::new(Node { size: xs, blocks: xb, height: xh, left: a, right: b });
    update_height(&mut nx);
    proof {
        lemma_node_map(Some(nx));
        lemma_node_map_parts(xs, xb@, a, b);
        assert(tmap(Some(y)).contains_key(ys));
        assert forall|j: usize| #[trigger] tmap(Some(nx)).contains_key(j) implies j < ys by {
            if tmap(a).contains_key(j) {
            } else if tmap(b).contains_key(j) {
            }
        }
        assert forall|j: usize| #[trigger] tmap(Some(nx)).contains_key(j) implies j > 0 by {
            if tmap(a).contains_key(j) {
            } else if tmap(b).contains_key(j) {
                assert(tmap(Some(y)).contains_key(j));
            }
        }
        assert(twf(Some(nx)));
    }
    let mut ny = Box::new(Node { size: ys, blocks: yb, height: yh, left: Some(nx), right: c });
    update_height(&mut ny);
    proof {
        lemma_node_map(Some(ny));
        lemma_node_map_parts(ys, yb@, Some(nx), c);
        assert(tmap(Some(ny)) =~= node_map(xs, xb@, a, Some(y)));
    }
    ny
}

/// Two subtrees that are balanced and whose heights differ by at most two: what an insertion or a
/// removal in one of the subtrees of a balanced node leaves.
spec fn near_balanced(l: Option<Box<Node>>, r: Option<Box<Node>>) -> bool {
    &&& balanced(l)
    &&& balanced(r)
    &&& ht(l) <= ht(r) + 2
    &&& ht(r) <= ht(l) + 2
}

/// Restores the height of `n` and, when one subtree is two levels higher than the other,
/// rotates it back into balance.
fn rebalance_node(n: Box<Node>) -> (r: Box<Node>)
    requires
        node_parts_ok(n.size, n.left, n.right),
        n.blocks@.len() > 0,
    ensures
        twf(Some(r)),
        tmap(Some(r)) == node_map(n.size, n.blocks@, n.left, n.right),
        keys_pos(Some(r)),
        near_balanced(n.left, n.right) ==> balanced(Some(r)),
        near_balanced(n.left, n.right) ==> max_nat(ht(n.left), ht(n.right)) <= ht(Some(r)) <= max_nat(
            ht(n.left),
            ht(n.right),
        ) + 1,
        ht(n.left) <= ht(n.right) + 1 && ht(n.right) <= ht(n.left) + 1 ==> ht(Some(r)) == 1 + max_nat(
            ht(n.left),
            ht(n.right),
        ),
        ht(n.left) <= ht(n.right) + 1 && ht(n.right) <= ht(n.left) + 1 ==> r.size == n.size && r.blocks
            == n.blocks && r.left == n.left && r.right == n.right,
{
    let ghost g = *n;
    let mut n = n;
    update_height(&mut n);
    proof {
        lemma_node_map(Some(n));
    }
    let bf = balance_factor(&n);
    if bf > 1 {
        let Node { size, blocks, height, left, right } = *n;
        let l = left.unwrap();
        let ghost gl = l;
        proof {
            lemma_node_map(Some(l));
            lemma_node_map_parts(size, blocks@, Some(l), right);
        }
        let lbf = balance_factor(&l);
        let l2 = if lbf < 0 {
            rotate_left(l)
        } else {
            l
        };
        proof {
            lemma_node_map(Some(l2));
            lemma_node_map_parts(size, blocks@, Some(l2), right);
            assert(node_map(size, blocks@, Some(l2), right) =~= node_map(size, blocks@, Some(gl), right));
        }
        let r = rotate_right(Box::new(Node { size, blocks, height, left: Some(l2), right }));
        proof {
            lemma_node_map(Some(r));
            lemma_node_map(r.right);
            if near_balanced(g.left, g.right) {
                if lbf < 0 {
                    lemma_node_map(gl.right);
                    lemma_node_map(r.left);
                }
            }
        }
        r
    } else if bf < -1 {
        let Node { size, blocks, height, left, right } = *n;
        let r = right.unwrap();
        let ghost gr = r;
        proof {
            lemma_node_map(Some(r));
            lemma_node_map_parts(size, blocks@, left, Some(r));
        }
        let rbf = balance_factor(&r);
        let r2 = if rbf > 0 {
            rotate_right(r)
        } else {
            r
        };
        proof {
            lemma_node_map(Some(r2));
            lemma_node_map_parts(size, blocks@, left, Some(r2));
            assert(node_map(size, blocks@, left, Some(r2)) =~= node_map(size, blocks@, left, Some(gr)));
        }
        let res = rotate_left(Box::new(Node { size, blocks, height, left, right: Some(r2) }));
        proof {
            lemma_node_map(Some(res));
            lemma_node_map(res.left);
            if near_balanced(g.left, g.right) {
                if rbf > 0 {
                    lemma_node_map(gr.left);
                    lemma_node_map(res.right);
                }
            }
        }
        res
    } else {
        n
    }
}

/// Adds block `b` of size `size` to the tree `t`.
fn insert_node(t: Option<Box<Node>>, b: usize, size: usize) -> (r: Box<Node>)
    requires
        twf(t),
        keys_pos(t),
        size >= 1,
    ensures
        twf(Some(r)),
        keys_pos(Some(r)),
        tmap(Some(r)) == list_insert(tmap(t), size, b),
        balanced(t) ==> balanced(Some(r)) && ht(t) <= ht(Some(r)) <= ht(t) + 1,
        balanced(t) && tmap(t).contains_key(size) ==> tshape(Some(r)) == tshape(t),
    decreases t,
{
    match t {
        None => {
            let r = Box::new(Node { size, blocks: vec![b], height: 1, left: None, right: None });
            proof {
                lemma_node_map(Some(r));
                assert(r.blocks@ =~= seq![b]);
                assert(tmap(t) =~= Map::<usize, Seq<usize>>::empty());
                assert(tmap(None) =~= Map::<usize, Seq<usize>>::empty());
                assert(tmap(Some(r)) =~= list_insert(tmap(t), size, b));
            }
            r
        },
        Some(n) => {
            proof {
                lemma_node_map(Some(n));
                lemma_node_map_parts(n.size, n.blocks@, n.left, n.right);
            }
            let Node { size: ns, blocks: nb, height: nh, left, right } = *n;
            if size > ns {
                let nr = insert_node(right, b, size);
                proof {
                    lemma_node_map_parts(ns, nb@, left, Some(nr));
                    assert(node_map(ns, nb@, left, Some(nr)) =~= list_insert(tmap(t), size, b));
                }
                rebalance_node(Box::new(Node { size: ns, blocks: nb, height: nh, left, right: Some(nr) }))
            } else if size < ns {
                let nl = insert_node(left, b, size);
                proof {
                    lemma_node_map_parts(ns, nb@, Some(nl), right);
                    assert(node_map(ns, nb@, Some(nl), right) =~= list_insert(tmap(t), size, b));
                }
                rebalance_node(Box::new(Node { size: ns, blocks: nb, height: nh, left: Some(nl), right }))
            } else {
                let mut nb = nb;
                nb.insert(1, b);
                let r = Box::new(Node { size: ns, blocks: nb, height: nh, left, right });
                proof {
                    lemma_node_map(Some(r));
                    assert(tmap(Some(r)) =~= list_insert(tmap(t), size, b));
                }
                r
            }
        },
    }
}


/// The tree map after taking block `b` of size `size` out of its list; a size whose list
/// empties leaves the tree.
pub open spec fn list_remove(v: Map<usize, Seq<usize>>, size: usize, b: usize) -> Map<usize, Seq<usize>> {
    if v.contains_key(size) && v[size].contains(b) {
        let l = v[size].remove(v[size].index_of(b));
        if l.len() == 0 {
            v.remove(size)
        } else {
            v.insert(size, l)
        }
    } else {
        v
    }
}

/// Adding a block that the map does not hold and then taking it out gives the map back.
pub proof fn lemma_insert_then_remove(v: Map<usize, Seq<usize>>, size: usize, b: usize)
    requires
        v.contains_key(size) ==> v[size].len() > 0 && !v[size].contains(b),
    ensures
        list_remove(list_insert(v, size, b), size, b) == v,
{
    let w = list_insert(v, size, b);
    if v.contains_key(size) {
        let l = v[size];
        let m = l.insert(1, b);
        assert(m[1] == b);
        assert(m.contains(b));
        let k = m.index_of(b);
        if k != 1 {
            let ok = if k < 1 { k } else { k - 1 };
            assert(m[k] == l[ok]);
            assert(l.contains(b));
        }
        assert(m.remove(1) =~= l);
        assert(w.insert(size, m.remove(1)) =~= v);
    } else {
        assert(w[size] =~= seq![b]);
        assert(seq![b].contains(b)) by {
            assert(seq![b][0] == b);
        }
        assert(seq![b].remove(seq![b].index_of(b)).len() == 0);
        assert(w.remove(size) =~= v);
    }
}

/// Every list of `t` holds each block once.
spec fn lists_nodup(t: Option<Box<Node>>) -> bool {
    forall|k: usize| #[trigger] tmap(t).contains_key(k) ==> tmap(t)[k].no_duplicates()
}

/// Position of `b` in `blocks`.
fn find_index(blocks: &Vec<usize>, b: usize) -> (r: Option<usize>)
    requires
        blocks@.no_duplicates(),
    ensures
        r matches Some(i) ==> i < blocks@.len() && blocks@[i as int] == b && i == blocks@.index_of(b),
        r is None ==> !blocks@.contains(b),
{
    let mut i: usize = 0;
    while i < blocks.len()
        invariant
            i <= blocks@.len(),
            blocks@.no_duplicates(),
            forall|j: int| 0 <= j < i ==> blocks@[j] != b,
        decreases blocks@.len() - i,
    {
        if blocks[i] == b {
            proof {
                assert(blocks@[i as int] == b);
                assert(blocks@.contains(b));
                let k = blocks@.index_of(b);
                assert(0 <= k < blocks@.len());
                assert(blocks@[k] == b);
                if k != i as int {
                    assert(blocks@[k] != blocks@[i as int]);
                }
            }
            return Some(i);
        }
        i = i + 1;
    }
    None
}

/// Takes the node of the smallest size out of the tree `n`: gives its size, its list and the
/// rest of the tree.
fn remove_min(n: Box<Node>) -> (r: (usize, Vec<usize>, Option<Box<Node>>))
    requires
        twf(Some(n)),
        keys_pos(Some(n)),
    ensures
        twf(r.2),
        keys_pos(r.2),
        balanced(Some(n)) ==> balanced(r.2) && ht(Some(n)) <= ht(r.2) + 1 && ht(r.2) <= ht(Some(n)),
        tmap(Some(n)) == tmap(r.2).insert(r.0, r.1@),
        !tmap(r.2).contains_key(r.0),
        all_above(r.2, r.0 as int),
        r.1@.len() > 0,
        r.0 >= 1,
        tmap(Some(n)).contains_key(r.0),
    decreases n,
{
    proof {
        lemma_node_map(Some(n));
        lemma_node_map_parts(n.size, n.blocks@, n.left, n.right);
    }
    let Node { size, blocks, height, left, right } = *n;
    match left {
        None => {
            proof {
                assert(tmap(None) =~= Map::<usize, Seq<usize>>::empty());
                assert(tmap(Some(n)) =~= tmap(right).insert(size, blocks@));
            }
            (size, blocks, right)
        },
        Some(l) => {
            let ghost lt = Some(l);
            proof {
                lemma_node_map(Some(l));
            }
            let (k, bl, nl) = remove_min(l);
            proof {
                assert forall|j: usize| #[trigger] tmap(nl).contains_key(j) implies j < size by {
                    assert(tmap(lt).contains_key(j));
                }
            }
            let r = rebalance_node(Box::new(Node { size, blocks, height, left: nl, right }));
            proof {
                lemma_node_map_parts(size, blocks@, nl, right);
                assert(k < size);
                assert(tmap(Some(n)) =~= tmap(Some(r)).insert(k, bl@));
                assert forall|j: usize| #[trigger] tmap(Some(r)).contains_key(j) implies j > k by {
                    if tmap(nl).contains_key(j) {
                    } else if tmap(right).contains_key(j) {
                    }
                }
            }
            (k, bl, Some(r))
        },
    }
}

/// Takes the node of `size`, whose list `blocks` has emptied, out of the tree.
fn delete_node(size: usize, blocks: Ghost<Seq<usize>>, height: usize, left: Option<Box<Node>>, right: Option<Box<Node>>) -> (r: Option<Box<Node>>)
    requires
        node_parts_ok(size, left, right),
        keys_pos(right),
    ensures
        twf(r),
        keys_pos(r),
        tmap(r) == node_map(size, blocks@, left, right).remove(size),
        balanced(left) && balanced(right) && ht(left) <= ht(right) + 1 && ht(right) <= ht(left) + 1
            ==> balanced(r) && max_nat(ht(left), ht(right)) <= ht(r) <= 1 + max_nat(ht(left), ht(right)),
{
    proof {
        lemma_node_map_parts(size, blocks@, left, right);
    }
    match left {
        None => {
            proof {
                assert(tmap(None) =~= Map::<usize, Seq<usize>>::empty());
                assert(tmap(right) =~= node_map(size, blocks@, left, right).remove(size));
            }
            right
        },
        Some(l) => {
            match right {
                None => {
                    proof {
                        assert(tmap(None) =~= Map::<usize, Seq<usize>>::empty());
                        assert(tmap(Some(l)) =~= node_map(size, blocks@, Some(l), None).remove(size));
                    }
                    Some(l)
                },
                Some(rt) => {
                    let ghost rr = Some(rt);
                    proof {
                        lemma_node_map(Some(rt));
                    }
                    let (k, bl, nr) = remove_min(rt);
                    proof {
                        assert forall|j: usize| #[trigger] tmap(Some(l)).contains_key(j) implies j < k by {
                            assert(tmap(rr).contains_key(k));
                        }
                    }
                    let r = rebalance_node(Box::new(Node { size: k, blocks: bl, height, left: Some(l), right: nr }));
                    proof {
                        lemma_node_map_parts(k, bl@, Some(l), nr);
                        assert(tmap(Some(r)) =~= node_map(size, blocks@, Some(l), rr).remove(size));
                    }
                    Some(r)
                },
            }
        },
    }
}

/// Takes block `b` of size `size` out of the tree `t`.
fn remove_node(t: Option<Box<Node>>, b: usize, size: usize) -> (r: Option<Box<Node>>)
    requires
        twf(t),
        keys_pos(t),
        lists_nodup(t),
    ensures
        twf(r),
        keys_pos(r),
        tmap(r) == list_remove(tmap(t), size, b),
        balanced(t) ==> balanced(r) && ht(t) <= ht(r) + 1 && ht(r) <= ht(t),
        balanced(t) && !(tmap(t).contains_key(size) && tmap(t)[size].contains(b) && tmap(t)[size].len()
            == 1) ==> tshape(r) == tshape(t),
    decreases t,
{
    match t {
        None => None,
        Some(n) => {
            proof {
                lemma_node_map(Some(n));
                lemma_node_map_parts(n.size, n.blocks@, n.left, n.right);
            }
            let Node { size: ns, blocks: nb, height, left, right } = *n;
            if size < ns {
                proof {
                    assert forall|k: usize| #[trigger] tmap(left).contains_key(k) implies tmap(left)[k].no_duplicates() by {
                        assert(tmap(t).contains_key(k));
                    }
                }
                let nl = remove_node(left, b, size);
                proof {
                    assert forall|j: usize| #[trigger] tmap(nl).contains_key(j) implies j < ns by {
                        assert(tmap(left).contains_key(j));
                    }
                }
                let r = rebalance_node(Box::new(Node { size: ns, blocks: nb, height, left: nl, right }));
                proof {
                    lemma_node_map_parts(ns, nb@, nl, right);
                    assert(tmap(Some(r)) =~= list_remove(tmap(t), size, b));
                }
                Some(r)
            } else if size > ns {
                proof {
                    assert forall|k: usize| #[trigger] tmap(right).contains_key(k) implies tmap(right)[k].no_duplicates() by {
                        assert(tmap(t).contains_key(k));
                    }
                }
                let nr = remove_node(right, b, size);
                proof {
                    assert forall|j: usize| #[trigger] tmap(nr).contains_key(j) implies j > ns by {
                        assert(tmap(right).contains_key(j));
                    }
                }
                let r = rebalance_node(Box::new(Node { size: ns, blocks: nb, height, left, right: nr }));
                proof {
                    lemma_node_map_parts(ns, nb@, left, nr);
                    assert(tmap(Some(r)) =~= list_remove(tmap(t), size, b));
                }
                Some(r)
            } else {
                proof {
                    assert(tmap(t)[size] == nb@);
                    assert(tmap(t).contains_key(size));
                }
                match find_index(&nb, b) {
                    None => {
                        let r = Box::new(Node { size: ns, blocks: nb, height, left, right });
                        proof {
                            lemma_node_map(Some(r));
                        }
                        Some(r)
                    },
                    Some(i) => {
                        if nb.len() > 1 {
                            let mut nb = nb;
                            nb.remove(i);
                            let r = Box::new(Node { size: ns, blocks: nb, height, left, right });
                            proof {
                                lemma_node_map(Some(r));
                                assert(tmap(Some(r)) =~= list_remove(tmap(t), size, b));
                            }
                            Some(r)
                        } else {
                            let r = delete_node(ns, Ghost(nb@), height, left, right);
                            proof {
                                assert(nb@.remove(i as int).len() == 0);
                                assert(tmap(r) =~= list_remove(tmap(t), size, b));
                            }
                            r
                        }
                    },
                }
            }
        },
    }
}


impl View for FreeTree {
    type V = Map<usize, Seq<usize>>;

    /// The blocks of each size, head first.
    closed spec fn view(&self) -> Map<usize, Seq<usize>> {
        tmap(self.root)
    }
}

impl FreeTree {
    /// The tree is a height-balanced search tree by size with exact heights, sizes of at least
    /// one byte, and lists that hold each block once.
    pub closed spec fn inv(&self) -> bool {
        &&& twf(self.root)
        &&& balanced(self.root)
        &&& keys_pos(self.root)
        &&& lists_nodup(self.root)
    }

    /// The tree is height-balanced.
    pub closed spec fn is_balanced(&self) -> bool {
        balanced(self.root)
    }

    /// The shape of the tree: sizes, heights and subtrees of its nodes.
    pub closed spec fn shape(&self) -> TreeShape {
        tshape(self.root)
    }

    /// The size whose head `find_best_fit` gives for `needed`.
    pub closed spec fn best_size(&self, needed: usize) -> Option<usize> {
        best_key(self.root, needed)
    }

    /// Every list of a sound tree is nonempty and holds each block once.
    pub proof fn lemma_lists_distinct(&self)
        requires
            self.inv(),
        ensures
            forall|k: usize| #[trigger] self@.contains_key(k) ==> self@[k].len() > 0 && self@[k].no_duplicates(),
    {
        lemma_lists_nonempty(self.root);
    }

    /// An empty tree.
    pub fn new() -> (r: Self)
        ensures
            r.inv(),
            r.is_balanced(),
            r@ == Map::<usize, Seq<usize>>::empty(),
    {
        let r = FreeTree { root: None };
        proof {
            assert(tmap(r.root) =~= Map::<usize, Seq<usize>>::empty());
        }
        r
    }

    /// Whether the tree holds no block.
    pub fn is_empty(&self) -> (r: bool)
        requires
            self.inv(),
        ensures
            r == (self@.dom() =~= Set::<usize>::empty()),
    {
        proof {
            if self.root is Some {
                lemma_node_map(self.root);
                assert(self@.dom().contains(self.root->0.size));
            } else {
                assert(self@ =~= Map::<usize, Seq<usize>>::empty());
            }
        }
        self.root.is_none()
    }

    /// The head of the list of the smallest size that is at least `needed`, `0` when no size is
    /// large enough.
    pub fn find_best_fit(&self, needed: usize) -> (r: usize)
        requires
            self.inv(),
        ensures
            self.best_size(needed) matches Some(k) ==> self@.contains_key(k) && r == self@[k][0],
            self.best_size(needed) is None ==> r == 0,
            self.best_size(needed) matches Some(k) ==> k >= needed && forall|j: usize|
                #[trigger] self@.contains_key(j) && j >= needed ==> k <= j,
            self.best_size(needed) is None ==> forall|j: usize| #[trigger] self@.contains_key(j) ==> j < needed,
    {
        proof {
            lemma_best_key(self.root, needed);
        }
        match best_node(&self.root, needed) {
            Some((_, h)) => h,
            None => 0,
        }
    }

    /// Adds the free block `b` of `size` bytes: behind the head of the list of that size, or as
    /// a new size.
    pub fn insert(&mut self, b: usize, size: usize)
        requires
            old(self).inv(),
            size >= 1,
            !(old(self)@.contains_key(size) && old(self)@[size].contains(b)),
        ensures
            final(self).inv(),
            final(self).is_balanced(),
            final(self)@ == list_insert(old(self)@, size, b),
            old(self)@.contains_key(size) ==> final(self).shape() == old(self).shape(),
    {
        proof {
            lemma_lists_nonempty(self.root);
        }
        let root = self.root.take();
        let r = insert_node(root, b, size);
        self.root = Some(r);
        proof {
            let v = old(self)@;
            let w = self@;
            assert forall|k: usize| #[trigger] w.contains_key(k) implies w[k].no_duplicates() by {
                if k == size && v.contains_key(size) {
                    let l = v[size];
                    assert(l.no_duplicates());
                    assert(l.len() > 0);
                    let m = l.insert(1, b);
                    assert forall|i: int, j: int| 0 <= i < m.len() && 0 <= j < m.len() && i != j implies m[i] != m[j] by {
                        if i != 1 && j != 1 {
                            let oi = if i < 1 { i } else { i - 1 };
                            let oj = if j < 1 { j } else { j - 1 };
                            assert(m[i] == l[oi] && m[j] == l[oj]);
                        } else if i == 1 {
                            let oj = if j < 1 { j } else { j - 1 };
                            assert(m[j] == l[oj]);
                            assert(l.contains(l[oj]));
                        } else {
                            let oi = if i < 1 { i } else { i - 1 };
                            assert(m[i] == l[oi]);
                            assert(l.contains(l[oi]));
                        }
                    }
                } else if k == size {
                    assert(w[k] =~= seq![b]);
                } else {
                    assert(v.contains_key(k));
                }
            }
        }
    }

    /// Takes block `b` of `size` bytes out of its list; the size leaves the tree with its last
    /// block. Nothing changes when the list of that size does not hold `b`.
    pub fn remove(&mut self, b: usize, size: usize)
        requires
            old(self).inv(),
        ensures
            final(self).inv(),
            final(self).is_balanced(),
            final(self)@ == list_remove(old(self)@, size, b),
            !(final(self)@.contains_key(size) && final(self)@[size].contains(b)),
            !(old(self)@.contains_key(size) && old(self)@[size].contains(b) && old(self)@[size].len() == 1)
                ==> final(self).shape() == old(self).shape(),
    {
        let root = self.root.take();
        let r = remove_node(root, b, size);
        self.root = r;
        proof {
            let v = old(self)@;
            let w = self@;
            assert forall|k: usize| #[trigger] w.contains_key(k) implies w[k].no_duplicates() by {
                assert(v.contains_key(k));
                if k == size && v[size].contains(b) {
                    let l = v[size];
                    let i = l.index_of(b);
                    let m = l.remove(i);
                    assert forall|x: int, y: int| 0 <= x < m.len() && 0 <= y < m.len() && x != y implies m[x] != m[y] by {
                        let ox = if x < i { x } else { x + 1 };
                        let oy = if y < i { y } else { y + 1 };
                        assert(m[x] == l[ox] && m[y] == l[oy]);
                    }
                }
            }
            if w.contains_key(size) && v[size].contains(b) {
                let l = v[size];
                let i = l.index_of(b);
                let m = l.remove(i);
                assert(l[i] == b);
                if m.contains(b) {
                    let j = choose|j: int| 0 <= j < m.len() && m[j] == b;
                    let oj = if j < i { j } else { j + 1 };
                    assert(m[j] == l[oj]);
                }
            }
        }
    }
}


/// Every block of the lists of `v` is nonzero, each list is nonempty, and `sizes` gives each
/// block the size of its list.
pub open spec fn tree_holds(v: Map<usize, Seq<usize>>, sizes: Map<usize, usize>) -> bool {
    &&& forall|k: usize| #[trigger] v.contains_key(k) ==> v[k].len() > 0
    &&& forall|k: usize, i: int| v.contains_key(k) && 0 <= i < v[k].len() ==> #[trigger] v[k][i] != 0
    &&& forall|b: usize| #[trigger] sizes.contains_key(b) ==> v.contains_key(sizes[b]) && v[sizes[b]].contains(b)
    &&& forall|k: usize, b: usize| #[trigger] v.contains_key(k) && #[trigger] v[k].contains(b) ==> sizes.contains_key(b) && sizes[b] == k
    &&& forall|b: usize| #[trigger] sizes.contains_key(b) ==> 0 < sizes[b] < usize::MAX
}

impl FreeIndex for FreeTree {
    open spec fn holds(&self, sizes: Map<usize, usize>) -> bool {
        &&& self.inv()
        &&& tree_holds(self@, sizes)
    }

    open spec fn pick(&self, sizes: Map<usize, usize>, needed: usize) -> usize {
        match self.best_size(needed) {
            Some(k) => self@[k][0],
            None => 0,
        }
    }

    open spec fn added(&self, post: &Self, b: usize, size: usize) -> bool {
        post@ == list_insert(self@, size, b)
    }

    open spec fn taken(&self, post: &Self, b: usize, size: usize) -> bool {
        post@ == list_remove(self@, size, b)
    }

    proof fn lemma_pick(&self, sizes: Map<usize, usize>, needed: usize) {
        lemma_best_key(self.root, needed);
        let v = self@;
        match self.best_size(needed) {
            Some(k) => {
                let r = v[k][0];
                assert(v[k].len() > 0);
                assert(v[k].contains(r));
                assert(sizes.contains_key(r) && sizes[r] == k);
                assert forall|a: usize| #[trigger] sizes.contains_key(a) && sizes[a] >= needed implies sizes[r] <= sizes[a] by {
                    assert(v.contains_key(sizes[a]));
                }
            },
            None => {
                assert forall|a: usize| #[trigger] sizes.contains_key(a) implies sizes[a] < needed by {
                    assert(v.contains_key(sizes[a]));
                }
            },
        }
    }

    fn empty_index() -> (r: Self) {
        let r = FreeTree::new();
        proof {
            assert(tree_holds(r@, Map::empty()));
        }
        r
    }

    fn index_is_empty(&self, Ghost(sizes): Ghost<Map<usize, usize>>) -> (r: bool) {
        let r = self.is_empty();
        proof {
            if r {
                assert forall|b: usize| !sizes.dom().contains(b) by {
                    if sizes.contains_key(b) {
                        assert(self@.contains_key(sizes[b]));
                    }
                }
                assert(sizes.dom() =~= Set::<usize>::empty());
            } else {
                let k = choose|k: usize| self@.dom().contains(k);
                assert(self@.dom().contains(k));
                assert(self@[k].len() > 0);
                assert(self@[k].contains(self@[k][0]));
                assert(sizes.dom().contains(self@[k][0]));
            }
        }
        r
    }

    fn add_block(&mut self, Ghost(sizes): Ghost<Map<usize, usize>>, b: usize, size: usize) {
        proof {
            if self@.contains_key(size) && self@[size].contains(b) {
                assert(sizes.contains_key(b));
            }
        }
        self.insert(b, size);
        proof {
            let v = old(self)@;
            let w = self@;
            let s2 = sizes.insert(b, size);
            assert forall|k: usize, i: int| w.contains_key(k) && 0 <= i < w[k].len() implies #[trigger] w[k][i] != 0 by {
                if k == size && v.contains_key(size) {
                    if i > 1 {
                        assert(w[k][i] == v[k][i - 1]);
                    } else if i == 0 {
                        assert(w[k][i] == v[k][0]);
                    }
                } else if k != size {
                    assert(v.contains_key(k));
                }
            }
            assert forall|c: usize| #[trigger] s2.contains_key(c) implies w.contains_key(s2[c]) && w[s2[c]].contains(c) by {
                if c == b {
                    if v.contains_key(size) {
                        assert(w[size][1] == b);
                    } else {
                        assert(w[size][0] == b);
                    }
                } else {
                    let k = sizes[c];
                    assert(v.contains_key(k) && v[k].contains(c));
                    let j = choose|j: int| 0 <= j < v[k].len() && v[k][j] == c;
                    if k == size {
                        if j == 0 {
                            assert(w[k][0] == c);
                        } else {
                            assert(w[k][j + 1] == c);
                        }
                    }
                }
            }
            assert forall|k: usize, c: usize| #[trigger] w.contains_key(k) && #[trigger] w[k].contains(c) implies s2.contains_key(c) && s2[c] == k by {
                let j = choose|j: int| 0 <= j < w[k].len() && w[k][j] == c;
                if k == size && v.contains_key(size) {
                    if j == 0 {
                        assert(v[k].contains(v[k][0]));
                    } else if j > 1 {
                        assert(w[k][j] == v[k][j - 1]);
                        assert(v[k].contains(v[k][j - 1]));
                    }
                } else if k == size {
                    assert(w[k] == seq![b]);
                } else {
                    assert(v.contains_key(k));
                    assert(v[k].contains(c));
                }
            }
            assert forall|k: usize| #[trigger] w.contains_key(k) implies w[k].len() > 0 by {
                if k != size {
                    assert(v.contains_key(k));
                }
            }
        }
    }

    fn take_block(&mut self, Ghost(sizes): Ghost<Map<usize, usize>>, b: usize, size: usize) {
        self.remove(b, size);
        proof {
            let v = old(self)@;
            let w = self@;
            let s2 = sizes.remove(b);
            assert(v.contains_key(size) && v[size].contains(b));
            let l = v[size];
            let i = l.index_of(b);
            assert(0 <= i < l.len() && l[i] == b);
            let m = l.remove(i);
            assert forall|k: usize| #[trigger] w.contains_key(k) implies w[k].len() > 0 && v.contains_key(k) by {}
            assert forall|k: usize, x: int| w.contains_key(k) && 0 <= x < w[k].len() implies #[trigger] w[k][x] != 0 by {
                if k == size {
                    if x < i {
                        assert(w[k][x] == l[x]);
                    } else {
                        assert(w[k][x] == l[x + 1]);
                    }
                }
            }
            assert forall|c: usize| #[trigger] s2.contains_key(c) implies w.contains_key(s2[c]) && w[s2[c]].contains(c) by {
                let k = sizes[c];
                assert(v.contains_key(k) && v[k].contains(c));
                let j = choose|j: int| 0 <= j < v[k].len() && v[k][j] == c;
                if k == size {
                    assert(j != i);
                    assert(m.len() > 0);
                    if j < i {
                        assert(m[j] == c);
                    } else {
                        assert(m[j - 1] == c);
                    }
                }
            }
            assert forall|k: usize, c: usize| #[trigger] w.contains_key(k) && #[trigger] w[k].contains(c) implies s2.contains_key(c) && s2[c] == k by {
                let j = choose|j: int| 0 <= j < w[k].len() && w[k][j] == c;
                if k == size {
                    let oj = if j < i { j } else { j + 1 };
                    assert(m[j] == l[oj]);
                    assert(l.contains(c));
                    assert(l.no_duplicates());
                    assert(oj != i);
                } else {
                    assert(v[k].contains(c));
                }
            }
        }
    }

    fn best_fit(&self, Ghost(sizes): Ghost<Map<usize, usize>>, mem: &Memory, needed: usize) -> (r: usize) {
        self.find_best_fit(needed)
    }
}

} // verus!