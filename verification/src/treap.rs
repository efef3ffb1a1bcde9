//! A treap without keys: a binary tree in an arena, ordered by position, in which
//! every node has a random priority that is not above those of its descendants, and
//! a mark that says that its subtree is to be read backwards.
use vstd::prelude::*;

use crate::rng::splitmix64;

verus! {

use crate::rng::{next_state, scrambled, state_after};
use crate::seqs::reversed;
use crate::tree::{before, clear, holds, lefts, linked, node, plug, sized, Cell, Frame, Tree};
use crate::tree::{
    lemma_after_none,
    lemma_frame,
    lemma_ids_in_arena,
    lemma_linked_same,
    lemma_over,
    lemma_plug_content,
    lemma_plug_same,
    lemma_pushed,
    lemma_replug,
    lemma_size_below,
    lemma_turned,
    lemma_turned_linked,
    lemma_unplug,
    lemma_unwind,
    lemma_zero,
};

#[derive(Clone, Copy)]
pub struct TreapNode {
    l: u32,
    r: u32,
    pri: u32,
    sz: u32,
    val: u32,
    rev: u8,
}

/// A sequence of numbers that supports range reversal.
pub struct Treap {
    p: Vec<TreapNode>,
    root: u32,
    rng: u64,
    tree: Ghost<Tree>,
}

spec fn cell(n: TreapNode) -> Cell {
    Cell { l: n.l as int, r: n.r as int, val: n.val, rev: n.rev != 0, sz: n.sz as int }
}

spec fn cells(p: Seq<TreapNode>) -> Seq<Cell> {
    Seq::new(p.len(), |i: int| cell(p[i]))
}

/// Marks are bits.
spec fn marks_ok(p: Seq<TreapNode>) -> bool {
    forall|i: int| 0 <= i < p.len() ==> (#[trigger] p[i]).rev <= 1
}

/// No node has a priority above one of its descendants.
spec fn heap(p: Seq<TreapNode>, t: Tree) -> bool
    decreases t,
{
    match t {
        Tree::Leaf => true,
        Tree::Node { id, l, r, .. } => {
            &&& heap(p, *l)
            &&& heap(p, *r)
            &&& forall|i: int| #[trigger] l.ids().contains(i) ==> p[id].pri <= p[i].pri
            &&& forall|i: int| #[trigger] r.ids().contains(i) ==> p[id].pri <= p[i].pri
        },
    }
}

/// `q` is `p` but for the links, marks and sizes of the nodes in `s`.
spec fn touched(p: Seq<TreapNode>, q: Seq<TreapNode>, s: Set<int>) -> bool {
    &&& q.len() == p.len()
    &&& forall|i: int|
        0 <= i < p.len() ==> (#[trigger] q[i]).pri == p[i].pri && q[i].val == p[i].val && (!s.contains(i)
            ==> q[i] == p[i])
}

proof fn lemma_heap_frame(p: Seq<TreapNode>, q: Seq<TreapNode>, t: Tree)
    requires
        heap(p, t),
        forall|i: int| #[trigger] t.ids().contains(i) ==> q[i].pri == p[i].pri,
    ensures
        heap(q, t),
    decreases t,
{
    match t {
        Tree::Leaf => {},
        Tree::Node { id, l, r, .. } => {
            assert(t.ids().contains(id));
            assert forall|i: int| #[trigger] l.ids().contains(i) implies q[i].pri == p[i].pri by {
                assert(t.ids().contains(i));
            }
            assert forall|i: int| #[trigger] r.ids().contains(i) implies q[i].pri == p[i].pri by {
                assert(t.ids().contains(i));
            }
            lemma_heap_frame(p, q, *l);
            lemma_heap_frame(p, q, *r);
        },
    }
}

proof fn lemma_heap_turned(p: Seq<TreapNode>, t: Tree)
    requires
        heap(p, t),
    ensures
        heap(p, t.turned()),
        heap(p, t.pushed()),
    decreases t,
{
    match t {
        Tree::Leaf => {},
        Tree::Node { l, r, .. } => {
            lemma_turned(*l);
            lemma_turned(*r);
            lemma_heap_turned(p, *l);
            lemma_heap_turned(p, *r);
        },
    }
}

proof fn lemma_heap_root(p: Seq<TreapNode>, t: Tree)
    requires
        heap(p, t),
    ensures
        forall|i: int| #[trigger] t.ids().contains(i) ==> p[t.root()].pri <= p[i].pri,
{
    match t {
        Tree::Leaf => {
            assert(t.ids() == Set::<int>::empty());
        },
        Tree::Node { id, l, r, .. } => {
            assert forall|i: int| #[trigger] t.ids().contains(i) implies p[id].pri <= p[i].pri by {
                assert(i == id || l.ids().contains(i) || r.ids().contains(i));
            }
        },
    }
}

/// Nodes that are linked in `p` are linked in the changed arena when it was changed
/// elsewhere.
proof fn lemma_untouched(p: Seq<TreapNode>, q: Seq<TreapNode>, s: Set<int>, t: Tree)
    requires
        holds(cells(p), t.root(), t),
        touched(p, q, s),
        t.ids().disjoint(s),
    ensures
        holds(cells(q), t.root(), t),
{
    lemma_ids_in_arena(cells(p), t.root(), t);
    lemma_frame(cells(p), cells(q), t.root(), t);
}

proof fn lemma_heap_unplug(p: Seq<TreapNode>, path: Seq<Frame>, t: Tree)
    requires
        heap(p, plug(path, t)),
    ensures
        heap(p, t),
    decreases path.len(),
{
    if path.len() > 0 {
        lemma_heap_unplug(p, path.drop_last(), path.last().over(t));
    }
}

proof fn lemma_heap_replug(p: Seq<TreapNode>, path: Seq<Frame>, t: Tree, u: Tree)
    requires
        heap(p, plug(path, t)),
        heap(p, u),
        u.ids() == t.ids(),
    ensures
        heap(p, plug(path, u)),
    decreases path.len(),
{
    if path.len() > 0 {
        let f = path.last();
        lemma_heap_unplug(p, path.drop_last(), f.over(t));
        assert(f.over(u).ids() =~= f.over(t).ids());
        lemma_heap_replug(p, path.drop_last(), f.over(t), f.over(u));
    }
}

/// All numbers in `t` are between `lo` and `hi`.
spec fn within(t: Tree, lo: int, hi: int) -> bool {
    forall|i: int| #[trigger] t.ids().contains(i) ==> lo < i < hi
}

/// A right spine under construction: the nodes `st` from the top, each the right
/// child of the one before it, with their left subtrees `ls`, and under the last of
/// them the tree `tail` at `last`.
spec fn spine_ok(p: Seq<TreapNode>, st: Seq<u32>, ls: Seq<Tree>, last: int, tail: Tree, hi: int) -> bool {
    &&& ls.len() == st.len()
    &&& linked(cells(p), last, tail)
    &&& tail.distinct()
    &&& heap(p, tail)
    &&& within(tail, below(st, st.len() as int), hi)
    &&& forall|k: int| 0 <= k < st.len() ==> #[trigger] spine_node(p, st, ls[k], k, last, hi)
    &&& st.len() > 0 ==> forall|i: int| #[trigger]
        tail.ids().contains(i) ==> p[st.last() as int].pri <= p[i].pri
}

/// The number of the node above position `k` of a spine.
spec fn below(st: Seq<u32>, k: int) -> int {
    if k == 0 {
        0
    } else {
        st[k - 1] as int
    }
}

spec fn spine_node(p: Seq<TreapNode>, st: Seq<u32>, l: Tree, k: int, last: int, hi: int) -> bool {
    &&& 0 < st[k] < p.len()
    &&& below(st, k) < st[k] < hi
    &&& p[st[k] as int].rev == 0
    &&& p[st[k] as int].r == if k + 1 < st.len() {
        st[k + 1] as int
    } else {
        last
    }
    &&& linked(cells(p), p[st[k] as int].l as int, l)
    &&& l.distinct()
    &&& heap(p, l)
    &&& within(l, below(st, k), st[k] as int)
    &&& forall|i: int| #[trigger] l.ids().contains(i) ==> p[st[k] as int].pri <= p[i].pri
    &&& k > 0 ==> p[st[k - 1] as int].pri <= p[st[k] as int].pri
}

/// The values on a spine and to the left of it.
spec fn spine_content(p: Seq<TreapNode>, st: Seq<u32>, ls: Seq<Tree>) -> Seq<u32>
    decreases st.len(),
{
    if st.len() == 0 {
        Seq::empty()
    } else {
        spine_content(p, st.drop_last(), ls.drop_last()) + (ls.last().content() + seq![
            p[st.last() as int].val,
        ])
    }
}

proof fn lemma_spine_content_frame(p: Seq<TreapNode>, q: Seq<TreapNode>, st: Seq<u32>, ls: Seq<Tree>)
    requires
        forall|k: int| 0 <= k < st.len() ==> q[#[trigger] st[k] as int].val == p[st[k] as int].val,
    ensures
        spine_content(q, st, ls) == spine_content(p, st, ls),
    decreases st.len(),
{
    if st.len() > 0 {
        assert(q[st[st.len() - 1] as int].val == p[st[st.len() - 1] as int].val);
        assert forall|k: int| 0 <= k < st.drop_last().len() implies q[#[trigger] st.drop_last()[k] as int].val
            == p[st.drop_last()[k] as int].val by {
            assert(q[st[k] as int].val == p[st[k] as int].val);
        }
        lemma_spine_content_frame(p, q, st.drop_last(), ls.drop_last());
    }
}

/// A spine whose nodes and trees are the same in `q` is one in `q`.
proof fn lemma_spine_frame(
    p: Seq<TreapNode>,
    q: Seq<TreapNode>,
    st: Seq<u32>,
    ls: Seq<Tree>,
    last: int,
    tail: Tree,
    hi: int,
)
    requires
        spine_ok(p, st, ls, last, tail, hi),
        p.len() <= q.len(),
        hi <= p.len(),
        forall|i: int| 0 <= i < hi ==> #[trigger] q[i] == p[i],
    ensures
        spine_ok(q, st, ls, last, tail, hi),
        spine_content(q, st, ls) == spine_content(p, st, ls),
{
    lemma_ids_in_arena(cells(p), last, tail);
    lemma_frame(cells(p), cells(q), last, tail);
    lemma_heap_frame(p, q, tail);
    assert forall|k: int| 0 <= k < st.len() implies #[trigger] spine_node(q, st, ls[k], k, last, hi) by {
        assert(spine_node(p, st, ls[k], k, last, hi));
        lemma_frame(cells(p), cells(q), p[st[k] as int].l as int, ls[k]);
        lemma_heap_frame(p, q, ls[k]);
        if k > 0 {
            assert(spine_node(p, st, ls[k - 1], k - 1, last, hi));
        }
    }
    if st.len() > 0 {
        assert(spine_node(p, st, ls[st.len() - 1], st.len() - 1, last, hi));
    }
    assert forall|k: int| 0 <= k < st.len() implies q[#[trigger] st[k] as int].val == p[st[k] as int].val by {
        assert(spine_node(p, st, ls[k], k, last, hi));
    }
    lemma_spine_content_frame(p, q, st, ls);
}

/// The nodes of a spine are nodes of the arena, before `hi`.
proof fn lemma_spine_numbers(p: Seq<TreapNode>, st: Seq<u32>, ls: Seq<Tree>, last: int, tail: Tree, hi: int)
    requires
        spine_ok(p, st, ls, last, tail, hi),
    ensures
        forall|k: int| 0 <= k < st.len() ==> 0 < (#[trigger] st[k]) < p.len() && st[k] < hi,
{
    assert forall|k: int| 0 <= k < st.len() implies 0 < (#[trigger] st[k]) < p.len() && st[k] < hi by {
        assert(spine_node(p, st, ls[k], k, last, hi));
    }
}

/// Folds the last node of a spine into the tree under it.
proof fn lemma_spine_fold(p: Seq<TreapNode>, st: Seq<u32>, ls: Seq<Tree>, last: int, tail: Tree, hi: int) -> (t: Tree)
    requires
        spine_ok(p, st, ls, last, tail, hi),
        st.len() > 0,
    ensures
        t == node(st.last() as int, p[st.last() as int].val, false, ls.last(), tail),
        spine_ok(p, st.drop_last(), ls.drop_last(), st.last() as int, t, hi),
        spine_content(p, st.drop_last(), ls.drop_last()) + t.content() == spine_content(p, st, ls)
            + tail.content(),
{
    let n = st.len() - 1;
    let x = st[n] as int;
    let st1 = st.drop_last();
    let ls1 = ls.drop_last();
    let t = node(x, p[x].val, false, ls[n], tail);
    assert(spine_node(p, st, ls[n], n, last, hi));
    assert(t.ids() == ls[n].ids().union(tail.ids()).insert(x));
    assert forall|i: int| #[trigger] t.ids().contains(i) implies below(st, n) < i < hi && p[x].pri <= p[i].pri by {
        assert(i == x || ls[n].ids().contains(i) || tail.ids().contains(i));
    }
    assert forall|k: int| 0 <= k < st1.len() implies #[trigger] spine_node(p, st1, ls1[k], k, x, hi) by {
        assert(spine_node(p, st, ls[k], k, last, hi));
    }
    if n > 0 {
        assert forall|i: int| #[trigger] t.ids().contains(i) implies p[st1.last() as int].pri <= p[i].pri by {
            assert(p[x].pri <= p[i].pri);
        }
    }
    assert(ls[n].ids().disjoint(tail.ids())) by {
        assert forall|i: int| !(ls[n].ids().contains(i) && tail.ids().contains(i)) by {}
    }
    assert(linked(cells(p), x, t));
    assert(spine_content(p, st1, ls1) + t.content() =~= spine_content(p, st, ls) + tail.content());
    t
}

/// Hangs a new node `x` under a spine, with the tree that was there on its left.
proof fn lemma_spine_push(
    p: Seq<TreapNode>,
    q: Seq<TreapNode>,
    st: Seq<u32>,
    ls: Seq<Tree>,
    last: int,
    tail: Tree,
    x: int,
)
    requires
        spine_ok(p, st, ls, last, tail, x),
        0 < x < p.len() <= u32::MAX + 1,
        p.len() == x + 1,
        q.len() == p.len(),
        p[x].r == 0,
        p[x].rev == 0,
        forall|i: int| #[trigger] tail.ids().contains(i) ==> p[x].pri <= p[i].pri,
        st.len() > 0 ==> p[st.last() as int].pri <= p[x].pri,
        forall|i: int|
            0 <= i < x && (st.len() == 0 || i != st.last()) ==> #[trigger] q[i] == p[i],
        st.len() > 0 ==> q[st.last() as int] == (TreapNode { r: x as u32, ..p[st.last() as int] }),
        q[x] == (TreapNode { l: last as u32, ..p[x] }),
    ensures
        spine_ok(q, st.push(x as u32), ls.push(tail), 0, Tree::Leaf, x + 1),
        spine_content(q, st.push(x as u32), ls.push(tail)) == spine_content(p, st, ls) + tail.content() + seq![
            p[x].val,
        ],
{
    let st1 = st.push(x as u32);
    let ls1 = ls.push(tail);
    lemma_ids_in_arena(cells(p), last, tail);
    if st.len() > 0 {
        assert(spine_node(p, st, ls[st.len() - 1], st.len() - 1, last, x));
    }
    lemma_frame(cells(p), cells(q), last, tail);
    lemma_heap_frame(p, q, tail);
    assert forall|k: int| 0 <= k < st1.len() implies #[trigger] spine_node(q, st1, ls1[k], k, 0, x + 1) by {
        if k < st.len() {
            lemma_spine_increasing(p, st, ls, last, tail, x, k, st.len() - 1);
            assert(spine_node(p, st, ls[k], k, last, x));
            assert forall|i: int| #[trigger] ls[k].ids().contains(i) implies q[i] == p[i] by {
                assert(i < st[k]);
            }
            lemma_frame(cells(p), cells(q), p[st[k] as int].l as int, ls[k]);
            lemma_heap_frame(p, q, ls[k]);
            if k > 0 {
                lemma_spine_increasing(p, st, ls, last, tail, x, k - 1, st.len() - 1);
                assert(spine_node(p, st, ls[k - 1], k - 1, last, x));
            }
        } else {
            if st.len() > 0 {
                assert(below(st1, k) == st.last());
            }
        }
    }
    assert(within(Tree::Leaf, below(st1, st1.len() as int), x + 1)) by {
        assert(Tree::Leaf.ids() == Set::<int>::empty());
    }
    assert(Tree::Leaf.ids() == Set::<int>::empty());
    assert forall|k: int| 0 <= k < st.len() implies q[#[trigger] st[k] as int].val == p[st[k] as int].val by {
        assert(spine_node(p, st, ls[k], k, last, x));
    }
    lemma_spine_content_frame(p, q, st, ls);
    assert(st1.drop_last() =~= st);
    assert(ls1.drop_last() =~= ls);
    assert(spine_content(q, st1, ls1) =~= spine_content(p, st, ls) + tail.content() + seq![p[x].val]);
}

proof fn lemma_spine_increasing(
    p: Seq<TreapNode>,
    st: Seq<u32>,
    ls: Seq<Tree>,
    last: int,
    tail: Tree,
    hi: int,
    j: int,
    k: int,
)
    requires
        spine_ok(p, st, ls, last, tail, hi),
        0 <= j <= k < st.len(),
    ensures
        st[j] <= st[k],
        j < k ==> st[j] < st[k],
    decreases k - j,
{
    if j < k {
        assert(spine_node(p, st, ls[k], k, last, hi));
        lemma_spine_increasing(p, st, ls, last, tail, hi, j, k - 1);
    }
}

/// A whole spine is a tree.
proof fn lemma_spine_tree(p: Seq<TreapNode>, st: Seq<u32>, ls: Seq<Tree>, last: int, tail: Tree, hi: int) -> (t: Tree)
    requires
        spine_ok(p, st, ls, last, tail, hi),
    ensures
        linked(
            cells(p),
            if st.len() > 0 {
                st[0] as int
            } else {
                last
            },
            t,
        ),
        t.distinct(),
        heap(p, t),
        t.content() == spine_content(p, st, ls) + tail.content(),
    decreases st.len(),
{
    if st.len() == 0 {
        assert(tail.content() =~= spine_content(p, st, ls) + tail.content());
        tail
    } else {
        let u = lemma_spine_fold(p, st, ls, last, tail, hi);
        lemma_spine_tree(p, st.drop_last(), ls.drop_last(), st.last() as int, u, hi)
    }
}

/// `t` is empty or one of `ts`, from position `i` on.
spec fn listed(ts: Seq<Tree>, i: int, t: Tree) -> bool {
    t == Tree::Leaf || exists|j: int| i <= j < ts.len() && #[trigger] ts[j] == t
}

/// The children of every tree in `ts` are listed, in `ts` after the tree itself or in
/// `rest`.
spec fn closed(ts: Seq<Tree>, rest: Seq<Tree>) -> bool {
    forall|i: int|
        0 <= i < ts.len() ==> {
            &&& listed(ts, i + 1, (#[trigger] ts[i]).left()) || listed(rest, 0, ts[i].left())
            &&& listed(ts, i + 1, ts[i].right()) || listed(rest, 0, ts[i].right())
        }
}

/// The arena has the trees `ts` under the numbers `xs`.
spec fn all_linked(p: Seq<TreapNode>, xs: Seq<u32>, ts: Seq<Tree>) -> bool {
    &&& xs.len() == ts.len()
    &&& forall|i: int| 0 <= i < ts.len() ==> {
        &&& linked(cells(p), xs[i] as int, #[trigger] ts[i])
        &&& ts[i].distinct()
        &&& ts[i].content().len() <= u32::MAX
    }
}

spec fn weight(ts: Seq<Tree>) -> nat
    decreases ts.len(),
{
    if ts.len() == 0 {
        0
    } else {
        weight(ts.drop_last()) + 2 * ts.last().content().len() + 1
    }
}

proof fn lemma_listed_more(ts: Seq<Tree>, more: Seq<Tree>, i: int, t: Tree)
    requires
        listed(ts, i, t),
        ts.len() <= more.len(),
        forall|j: int| 0 <= j < ts.len() ==> #[trigger] more[j] == ts[j],
        0 <= i,
    ensures
        listed(more, i, t),
{
    if t != Tree::Leaf {
        let j = choose|j: int| i <= j < ts.len() && #[trigger] ts[j] == t;
        assert(more[j] == t);
    }
}

/// Moving the last tree of `rest` to `ts` and putting its children in its place.
proof fn lemma_closed_step(ts: Seq<Tree>, rest: Seq<Tree>, rest1: Seq<Tree>)
    requires
        closed(ts, rest),
        rest.len() > 0,
        rest.len() - 1 <= rest1.len(),
        forall|j: int| 0 <= j < rest.len() - 1 ==> #[trigger] rest1[j] == rest[j],
        listed(rest1, 0, rest.last().left()),
        listed(rest1, 0, rest.last().right()),
    ensures
        closed(ts.push(rest.last()), rest1),
{
    let t = rest.last();
    let ts1 = ts.push(t);
    assert forall|i: int| 0 <= i < ts1.len() implies {
        &&& listed(ts1, i + 1, (#[trigger] ts1[i]).left()) || listed(rest1, 0, ts1[i].left())
        &&& listed(ts1, i + 1, ts1[i].right()) || listed(rest1, 0, ts1[i].right())
    } by {
        if i < ts.len() {
            assert(ts1[i] == ts[i]);
            lemma_moved(ts, rest, rest1, i + 1, ts[i].left());
            lemma_moved(ts, rest, rest1, i + 1, ts[i].right());
        }
    }
}

proof fn lemma_moved(ts: Seq<Tree>, rest: Seq<Tree>, rest1: Seq<Tree>, i: int, t: Tree)
    requires
        0 <= i <= ts.len(),
        listed(ts, i, t) || listed(rest, 0, t),
        rest.len() > 0,
        rest.len() - 1 <= rest1.len(),
        forall|j: int| 0 <= j < rest.len() - 1 ==> #[trigger] rest1[j] == rest[j],
    ensures
        listed(ts.push(rest.last()), i, t) || listed(rest1, 0, t),
{
    if listed(ts, i, t) {
        lemma_listed_more(ts, ts.push(rest.last()), i, t);
    } else if t != Tree::Leaf {
        let j = choose|j: int| 0 <= j < rest.len() && #[trigger] rest[j] == t;
        if j < rest.len() - 1 {
            assert(rest1[j] == t);
        } else {
            assert(ts.push(rest.last())[ts.len() as int] == t);
        }
    }
}

/// `x` and `y` have nothing in common and are together `s`.
pub open spec fn parted(s: Set<int>, x: Set<int>, y: Set<int>) -> bool {
    &&& forall|i: int| #[trigger] s.contains(i) <==> (x.contains(i) || y.contains(i))
    &&& x.disjoint(y)
}

/// `k`, but no more than the number of elements of `t`.
pub open spec fn up_to(k: u32, t: Tree) -> int {
    if k <= t.content().len() {
        k as int
    } else {
        t.content().len() as int
    }
}

/// `a` holds the first `k` elements of `t` and `b` the others, each in its node.
pub open spec fn is_split(t: Tree, k: int, a: Tree, b: Tree) -> bool {
    &&& a.content() == t.content().take(k)
    &&& b.content() == t.content().skip(k)
    &&& parted(t.ids(), a.ids(), b.ids())
}

/// `t` holds the elements of `a` and then those of `b`, each in its node.
pub open spec fn is_merge(a: Tree, b: Tree, t: Tree) -> bool {
    &&& t.content() == a.content() + b.content()
    &&& parted(t.ids(), a.ids(), b.ids())
}

/// Merging the two parts of a split gives the sequence back, in the same nodes.
pub proof fn law_split_merge(t: Tree, k: int, a: Tree, b: Tree, u: Tree)
    requires
        0 <= k <= t.content().len(),
        is_split(t, k, a, b),
        is_merge(a, b, u),
    ensures
        u.content() == t.content(),
        u.ids() == t.ids(),
{
    assert(u.content() =~= t.content());
    assert(u.ids() =~= t.ids()) by {
        assert forall|i: int| u.ids().contains(i) == t.ids().contains(i) by {}
    }
}

/// What a split and a merge do, element by element: the first `k` elements, or all if
/// there are fewer, are those of the first part and the others follow in the second; and
/// a merge puts them one behind the other.
pub proof fn law_split_by_position(t: Tree, k: u32, a: Tree, b: Tree)
    ensures
        is_split(t, up_to(k, t), a, b) ==> {
            let n = t.content().len() as int;
            let m = a.content().len() as int;
            &&& m <= k && m <= n && (m == k || m == n)
            &&& b.content().len() == n - m
            &&& forall|i: int| 0 <= i < m ==> #[trigger] a.content()[i] == t.content()[i]
            &&& forall|i: int| 0 <= i < n - m ==> #[trigger] b.content()[i] == t.content()[m + i]
            &&& forall|x: int| #[trigger] t.ids().contains(x) <==> a.ids().contains(x) || b.ids().contains(x)
            &&& forall|x: int| !(#[trigger] a.ids().contains(x) && b.ids().contains(x))
        },
        is_merge(a, b, t) ==> {
            let m = a.content().len() as int;
            &&& t.content().len() == m + b.content().len()
            &&& forall|i: int| 0 <= i < m ==> #[trigger] a.content()[i] == t.content()[i]
            &&& forall|i: int| 0 <= i < b.content().len() ==> #[trigger] b.content()[i] == t.content()[m + i]
            &&& forall|x: int| #[trigger] t.ids().contains(x) <==> a.ids().contains(x) || b.ids().contains(x)
            &&& forall|x: int| !(#[trigger] a.ids().contains(x) && b.ids().contains(x))
        },
{
}

/// Splitting what has been merged at the seam gives the two sequences back.
pub proof fn law_merge_split(a: Tree, b: Tree, t: Tree, c: Tree, d: Tree)
    requires
        is_merge(a, b, t),
        is_split(t, a.content().len() as int, c, d),
    ensures
        c.content() == a.content(),
        d.content() == b.content(),
{
    assert(c.content() =~= a.content());
    assert(d.content() =~= b.content());
}

proof fn lemma_parted_over(s: Set<int>, x: Set<int>, y: Set<int>, t: int, u: Set<int>, v: Set<int>)
    requires
        s == x.union(y).insert(t) || s == y.union(x).insert(t),
        x.disjoint(y),
        !x.contains(t),
        !y.contains(t),
        parted(x, u, v),
    ensures
        parted(s, u, v.union(y).insert(t)),
        parted(s, v.union(y).insert(t), u),
{
    let w = v.union(y).insert(t);
    assert forall|i: int| #[trigger] s.contains(i) <==> (u.contains(i) || w.contains(i)) by {
        assert(x.contains(i) <==> (u.contains(i) || v.contains(i)));
    }
    assert forall|i: int| !(u.contains(i) && w.contains(i)) by {
        assert(x.contains(i) <==> (u.contains(i) || v.contains(i)));
    }
    assert(u.disjoint(w));
    assert(w.disjoint(u));
}

spec fn same_priorities(p: Seq<TreapNode>, q: Seq<TreapNode>) -> bool {
    &&& p.len() == q.len()
    &&& forall|i: int| 0 <= i < p.len() ==> (#[trigger] p[i]).pri == q[i].pri
}

/// The priority drawn in state `x`.
pub open spec fn priority(x: u64) -> u32 {
    (scrambled(x) >> 32) as u32
}

/// The priorities of `n` nodes, drawn one after the other.
pub open spec fn drawn_priorities(seed: u64, n: nat) -> Seq<u32> {
    Seq::new(n, |i: int| priority(state_after(seed, (i + 1) as nat)))
}

impl Treap {
    /// The sequence.
    pub closed spec fn view(&self) -> Seq<u32> {
        self.tree@.content()
    }

    /// The priorities of the nodes, in the order in which they were made.
    pub closed spec fn priorities(&self) -> Seq<u32> {
        Seq::new((self.p@.len() - 1) as nat, |i: int| self.p@[i + 1].pri)
    }

    /// The number of the root, 0 for an empty sequence.
    pub closed spec fn root_number(&self) -> u32 {
        self.root
    }

    /// The tree of the nodes.
    pub closed spec fn shape(&self) -> Tree {
        self.tree@
    }

    /// The arena holds the tree `t` under the number `x`, with the right sizes and in heap
    /// order of the priorities.
    pub closed spec fn has(&self, x: u32, t: Tree) -> bool {
        &&& holds(cells(self.p@), x as int, t)
        &&& marks_ok(self.p@)
        &&& heap(self.p@, t)
    }

    /// The nodes are those of `other` but for the links, marks and sizes of those in `s`.
    pub closed spec fn same_but(&self, other: &Treap, s: Set<int>) -> bool {
        touched(other.p@, self.p@, s) && marks_ok(self.p@)
    }

    /// A tree in the arena has its root's number for its number, and no more elements
    /// than 32 bits count.
    pub proof fn law_has(&self, x: u32, t: Tree)
        requires
            self.has(x, t),
        ensures
            x == t.root(),
            t.content().len() <= u32::MAX,
            t.distinct(),
    {
        lemma_ids_in_arena(cells(self.p@), x as int, t);
    }

    /// The arena holds the whole tree under the number of the root, and its elements are
    /// the sequence.
    pub proof fn law_whole(&self)
        requires
            self.wf(),
        ensures
            self.has(self.root_number(), self.shape()),
            self.shape().content() == self@,
    {
    }

    /// A tree none of whose nodes has changed is still in the arena.
    pub proof fn law_kept(&self, other: &Treap, s: Set<int>, x: u32, t: Tree)
        requires
            other.has(x, t),
            self.same_but(other, s),
            t.ids().disjoint(s),
        ensures
            self.has(x, t),
    {
        lemma_ids_in_arena(cells(other.p@), x as int, t);
        lemma_untouched(other.p@, self.p@, s, t);
        lemma_heap_frame(other.p@, self.p@, t);
    }

    /// No lazy mark is set.
    pub closed spec fn unmarked(&self) -> bool {
        forall|i: int| 0 <= i < self.p@.len() ==> (#[trigger] self.p@[i]).rev == 0
    }

    /// The invariant: the arena holds the tree, with the right sizes, and the tree is
    /// in heap order of the priorities.
    pub closed spec fn wf(&self) -> bool {
        &&& 0 < self.p@.len()
        &&& holds(cells(self.p@), self.root as int, self.tree@)
        &&& marks_ok(self.p@)
        &&& heap(self.p@, self.tree@)
    }

    fn sz(&self, x: u32, t: Ghost<Tree>) -> (n: u32)
        requires
            holds(cells(self.p@), x as int, t@),
        ensures
            n == t@.content().len(),
    {
        if x == 0 {
            0
        } else {
            self.p[x as usize].sz
        }
    }

    /// Recomputes the size of `x`, whose children are the trees `l` and `r`.
    fn pull(&mut self, x: u32, l: Ghost<Tree>, r: Ghost<Tree>)
        requires
            0 < x < old(self).p@.len(),
            holds(cells(old(self).p@), old(self).p@[x as int].l as int, l@),
            holds(cells(old(self).p@), old(self).p@[x as int].r as int, r@),
            l@.ids().disjoint(r@.ids()),
            !l@.ids().contains(x as int),
            !r@.ids().contains(x as int),
            l@.content().len() + r@.content().len() < u32::MAX,
            marks_ok(old(self).p@),
            old(self).p@[x as int].rev == 0,
        ensures
            final(self).root == old(self).root,
            final(self).tree == old(self).tree,
            touched(old(self).p@, final(self).p@, set![x as int]),
            final(self).p@ == old(self).p@.update(
                x as int,
                (TreapNode { sz: (1 + l@.content().len() + r@.content().len()) as u32, ..old(self).p@[x as int] }),
            ),
            marks_ok(final(self).p@),
            holds(
                cells(final(self).p@),
                x as int,
                node(x as int, old(self).p@[x as int].val, false, l@, r@),
            ),
    {
        let lx: u32 = self.p[x as usize].l;
        let rx: u32 = self.p[x as usize].r;
        let sz: u32 = 1 + self.sz(lx, l) + self.sz(rx, r);
        let ghost p0 = self.p@;
        self.p[x as usize].sz = sz;
        proof {
            lemma_ids_in_arena(cells(p0), lx as int, l@);
            lemma_ids_in_arena(cells(p0), rx as int, r@);
            lemma_over(cells(p0), cells(self.p@), x as int, l@, r@);
        }
    }

    /// Carries the mark of `x` out on its children.
    fn push(&mut self, x: u32, t: Ghost<Tree>)
        requires
            holds(cells(old(self).p@), x as int, t@),
            marks_ok(old(self).p@),
        ensures
            final(self).root == old(self).root,
            final(self).tree == old(self).tree,
            touched(old(self).p@, final(self).p@, t@.ids()),
            marks_ok(final(self).p@),
            holds(cells(final(self).p@), x as int, t@.pushed()),
    {
        if x == 0 {
            return;
        }
        let ghost p0 = self.p@;
        let ghost lt = t@.left();
        let ghost rt = t@.right();
        proof {
            lemma_pushed(t@);
            lemma_turned(lt);
            lemma_turned(rt);
            lemma_ids_in_arena(cells(p0), p0[x as int].l as int, lt);
            lemma_ids_in_arena(cells(p0), p0[x as int].r as int, rt);
        }
        if self.p[x as usize].rev != 0 {
            let l: u32 = self.p[x as usize].l;
            let r: u32 = self.p[x as usize].r;
            self.p[x as usize].l = r;
            self.p[x as usize].r = l;
            self.p[x as usize].rev = 0;
            let ghost p1 = self.p@;
            proof {
                lemma_frame(cells(p0), cells(p1), l as int, lt);
                lemma_frame(cells(p0), cells(p1), r as int, rt);
                assert(r != 0 ==> rt.ids().contains(r as int));
                assert(l != 0 ==> lt.ids().contains(l as int));
            }
            if r != 0 {
                self.flip_mark(r);
            }
            let ghost p2 = self.p@;
            proof {
                lemma_turned_linked(cells(p1), cells(p2), r as int, rt);
                lemma_frame(cells(p1), cells(p2), l as int, lt);
            }
            if l != 0 {
                self.flip_mark(l);
            }
            proof {
                lemma_turned_linked(cells(p2), cells(self.p@), l as int, lt);
                lemma_frame(cells(p2), cells(self.p@), r as int, rt.turned());
                lemma_over(cells(self.p@), cells(self.p@), x as int, rt.turned(), lt.turned());
            }
        }
    }

    /// Flips the mark of `x`.
    fn flip_mark(&mut self, x: u32)
        requires
            x < old(self).p@.len(),
            marks_ok(old(self).p@),
        ensures
            final(self).root == old(self).root,
            final(self).tree == old(self).tree,
            final(self).p@ == old(self).p@.update(
                x as int,
                (TreapNode { rev: (1 - old(self).p@[x as int].rev) as u8, ..old(self).p@[x as int] }),
            ),
            marks_ok(final(self).p@),
    {
        let rev: u8 = self.p[x as usize].rev;
        assert(rev <= 1);
        assert(rev ^ 1 == 1 - rev) by (bit_vector)
            requires
                rev <= 1,
        ;
        self.p[x as usize].rev = rev ^ 1;
    }

    /// Makes the trees `l` at `lx` and `r` at `rx` the children of `x`.
    fn adopt(&mut self, x: u32, lx: u32, rx: u32, l: Ghost<Tree>, r: Ghost<Tree>)
        requires
            0 < x < old(self).p@.len(),
            holds(cells(old(self).p@), lx as int, l@),
            holds(cells(old(self).p@), rx as int, r@),
            heap(old(self).p@, l@),
            heap(old(self).p@, r@),
            forall|i: int| #[trigger] l@.ids().contains(i) ==> old(self).p@[x as int].pri <= old(self).p@[i].pri,
            forall|i: int| #[trigger] r@.ids().contains(i) ==> old(self).p@[x as int].pri <= old(self).p@[i].pri,
            l@.ids().disjoint(r@.ids()),
            !l@.ids().contains(x as int),
            !r@.ids().contains(x as int),
            l@.content().len() + r@.content().len() < u32::MAX,
            marks_ok(old(self).p@),
            old(self).p@[x as int].rev == 0,
        ensures
            final(self).root == old(self).root,
            final(self).tree == old(self).tree,
            touched(old(self).p@, final(self).p@, set![x as int]),
            marks_ok(final(self).p@),
            holds(
                cells(final(self).p@),
                x as int,
                node(x as int, old(self).p@[x as int].val, false, l@, r@),
            ),
            heap(final(self).p@, node(x as int, old(self).p@[x as int].val, false, l@, r@)),
    {
        let ghost p0 = self.p@;
        self.p[x as usize].l = lx;
        self.p[x as usize].r = rx;
        proof {
            lemma_ids_in_arena(cells(p0), lx as int, l@);
            lemma_ids_in_arena(cells(p0), rx as int, r@);
            assert(touched(p0, self.p@, set![x as int]));
            lemma_untouched(p0, self.p@, set![x as int], l@);
            lemma_untouched(p0, self.p@, set![x as int], r@);
        }
        self.pull(x, l, r);
        proof {
            lemma_heap_frame(p0, self.p@, l@);
            lemma_heap_frame(p0, self.p@, r@);
        }
    }

    /// Splits the tree `tr` at `t` into its first `k` elements, or all if it has fewer,
    /// and the rest.
    #[verifier::rlimit(40)]
    pub fn split(&mut self, t: u32, k: u32, tr: Ghost<Tree>) -> (res: (u32, u32, Ghost<Tree>, Ghost<Tree>))
        requires
            old(self).has(t, tr@),
        ensures
            final(self).root_number() == old(self).root_number(),
            final(self).shape() == old(self).shape(),
            final(self).same_but(old(self), tr@.ids()),
            final(self).has(res.0, res.2@),
            final(self).has(res.1, res.3@),
            is_split(tr@, up_to(k, tr@), res.2@, res.3@),
            res.0 == 0 <==> up_to(k, tr@) == 0,
            res.1 == 0 <==> up_to(k, tr@) == tr@.content().len(),
        decreases tr@.content().len(),
    {
        let ghost kk = up_to(k, tr@);
        proof {
            lemma_zero(cells(self.p@), t as int, tr@);
        }
        if t == 0 {
            proof {
                assert(tr@.content().take(0) =~= Seq::empty());
                assert(tr@.content().skip(0) =~= Seq::empty());
            }
            return (0, 0, tr, tr);
        }
        let ghost p0 = self.p@;
        self.push(t, tr);
        let ghost p1 = self.p@;
        let ghost pt = tr@.pushed();
        let ghost lt = pt.left();
        let ghost rt = pt.right();
        let ghost val = self.p@[t as int].val;
        proof {
            lemma_pushed(tr@);
            lemma_ids_in_arena(cells(p1), t as int, pt);
            lemma_heap_turned(p0, tr@);
            lemma_heap_frame(p0, p1, pt);
            lemma_ids_in_arena(cells(p1), p1[t as int].l as int, lt);
            lemma_ids_in_arena(cells(p1), p1[t as int].r as int, rt);
            assert(pt.content() == lt.content() + seq![val] + rt.content());
            assert(parted(pt.ids().remove(t as int), lt.ids(), rt.ids()));
        }
        let l: u32 = self.p[t as usize].l;
        let r: u32 = self.p[t as usize].r;
        let ls: u32 = self.sz(l, Ghost(lt));
        if k <= ls {
            let (a, b, ta, tb): (u32, u32, Ghost<Tree>, Ghost<Tree>) = self.split(l, k, Ghost(lt));
            let ghost p2 = self.p@;
            proof {
                lemma_ids_in_arena(cells(p2), a as int, ta@);
                lemma_ids_in_arena(cells(p2), b as int, tb@);
                lemma_untouched(p1, p2, lt.ids(), rt);
                lemma_heap_frame(p1, p2, rt);
            }
            self.adopt(t, b, r, tb, Ghost(rt));
            let ghost nt = node(t as int, val, false, tb@, rt);
            proof {
                lemma_untouched(p2, self.p@, set![t as int], ta@);
                lemma_heap_frame(p2, self.p@, ta@);
                lemma_parted_over(tr@.ids(), lt.ids(), rt.ids(), t as int, ta@.ids(), tb@.ids());
                assert(nt.ids() == tb@.ids().union(rt.ids()).insert(t as int));
                assert(ta@.content() =~= tr@.content().take(kk));
                assert(nt.content() =~= tr@.content().skip(kk));
                lemma_zero(cells(self.p@), a as int, ta@);
            }
            (a, t, ta, Ghost(nt))
        } else {
            let (a, b, ta, tb): (u32, u32, Ghost<Tree>, Ghost<Tree>) = self.split(r, k - ls - 1, Ghost(rt));
            let ghost p2 = self.p@;
            proof {
                lemma_ids_in_arena(cells(p2), a as int, ta@);
                lemma_ids_in_arena(cells(p2), b as int, tb@);
                lemma_untouched(p1, p2, rt.ids(), lt);
                lemma_heap_frame(p1, p2, lt);
            }
            self.adopt(t, l, a, Ghost(lt), ta);
            let ghost nt = node(t as int, val, false, lt, ta@);
            proof {
                lemma_untouched(p2, self.p@, set![t as int], tb@);
                lemma_heap_frame(p2, self.p@, tb@);
                lemma_parted_over(tr@.ids(), rt.ids(), lt.ids(), t as int, tb@.ids(), ta@.ids());
                assert(nt.ids() =~= ta@.ids().union(lt.ids()).insert(t as int));
                assert(nt.content() =~= tr@.content().take(kk));
                assert(tb@.content() =~= tr@.content().skip(kk));
                lemma_zero(cells(self.p@), b as int, tb@);
            }
            (t, b, Ghost(nt), tb)
        }
    }

    /// Joins the trees `ta` at `a` and `tb` at `b`, in this order.
    #[verifier::rlimit(40)]
    pub fn merge(&mut self, a: u32, b: u32, ta: Ghost<Tree>, tb: Ghost<Tree>) -> (res: (u32, Ghost<Tree>))
        requires
            old(self).has(a, ta@),
            old(self).has(b, tb@),
            ta@.ids().disjoint(tb@.ids()),
            ta@.content().len() + tb@.content().len() <= u32::MAX,
        ensures
            final(self).root_number() == old(self).root_number(),
            final(self).shape() == old(self).shape(),
            final(self).same_but(old(self), ta@.ids().union(tb@.ids())),
            final(self).has(res.0, res.1@),
            is_merge(ta@, tb@, res.1@),
        decreases ta@.content().len() + tb@.content().len(),
    {
        if a == 0 {
            proof {
                assert(ta@.content() + tb@.content() =~= tb@.content());
            }
            return (b, tb);
        }
        if b == 0 {
            proof {
                assert(ta@.content() + tb@.content() =~= ta@.content());
            }
            return (a, ta);
        }
        let ghost p0 = self.p@;
        proof {
            lemma_ids_in_arena(cells(p0), a as int, ta@);
            lemma_ids_in_arena(cells(p0), b as int, tb@);
            lemma_heap_root(p0, ta@);
            lemma_heap_root(p0, tb@);
        }
        if self.p[a as usize].pri < self.p[b as usize].pri {
            self.push(a, ta);
            let ghost p1 = self.p@;
            let ghost pt = ta@.pushed();
            let ghost lt = pt.left();
            let ghost rt = pt.right();
            let ghost val = self.p@[a as int].val;
            proof {
                lemma_pushed(ta@);
                lemma_heap_turned(p0, ta@);
                lemma_heap_frame(p0, p1, pt);
                lemma_ids_in_arena(cells(p1), p1[a as int].l as int, lt);
                lemma_ids_in_arena(cells(p1), p1[a as int].r as int, rt);
                lemma_untouched(p0, p1, ta@.ids(), tb@);
                lemma_heap_frame(p0, p1, tb@);
                assert(pt.ids() == lt.ids().union(rt.ids()).insert(a as int));
            }
            let l: u32 = self.p[a as usize].l;
            let r: u32 = self.p[a as usize].r;
            let (m, tm): (u32, Ghost<Tree>) = self.merge(r, b, Ghost(rt), tb);
            let ghost p2 = self.p@;
            proof {
                assert(tm@.ids().disjoint(lt.ids()) && !tm@.ids().contains(a as int)) by {
                    assert forall|i: int| lt.ids().contains(i) implies !tm@.ids().contains(i) by {
                        assert(ta@.ids().contains(i));
                    }
                }
                lemma_untouched(p1, p2, rt.ids().union(tb@.ids()), lt);
                lemma_heap_frame(p1, p2, lt);
                lemma_ids_in_arena(cells(p2), m as int, tm@);
                assert(!rt.ids().union(tb@.ids()).contains(a as int));
                assert forall|i: int| #[trigger] tm@.ids().contains(i) implies p2[a as int].pri <= p2[i].pri by {
                    assert(rt.ids().contains(i) || tb@.ids().contains(i));
                }
            }
            self.adopt(a, l, m, Ghost(lt), tm);
            let ghost nt = node(a as int, val, false, lt, tm@);
            proof {
                assert(nt.content() =~= ta@.content() + tb@.content());
                assert(parted(nt.ids(), ta@.ids(), tb@.ids()));
            }
            (a, Ghost(nt))
        } else {
            self.push(b, tb);
            let ghost p1 = self.p@;
            let ghost pt = tb@.pushed();
            let ghost lt = pt.left();
            let ghost rt = pt.right();
            let ghost val = self.p@[b as int].val;
            proof {
                lemma_pushed(tb@);
                lemma_heap_turned(p0, tb@);
                lemma_heap_frame(p0, p1, pt);
                lemma_ids_in_arena(cells(p1), p1[b as int].l as int, lt);
                lemma_ids_in_arena(cells(p1), p1[b as int].r as int, rt);
                lemma_untouched(p0, p1, tb@.ids(), ta@);
                lemma_heap_frame(p0, p1, ta@);
                assert(pt.ids() == lt.ids().union(rt.ids()).insert(b as int));
            }
            let l: u32 = self.p[b as usize].l;
            let r: u32 = self.p[b as usize].r;
            let (m, tm): (u32, Ghost<Tree>) = self.merge(a, l, ta, Ghost(lt));
            let ghost p2 = self.p@;
            proof {
                assert(tm@.ids().disjoint(rt.ids()) && !tm@.ids().contains(b as int)) by {
                    assert forall|i: int| rt.ids().contains(i) implies !tm@.ids().contains(i) by {
                        assert(tb@.ids().contains(i));
                    }
                }
                lemma_untouched(p1, p2, ta@.ids().union(lt.ids()), rt);
                lemma_heap_frame(p1, p2, rt);
                lemma_ids_in_arena(cells(p2), m as int, tm@);
                assert(!ta@.ids().union(lt.ids()).contains(b as int));
                assert forall|i: int| #[trigger] tm@.ids().contains(i) implies p2[b as int].pri <= p2[i].pri by {
                    assert(lt.ids().contains(i) || ta@.ids().contains(i));
                }
            }
            self.adopt(b, m, r, tm, Ghost(rt));
            let ghost nt = node(b as int, val, false, tm@, rt);
            proof {
                assert(nt.content() =~= ta@.content() + tb@.content());
                assert(parted(nt.ids(), ta@.ids(), tb@.ids()));
            }
            (b, Ghost(nt))
        }
    }

    /// Reverses the elements `l..=r`.
    pub fn reverse(&mut self, l: u32, r: u32)
        requires
            old(self).wf(),
            l <= r < old(self)@.len(),
        ensures
            final(self).wf(),
            final(self)@ == reversed(old(self)@, l as int, r + 1),
            final(self).priorities() == old(self).priorities(),
    {
        let ghost s = self@;
        let root: u32 = self.root;
        let ghost p0 = self.p@;
        proof {
            lemma_ids_in_arena(cells(p0), root as int, self.tree@);
        }
        assert(s.len() <= u32::MAX);
        assert(up_to(l, self.tree@) == l);
        let (a, b, ta, tb): (u32, u32, Ghost<Tree>, Ghost<Tree>) = self.split(root, l, self.tree);
        let ghost p1 = self.p@;
        proof {
            lemma_ids_in_arena(cells(p1), a as int, ta@);
        }
        assert(up_to((r - l + 1) as u32, tb@) == r - l + 1);
        let (mid, c, tm, tc): (u32, u32, Ghost<Tree>, Ghost<Tree>) = self.split(b, r - l + 1, tb);
        let ghost p2 = self.p@;
        proof {
            assert(tm@.content() =~= s.subrange(l as int, r + 1));
            lemma_ids_in_arena(cells(p2), mid as int, tm@);
            lemma_ids_in_arena(cells(p2), c as int, tc@);
            lemma_untouched(p1, p2, tb@.ids(), ta@);
            lemma_heap_frame(p1, p2, ta@);
            assert(ta@.ids().disjoint(tm@.ids()) && ta@.ids().disjoint(tc@.ids())) by {
                assert forall|i: int| ta@.ids().contains(i) implies !tm@.ids().contains(i) && !tc@.ids().contains(i) by {
                    if tm@.ids().contains(i) || tc@.ids().contains(i) {
                        assert(tb@.ids().contains(i));
                    }
                }
            }
            assert(tm@.ids().contains(mid as int));
        }
        self.flip_mark(mid);
        let ghost p3 = self.p@;
        proof {
            lemma_turned(tm@);
            lemma_turned_linked(cells(p2), cells(p3), mid as int, tm@);
            lemma_heap_turned(p2, tm@);
            assert(touched(p2, p3, tm@.ids()));
            lemma_heap_frame(p2, p3, tm@.turned());
            lemma_untouched(p2, p3, tm@.ids(), ta@);
            lemma_heap_frame(p2, p3, ta@);
            lemma_untouched(p2, p3, tm@.ids(), tc@);
            lemma_heap_frame(p2, p3, tc@);
        }
        let (mc, tmc): (u32, Ghost<Tree>) = self.merge(mid, c, Ghost(tm@.turned()), tc);
        let ghost p4 = self.p@;
        proof {
            assert(ta@.ids().disjoint(tmc@.ids())) by {
                assert forall|i: int| ta@.ids().contains(i) implies !tmc@.ids().contains(i) by {}
            }
            assert(ta@.ids().disjoint(tm@.turned().ids().union(tc@.ids())));
            lemma_untouched(p3, p4, tm@.turned().ids().union(tc@.ids()), ta@);
            lemma_heap_frame(p3, p4, ta@);
        }
        let (root, t): (u32, Ghost<Tree>) = self.merge(a, mc, ta, tmc);
        self.root = root;
        self.tree = t;
        proof {
            assert(self@ =~= reversed(s, l as int, r + 1));
            assert(self.priorities() =~= old(self).priorities());
        }
    }

    /// Carries out the mark of the subtree at the end of a path.
    fn push_below(&mut self, x: u32, path: Ghost<Seq<Frame>>, t: Ghost<Tree>)
        requires
            holds(cells(old(self).p@), old(self).root as int, plug(path@, t@)),
            marks_ok(old(self).p@),
            heap(old(self).p@, plug(path@, t@)),
            x == t@.root(),
        ensures
            final(self).root == old(self).root,
            marks_ok(final(self).p@),
            touched(old(self).p@, final(self).p@, t@.ids()),
            holds(cells(final(self).p@), final(self).root as int, plug(path@, t@.pushed())),
            heap(final(self).p@, plug(path@, t@.pushed())),
            plug(path@, t@.pushed()).content() == plug(path@, t@).content(),
    {
        let ghost p0 = self.p@;
        proof {
            lemma_unplug(cells(p0), self.root as int, path@, t@);
            lemma_pushed(t@);
            lemma_heap_unplug(p0, path@, t@);
            lemma_heap_turned(p0, t@);
            lemma_heap_replug(p0, path@, t@, t@.pushed());
            lemma_plug_same(path@, t@, t@.pushed());
        }
        self.push(x, t);
        proof {
            lemma_replug(cells(p0), cells(self.p@), self.root as int, path@, t@, t@.pushed());
            lemma_ids_in_arena(cells(self.p@), self.root as int, plug(path@, t@.pushed()));
            lemma_heap_frame(p0, self.p@, plug(path@, t@.pushed()));
        }
    }

    /// Writes the sequence to `out`; the tree may come to be marked otherwise.
    pub fn collect(&mut self, out: &mut Vec<u32>)
        requires
            old(self).wf(),
        ensures
            final(self).wf(),
            final(self)@ == old(self)@,
            final(self).priorities() == old(self).priorities(),
            final(out)@ == old(self)@,
    {
        out.clear();
        let mut stk: Vec<u32> = Vec::new();
        let mut x: u32 = self.root;
        let ghost s = self@;
        let ghost p0 = self.p@;
        let ghost mut path: Seq<Frame> = Seq::empty();
        let ghost mut t: Tree = self.tree@;
        proof {
            lemma_ids_in_arena(cells(self.p@), x as int, t);
        }
        loop
            invariant
                self.p@.len() > 0,
                same_priorities(self.p@, p0),
                holds(cells(self.p@), self.root as int, plug(path, t)),
                marks_ok(self.p@),
                heap(self.p@, plug(path, t)),
                x == t.root(),
                plug(path, t).content() == s,
                clear(path),
                out@ == before(path),
                stk@.len() == lefts(path).len(),
                forall|k: int| 0 <= k < stk@.len() ==> #[trigger] stk@[k] == lefts(path)[k],
            ensures
                self.p@.len() > 0,
                same_priorities(self.p@, p0),
                holds(cells(self.p@), self.root as int, plug(path, t)),
                marks_ok(self.p@),
                heap(self.p@, plug(path, t)),
                plug(path, t).content() == s,
                out@ == s,
            decreases s.len() - out@.len(),
        {
            while x != 0
                invariant
                    self.p@.len() > 0,
                    same_priorities(self.p@, p0),
                    holds(cells(self.p@), self.root as int, plug(path, t)),
                    marks_ok(self.p@),
                    heap(self.p@, plug(path, t)),
                    x == t.root(),
                    plug(path, t).content() == s,
                    clear(path),
                    out@ == before(path),
                    stk@.len() == lefts(path).len(),
                    forall|k: int| 0 <= k < stk@.len() ==> #[trigger] stk@[k] == lefts(path)[k],
                decreases t.content().len(),
            {
                self.push_below(x, Ghost(path), Ghost(t));
                proof {
                    lemma_pushed(t);
                    lemma_unplug(cells(self.p@), self.root as int, path, t.pushed());
                    let f = Frame { id: x as int, val: self.p@[x as int].val, rev: false, left: true, other: t.pushed().right() };
                    let l = t.pushed().left();
                    assert(f.over(l) == t.pushed());
                    assert(path.push(f).drop_last() =~= path);
                    lemma_ids_in_arena(cells(self.p@), self.p@[x as int].l as int, l);
                    path = path.push(f);
                    t = l;
                }
                stk.push(x);
                x = self.p[x as usize].l;
            }
            proof {
                assert(t == Tree::Leaf) by {
                    lemma_unplug(cells(self.p@), self.root as int, path, t);
                    match t {
                        Tree::Leaf => {},
                        Tree::Node { .. } => {},
                    }
                }
                lemma_plug_content(path, t);
            }
            match stk.pop() {
                None => {
                    proof {
                        lemma_after_none(path);
                        assert(out@ =~= s);
                    }
                    break;
                },
                Some(y) => {
                    let ghost (q, f, u) = lemma_unwind(path, t);
                    proof {
                        assert(before(path) + t.content() =~= before(path));
                        lemma_unplug(cells(self.p@), self.root as int, q.push(f), u);
                        assert(q.push(f).drop_last() =~= q);
                        assert(f.id == y);
                        let c = cells(self.p@);
                        assert(c[y as int].val == f.val);
                        lemma_ids_in_arena(c, c[y as int].r, f.other);
                        let g = Frame { id: f.id, val: f.val, rev: false, left: false, other: u };
                        assert(g.over(f.other) == f.over(u));
                        assert(q.push(g).drop_last() =~= q);
                        path = q.push(g);
                        t = f.other;
                        assert(before(path) =~= (before(q) + u.content()).push(f.val));
                        lemma_plug_content(path, t);
                    }
                    out.push(self.p[y as usize].val);
                    x = self.p[y as usize].r;
                },
            }
        }
        self.tree = Ghost(plug(path, t));
        assert(self.priorities() =~= old(self).priorities());
    }

    /// Adds a node for `v` with a random priority to the arena.
    fn new_node(&mut self, v: u32) -> (x: u32)
        requires
            old(self).p@.len() <= u32::MAX,
        ensures
            x == old(self).p@.len(),
            final(self).p@.len() == old(self).p@.len() + 1,
            final(self).p@.drop_last() == old(self).p@,
            final(self).p@.last().val == v,
            final(self).p@.last().l == 0,
            final(self).p@.last().r == 0,
            final(self).p@.last().rev == 0,
            final(self).p@.last().pri == priority(next_state(old(self).rng)),
            final(self).rng == next_state(old(self).rng),
            final(self).root == old(self).root,
    {
        let pri: u32 = (splitmix64(&mut self.rng) >> 32) as u32;
        let x: u32 = self.p.len() as u32;
        self.p.push(TreapNode { l: 0, r: 0, pri, sz: 1, val: v, rev: 0 });
        proof {
            assert(self.p@.drop_last() =~= old(self).p@);
        }
        x
    }

    /// Takes the nodes that come after `x` in priority off the end of the spine `st`; they
    /// become the tree at the returned number.
    fn unwind_spine(&self, st: &mut Vec<u32>, x: u32, ls: Ghost<Seq<Tree>>) -> (res: (
        u32,
        Ghost<Tree>,
        Ghost<Seq<Tree>>,
    ))
        requires
            0 < x < self.p@.len(),
            spine_ok(self.p@, old(st)@, ls@, 0, Tree::Leaf, x as int),
        ensures
            spine_ok(self.p@, final(st)@, res.2@, res.0 as int, res.1@, x as int),
            spine_content(self.p@, final(st)@, res.2@) + res.1@.content() == spine_content(
                self.p@,
                old(st)@,
                ls@,
            ),
            forall|i: int| #[trigger]
                res.1@.ids().contains(i) ==> self.p@[x as int].pri <= self.p@[i].pri,
            final(st)@.len() > 0 ==> final(st)@[0] == old(st)@[0] && self.p@[final(st)@.last() as int].pri
                <= self.p@[x as int].pri,
    {
        let ghost p = self.p@;
        let ghost hi = x as int;
        let ghost want = spine_content(p, st@, ls@);
        let mut last: u32 = 0;
        let ghost mut tail: Tree = Tree::Leaf;
        let ghost mut lss: Seq<Tree> = ls@;
        proof {
            assert(want + tail.content() =~= want);
            lemma_spine_numbers(p, st@, lss, 0, tail, hi);
            assert(tail.ids() == Set::<int>::empty());
        }
        while st.len() > 0 && self.p[st[st.len() - 1] as usize].pri > self.p[x as usize].pri
            invariant
                self.p@ == p,
                x == hi,
                0 < x < p.len(),
                spine_ok(p, st@, lss, last as int, tail, hi),
                spine_content(p, st@, lss) + tail.content() == want,
                forall|i: int| #[trigger] tail.ids().contains(i) ==> p[x as int].pri <= p[i].pri,
                forall|k: int| 0 <= k < st@.len() ==> (#[trigger] st@[k]) < p.len(),
                st@.len() > 0 ==> st@[0] == old(st)@[0],
            decreases st@.len(),
        {
            let ghost stb = st@;
            let ghost u = lemma_spine_fold(p, stb, lss, last as int, tail, hi);
            proof {
                lemma_heap_root(p, u);
                assert forall|i: int| #[trigger] u.ids().contains(i) implies p[x as int].pri <= p[i].pri by {
                    assert(p[u.root()].pri <= p[i].pri);
                }
            }
            last = st[st.len() - 1];
            st.pop();
            proof {
                assert(st@ =~= stb.drop_last());
                tail = u;
                lss = lss.drop_last();
            }
        }
        (last, Ghost(tail), Ghost(lss))
    }

    /// Puts the last node, `x`, at the end of the spine `st`, over the tree at `last`.
    fn hang(&mut self, st: &mut Vec<u32>, x: u32, last: u32, tail: Ghost<Tree>, ls: Ghost<Seq<Tree>>)
        requires
            0 < x,
            x + 1 == old(self).p@.len(),
            spine_ok(old(self).p@, old(st)@, ls@, last as int, tail@, x as int),
            forall|i: int| #[trigger]
                tail@.ids().contains(i) ==> old(self).p@[x as int].pri <= old(self).p@[i].pri,
            old(st)@.len() > 0 ==> old(self).p@[old(st)@.last() as int].pri <= old(self).p@[x as int].pri,
            forall|i: int| 0 <= i < old(self).p@.len() ==> (#[trigger] old(self).p@[i]).rev == 0,
            old(self).p@[x as int].r == 0,
            old(self).p@[0].l == 0,
            old(self).p@[0].r == 0,
        ensures
            final(self).p@.len() == old(self).p@.len(),
            final(st)@ == old(st)@.push(x),
            spine_ok(final(self).p@, final(st)@, ls@.push(tail@), 0, Tree::Leaf, final(self).p@.len() as int),
            final(self).root == if old(st)@.len() > 0 {
                old(self).root
            } else {
                x
            },
            spine_content(final(self).p@, final(st)@, ls@.push(tail@)) == (spine_content(
                old(self).p@,
                old(st)@,
                ls@,
            ) + tail@.content()).push(old(self).p@[x as int].val),
            final(self).rng == old(self).rng,
            final(self).p@[0].l == 0,
            final(self).p@[0].r == 0,
            forall|i: int|
                0 <= i < old(self).p@.len() ==> (#[trigger] final(self).p@[i]).pri == old(self).p@[i].pri
                    && final(self).p@[i].rev == 0,
    {
        let ghost p1 = self.p@;
        let ghost stm = st@;
        proof {
            lemma_spine_numbers(p1, stm, ls@, last as int, tail@, x as int);
        }
        if st.len() > 0 {
            let top: u32 = st[st.len() - 1];
            self.p[top as usize].r = x;
        } else {
            self.root = x;
        }
        self.p[x as usize].l = last;
        st.push(x);
        proof {
            lemma_spine_push(p1, self.p@, stm, ls@, last as int, tail@, x as int);
            assert(st@ =~= stm.push(x));
        }
    }

    /// Adds a node for `v` at the right end of the tree whose right spine is `st`.
    fn grow(&mut self, st: &mut Vec<u32>, v: u32, ls: Ghost<Seq<Tree>>) -> (nls: Ghost<Seq<Tree>>)
        requires
            0 < old(self).p@.len() <= u32::MAX,
            spine_ok(old(self).p@, old(st)@, ls@, 0, Tree::Leaf, old(self).p@.len() as int),
            old(self).root == if old(st)@.len() > 0 {
                old(st)@[0]
            } else {
                0
            },
            forall|i: int| 0 <= i < old(self).p@.len() ==> (#[trigger] old(self).p@[i]).rev == 0,
            old(self).p@[0].l == 0,
            old(self).p@[0].r == 0,
        ensures
            final(self).p@.len() == old(self).p@.len() + 1,
            final(st)@.len() > 0,
            spine_ok(final(self).p@, final(st)@, nls@, 0, Tree::Leaf, final(self).p@.len() as int),
            final(self).root == final(st)@[0],
            spine_content(final(self).p@, final(st)@, nls@) == spine_content(old(self).p@, old(st)@, ls@).push(v),
            forall|i: int| 0 <= i < final(self).p@.len() ==> (#[trigger] final(self).p@[i]).rev == 0,
            final(self).p@[0].l == 0,
            final(self).p@[0].r == 0,
            forall|i: int|
                0 <= i < old(self).p@.len() ==> (#[trigger] final(self).p@[i]).pri == old(self).p@[i].pri,
            final(self).p@.last().pri == priority(next_state(old(self).rng)),
            final(self).rng == next_state(old(self).rng),
    {
        let ghost p0 = self.p@;
        let ghost st0 = st@;
        let x: u32 = self.new_node(v);
        let ghost p1 = self.p@;
        proof {
            assert forall|i: int| 0 <= i < x implies #[trigger] p1[i] == p0[i] by {
                assert(p1.drop_last()[i] == p1[i]);
            }
            lemma_spine_frame(p0, p1, st0, ls@, 0, Tree::Leaf, x as int);
        }
        let (last, tail, lss): (u32, Ghost<Tree>, Ghost<Seq<Tree>>) = self.unwind_spine(st, x, ls);
        self.hang(st, x, last, tail, lss);
        Ghost(lss@.push(tail@))
    }

    /// The nodes of the tree, every one before its children.
    #[verifier::rlimit(40)]
    fn list_nodes(&self, t: Ghost<Tree>) -> (res: (Vec<u32>, Ghost<Seq<Tree>>))
        requires
            linked(cells(self.p@), self.root as int, t@),
            t@.distinct(),
            t@.content().len() <= u32::MAX,
            0 < self.p@.len(),
            self.p@[0].l == 0,
            self.p@[0].r == 0,
        ensures
            all_linked(self.p@, res.0@, res.1@),
            closed(res.1@, Seq::empty()),
            res.1@.len() > 0,
            res.1@[0] == t@,
    {
        let mut order: Vec<u32> = Vec::new();
        let mut stk: Vec<u32> = Vec::new();
        stk.push(self.root);
        let ghost mut ots: Seq<Tree> = Seq::empty();
        let ghost mut sts: Seq<Tree> = seq![t@];
        while stk.len() > 0
            invariant
                0 < self.p@.len(),
                self.p@[0].l == 0,
                self.p@[0].r == 0,
                all_linked(self.p@, order@, ots),
                all_linked(self.p@, stk@, sts),
                closed(ots, sts),
                ots.len() > 0 ==> ots[0] == t@,
                ots.len() == 0 ==> sts == seq![t@],
            decreases weight(sts),
        {
            let x: u32 = stk[stk.len() - 1];
            let ghost u = sts.last();
            let ghost sts0 = sts;
            proof {
                assert(linked(cells(self.p@), x as int, sts[sts.len() - 1]));
                lemma_ids_in_arena(cells(self.p@), x as int, u);
            }
            stk.pop();
            order.push(x);
            let l: u32 = self.p[x as usize].l;
            let r: u32 = self.p[x as usize].r;
            proof {
                sts = sts.drop_last();
                assert(weight(sts0) == weight(sts) + 2 * u.content().len() + 1);
                lemma_ids_in_arena(cells(self.p@), l as int, u.left());
                lemma_ids_in_arena(cells(self.p@), r as int, u.right());
                lemma_zero(cells(self.p@), x as int, u);
                lemma_zero(cells(self.p@), l as int, u.left());
                lemma_zero(cells(self.p@), r as int, u.right());
                assert(u.left().distinct() && u.right().distinct());
                assert forall|i: int| 0 <= i < sts.len() implies linked(
                    cells(self.p@),
                    stk@[i] as int,
                    #[trigger] sts[i],
                ) && sts[i].distinct() && sts[i].content().len() <= u32::MAX by {
                    assert(sts[i] == sts0[i]);
                }
            }
            if l != 0 {
                stk.push(l);
                proof {
                    let before = sts;
                    sts = sts.push(u.left());
                    assert(sts.drop_last() =~= before);
                    assert(weight(sts) == weight(before) + 2 * u.left().content().len() + 1);
                    assert(sts[sts.len() - 1] == u.left());
                }
            }
            assert(listed(sts, 0, u.left()));
            let ghost sts1 = sts;
            if r != 0 {
                stk.push(r);
                proof {
                    sts = sts.push(u.right());
                    assert(sts.drop_last() =~= sts1);
                    assert(weight(sts) == weight(sts1) + 2 * u.right().content().len() + 1);
                    assert(sts[sts.len() - 1] == u.right());
                }
            }
            proof {
                lemma_listed_more(sts1, sts, 0, u.left());
                assert(listed(sts, 0, u.right()));
                lemma_closed_step(ots, sts0, sts);
                let ots0 = ots;
                ots = ots.push(u);
                assert forall|i: int| 0 <= i < ots.len() implies linked(
                    cells(self.p@),
                    order@[i] as int,
                    #[trigger] ots[i],
                ) && ots[i].distinct() && ots[i].content().len() <= u32::MAX by {
                    if i < ots0.len() {
                        assert(ots[i] == ots0[i]);
                    }
                }
            }
        }
        proof {
            assert(sts =~= Seq::empty());
        }
        (order, Ghost(ots))
    }

    /// Computes the size of the node `xs[k]` when those of the nodes after it are
    /// right.
    fn pull_listed(&mut self, x: u32, k: usize, xs: &Vec<u32>, ts: Ghost<Seq<Tree>>)
        requires
            all_linked(old(self).p@, xs@, ts@),
            closed(ts@, Seq::empty()),
            k < xs@.len(),
            x == xs@[k as int],
            forall|i: int| k < i < ts@.len() ==> sized(cells(old(self).p@), #[trigger] ts@[i]),
            forall|i: int| 0 <= i < old(self).p@.len() ==> (#[trigger] old(self).p@[i]).rev == 0,
        ensures
            final(self).root == old(self).root,
            final(self).p@.len() == old(self).p@.len(),
            forall|i: int|
                0 <= i < old(self).p@.len() ==> (#[trigger] final(self).p@[i]).pri == old(self).p@[i].pri
                    && final(self).p@[i].rev == 0,
            all_linked(final(self).p@, xs@, ts@),
            forall|i: int| k <= i < ts@.len() ==> sized(cells(final(self).p@), #[trigger] ts@[i]),
    {
        let ghost p0 = self.p@;
        let ghost c = cells(p0);
        let ghost t = ts@[k as int];
        assert(linked(c, x as int, t));
        if x == 0 {
            assert(t == Tree::Leaf) by {
                match t {
                    Tree::Leaf => {},
                    Tree::Node { .. } => {},
                }
            }
            return;
        }
        let ghost l = t.left();
        let ghost r = t.right();
        proof {
            assert(listed(ts@, k + 1, l)) by {
                assert(listed(ts@, k + 1, t.left()) || listed(Seq::empty(), 0, t.left()));
            }
            assert(listed(ts@, k + 1, r)) by {
                assert(listed(ts@, k + 1, t.right()) || listed(Seq::empty(), 0, t.right()));
            }
            assert(sized(c, l));
            assert(sized(c, r));
            lemma_ids_in_arena(c, c[x as int].l, l);
            lemma_ids_in_arena(c, c[x as int].r, r);
        }
        self.pull(x, Ghost(l), Ghost(r));
        proof {
            let d = cells(self.p@);
            assert(t == node(x as int, p0[x as int].val, false, l, r));
            assert forall|i: int| 0 <= i < ts@.len() implies linked(d, xs@[i] as int, #[trigger] ts@[i]) by {
                lemma_linked_same(c, d, xs@[i] as int, ts@[i]);
            }
            assert forall|i: int| k <= i < ts@.len() implies sized(d, #[trigger] ts@[i]) by {
                if i > k {
                    assert(linked(c, xs@[i] as int, ts@[i]));
                    if ts@[i].ids().contains(x as int) {
                        lemma_size_below(c, xs@[i] as int, ts@[i], x as int, t);
                        assert(d =~= c);
                    } else {
                        lemma_ids_in_arena(c, xs@[i] as int, ts@[i]);
                        lemma_frame(c, d, xs@[i] as int, ts@[i]);
                    }
                }
            }
        }
    }

    /// Computes the sizes of all nodes of the tree.
    fn fill_sizes(&mut self, t: Ghost<Tree>)
        requires
            linked(cells(old(self).p@), old(self).root as int, t@),
            t@.distinct(),
            0 < old(self).p@.len(),
            t@.content().len() <= u32::MAX,
            old(self).p@[0].l == 0,
            old(self).p@[0].r == 0,
            forall|i: int| 0 <= i < old(self).p@.len() ==> (#[trigger] old(self).p@[i]).rev == 0,
        ensures
            final(self).root == old(self).root,
            holds(cells(final(self).p@), final(self).root as int, t@),
            final(self).p@.len() == old(self).p@.len(),
            forall|i: int|
                0 <= i < old(self).p@.len() ==> (#[trigger] final(self).p@[i]).pri == old(self).p@[i].pri
                    && final(self).p@[i].rev == 0,
    {
        let (order, ts): (Vec<u32>, Ghost<Seq<Tree>>) = self.list_nodes(t);
        let mut k: usize = order.len();
        let ghost p0 = self.p@;
        while k > 0
            invariant
                k <= order@.len(),
                self.root == old(self).root,
                self.p@.len() == p0.len(),
                0 < self.p@.len(),
                forall|i: int|
                    0 <= i < p0.len() ==> (#[trigger] self.p@[i]).pri == p0[i].pri && self.p@[i].rev == 0,
                all_linked(self.p@, order@, ts@),
                closed(ts@, Seq::empty()),
                forall|i: int| k <= i < ts@.len() ==> sized(cells(self.p@), #[trigger] ts@[i]),
            decreases k,
        {
            k = k - 1;
            let x: u32 = order[k];
            self.pull_listed(x, k, &order, ts);
        }
        proof {
            assert(sized(cells(self.p@), ts@[0]));
            assert(linked(cells(self.p@), order@[0] as int, ts@[0]));
            lemma_ids_in_arena(cells(p0), self.root as int, t@);
            lemma_ids_in_arena(cells(self.p@), order@[0] as int, t@);
        }
    }

    /// The treap for the elements of `a`; `seed` decides its shape.
    pub fn new(a: &[u32], seed: u64) -> (t: Treap)
        requires
            a@.len() <= u32::MAX,
        ensures
            t.wf(),
            t@ == a@,
            t.priorities() == drawn_priorities(seed, a@.len()),
            t.unmarked(),
    {
        let mut t = Treap { p: Vec::new(), root: 0, rng: seed, tree: Ghost(Tree::Leaf) };
        t.p.push(TreapNode { l: 0, r: 0, pri: 0, sz: 0, val: 0, rev: 0 });
        let mut st: Vec<u32> = Vec::new();
        let mut ls: Ghost<Seq<Tree>> = Ghost(Seq::empty());
        let mut i: usize = 0;
        proof {
            assert(Tree::Leaf.ids() == Set::<int>::empty());
            assert(spine_ok(t.p@, st@, ls@, 0, Tree::Leaf, t.p@.len() as int));
            assert(a@.take(0) =~= Seq::empty());
        }
        while i < a.len()
            invariant
                i <= a@.len() <= u32::MAX,
                t.p@.len() == i + 1,
                spine_ok(t.p@, st@, ls@, 0, Tree::Leaf, t.p@.len() as int),
                spine_content(t.p@, st@, ls@) == a@.take(i as int),
                t.root == if st@.len() > 0 {
                    st@[0]
                } else {
                    0
                },
                forall|k: int| 0 <= k < t.p@.len() ==> (#[trigger] t.p@[k]).rev == 0,
                t.p@[0].l == 0,
                t.p@[0].r == 0,
                t.rng == state_after(seed, i as nat),
                forall|k: int| 0 < k < t.p@.len() ==> (#[trigger] t.p@[k]).pri == priority(state_after(seed, k as nat)),
            decreases a@.len() - i,
        {
            let ghost before = t.p@;
            ls = t.grow(&mut st, a[i], ls);
            assert forall|k: int| 0 < k < t.p@.len() implies (#[trigger] t.p@[k]).pri == priority(
                state_after(seed, k as nat),
            ) by {
                if k < before.len() {
                    assert(before[k].pri == t.p@[k].pri);
                }
            }
            assert(a@.take(i + 1) =~= a@.take(i as int).push(a@[i as int]));
            i = i + 1;
        }
        let ghost tree = lemma_spine_tree(t.p@, st@, ls@, 0, Tree::Leaf, t.p@.len() as int);
        proof {
            assert(tree.content() =~= a@);
        }
        let ghost p0 = t.p@;
        t.fill_sizes(Ghost(tree));
        t.tree = Ghost(tree);
        proof {
            lemma_ids_in_arena(cells(t.p@), t.root as int, tree);
            lemma_heap_frame(p0, t.p@, tree);
            assert forall|i: int| 0 <= i < a@.len() implies t.priorities()[i] == priority(
                state_after(seed, (i + 1) as nat),
            ) by {
                assert(t.p@[i + 1].pri == p0[i + 1].pri);
            }
        }
        t
    }
}

} // verus!
