//! A splay tree without keys: a binary tree in an arena, ordered by position, with
//! parent links and lazy marks, between two sentinel nodes. The node that is looked
//! up is moved to the top by rotations.
use vstd::prelude::*;

verus! {

use crate::seqs::{lemma_reversed_middle, reversed};
use crate::tree::{after, before, clear, holds, lefts, linked, node, plug, sized, Cell, Frame, Tree};
use crate::tree::{
    lemma_above,
    lemma_after_none,
    lemma_frame,
    lemma_ids_in_arena,
    lemma_over,
    lemma_plug_content,
    lemma_plug_same,
    lemma_pushed,
    lemma_replug,
    lemma_turned,
    lemma_turned_linked,
    lemma_unplug,
    lemma_unwind,
    lemma_zero,
};

/// The largest number of elements: twice the number of nodes must fit 32 bits.
pub const MAX_LEN: usize = 0x7fff_fffd;

#[derive(Clone, Copy)]
pub struct SplayNode {
    l: u32,
    r: u32,
    p: u32,
    sz: u32,
    val: u32,
    rev: u8,
}

/// A sequence of numbers that supports range reversal.
pub struct Splay {
    p: Vec<SplayNode>,
    root: u32,
    n: u32,
    tree: Ghost<Tree>,
}

/// The node with number `i`; in the tree it carries its number.
spec fn cell(n: SplayNode, i: int) -> Cell {
    Cell { l: n.l as int, r: n.r as int, val: i as u32, rev: n.rev != 0, sz: n.sz as int }
}

spec fn cells(p: Seq<SplayNode>) -> Seq<Cell> {
    Seq::new(p.len(), |i: int| cell(p[i], i))
}

/// Marks are bits, and the empty tree has size 0.
spec fn marks_ok(p: Seq<SplayNode>) -> bool {
    &&& 0 < p.len() <= u32::MAX
    &&& p[0].sz == 0
    &&& forall|i: int| 0 <= i < p.len() ==> (#[trigger] p[i]).rev <= 1
}

/// The parent links of the nodes of `t` are right when the parent of its root is
/// `par`.
spec fn parents(p: Seq<SplayNode>, t: Tree, par: int) -> bool
    decreases t,
{
    match t {
        Tree::Leaf => true,
        Tree::Node { id, l, r, .. } => {
            &&& p[id].p == par
            &&& parents(p, *l, id)
            &&& parents(p, *r, id)
        },
    }
}

/// `q` is `p` but for the links, marks and sizes of the nodes in `s`.
spec fn touched(p: Seq<SplayNode>, q: Seq<SplayNode>, s: Set<int>) -> bool {
    &&& q.len() == p.len()
    &&& forall|i: int|
        0 <= i < p.len() ==> (#[trigger] q[i]).val == p[i].val && (!s.contains(i) ==> q[i] == p[i])
}

proof fn lemma_parents_frame(p: Seq<SplayNode>, q: Seq<SplayNode>, t: Tree, par: int)
    requires
        parents(p, t, par),
        forall|i: int| #[trigger] t.ids().contains(i) ==> q[i].p == p[i].p,
    ensures
        parents(q, t, par),
    decreases t,
{
    match t {
        Tree::Leaf => {},
        Tree::Node { id, l, r, .. } => {
            assert(t.ids().contains(id));
            assert forall|i: int| #[trigger] l.ids().contains(i) implies q[i].p == p[i].p by {
                assert(t.ids().contains(i));
            }
            assert forall|i: int| #[trigger] r.ids().contains(i) implies q[i].p == p[i].p by {
                assert(t.ids().contains(i));
            }
            lemma_parents_frame(p, q, *l, id);
            lemma_parents_frame(p, q, *r, id);
        },
    }
}

/// Giving a tree another parent takes only its root's link.
proof fn lemma_reparent(p: Seq<SplayNode>, q: Seq<SplayNode>, t: Tree, par: int, par1: int)
    requires
        parents(p, t, par),
        t.distinct(),
        forall|i: int| #[trigger] t.ids().contains(i) && i != t.root() ==> q[i].p == p[i].p,
        t != Tree::Leaf ==> q[t.root()].p == par1,
    ensures
        parents(q, t, par1),
{
    match t {
        Tree::Leaf => {},
        Tree::Node { id, l, r, .. } => {
            assert forall|i: int| #[trigger] l.ids().contains(i) implies q[i].p == p[i].p by {
                assert(t.ids().contains(i));
            }
            assert forall|i: int| #[trigger] r.ids().contains(i) implies q[i].p == p[i].p by {
                assert(t.ids().contains(i));
            }
            lemma_parents_frame(p, q, *l, id);
            lemma_parents_frame(p, q, *r, id);
        },
    }
}

proof fn lemma_parents_turned(p: Seq<SplayNode>, t: Tree, par: int)
    requires
        parents(p, t, par),
    ensures
        parents(p, t.turned(), par),
        parents(p, t.pushed(), par),
    decreases t,
{
    match t {
        Tree::Leaf => {},
        Tree::Node { id, l, r, .. } => {
            lemma_parents_turned(p, *l, id);
            lemma_parents_turned(p, *r, id);
        },
    }
}

/// The balanced tree of the nodes from `l` to `r`: the root is the middle one, and the
/// two halves are balanced trees.
pub open spec fn balanced(l: int, r: int) -> Tree
    decreases r + 1 - l,
{
    if l > r {
        Tree::Leaf
    } else {
        let m = (l + r) / 2;
        node(m, m as u32, false, balanced(l, m - 1), balanced(m + 1, r))
    }
}

/// The parent of the subtree at the end of a path.
spec fn parent_of(path: Seq<Frame>) -> int {
    if path.len() == 0 {
        0
    } else {
        path.last().id
    }
}

proof fn lemma_parents_unplug(p: Seq<SplayNode>, path: Seq<Frame>, t: Tree)
    requires
        parents(p, plug(path, t), 0),
    ensures
        parents(p, t, parent_of(path)),
        path.len() > 0 ==> parents(p, path.last().over(t), parent_of(path.drop_last())),
    decreases path.len(),
{
    if path.len() > 0 {
        lemma_parents_unplug(p, path.drop_last(), path.last().over(t));
    }
}

proof fn lemma_parents_replug(p: Seq<SplayNode>, q: Seq<SplayNode>, path: Seq<Frame>, t: Tree, u: Tree)
    requires
        parents(p, plug(path, t), 0),
        plug(path, t).distinct(),
        parents(q, u, parent_of(path)),
        forall|i: int| 0 <= i < p.len() && !t.ids().contains(i) ==> (#[trigger] q[i]).p == p[i].p,
        forall|i: int| #[trigger] plug(path, t).ids().contains(i) ==> 0 <= i < p.len(),
    ensures
        parents(q, plug(path, u), 0),
    decreases path.len(),
{
    if path.len() > 0 {
        let f = path.last();
        lemma_parents_unplug(p, path, t);
        lemma_within(path, t);
        lemma_within(path.drop_last(), f.over(t));
        assert forall|i: int| #[trigger] f.other.ids().contains(i) implies q[i].p == p[i].p by {
            assert(f.over(t).ids().contains(i));
            assert(plug(path, t).ids().contains(i));
        }
        assert(f.over(t).ids().contains(f.id));
        assert(plug(path, t).ids().contains(f.id));
        lemma_parents_frame(p, q, f.other, f.id);
        lemma_parents_replug(p, q, path.drop_last(), f.over(t), f.over(u));
    }
}

/// The nodes at the end of a path are nodes of the tree, and it has no node twice.
proof fn lemma_within(path: Seq<Frame>, t: Tree)
    requires
        plug(path, t).distinct(),
    ensures
        t.distinct(),
        forall|i: int| #[trigger] t.ids().contains(i) ==> plug(path, t).ids().contains(i),
        path.len() > 0 ==> plug(path, t).root() == path[0].id && !t.ids().contains(path[0].id),
        path.len() > 0 ==> path.last().over(t).distinct(),
    decreases path.len(),
{
    if path.len() > 0 {
        let f = path.last();
        lemma_within(path.drop_last(), f.over(t));
        assert forall|i: int| #[trigger] t.ids().contains(i) implies plug(path, t).ids().contains(i) by {
            assert(f.over(t).ids().contains(i));
        }
        if path.len() > 1 {
            assert(path.drop_last()[0] == path[0]);
            if t.ids().contains(path[0].id) {
                assert(f.over(t).ids().contains(path[0].id));
            }
        }
    }
}

/// The arena holds the tree in which `path` leads to `t`.
spec fn stands(p: Seq<SplayNode>, path: Seq<Frame>, t: Tree) -> bool {
    &&& holds(cells(p), plug(path, t).root(), plug(path, t))
    &&& parents(p, plug(path, t), 0)
    &&& marks_ok(p)
}

/// The subtree at `f` after its child on the path, the root of `t`, has taken its
/// place.
spec fn rotated(f: Frame, t: Tree) -> Tree {
    match t {
        Tree::Leaf => t,
        Tree::Node { id, val, l, r, .. } => if f.left {
            node(id, val, false, *l, node(f.id, f.val, false, *r, f.other))
        } else {
            node(id, val, false, node(f.id, f.val, false, f.other, *l), *r)
        },
    }
}

proof fn lemma_rotated(f: Frame, t: Tree)
    requires
        t matches Tree::Node { rev, .. } && !rev,
        !f.rev,
        f.over(t).distinct(),
    ensures
        rotated(f, t).content() == f.over(t).content(),
        rotated(f, t).ids() == f.over(t).ids(),
        rotated(f, t).distinct(),
        rotated(f, t).root() == t.root(),
        f.left ==> rotated(f, t).left().content() == t.left().content(),
        !f.left ==> rotated(f, t).left().content() == f.other.content() + seq![f.val] + t.left().content(),
        f.id != t.root(),
{
    reveal_with_fuel(Tree::content, 3);
    reveal_with_fuel(Tree::ids, 3);
    reveal_with_fuel(Tree::distinct, 3);
    let y = f.over(t);
    let u = rotated(f, t);
    assert(u.content() =~= y.content());
    assert(u.ids() =~= y.ids());
    assert(t.ids().contains(t.root()));
    if f.left {
        let low = node(f.id, f.val, false, t.right(), f.other);
        assert forall|i: int| t.left().ids().contains(i) implies !(#[trigger] low.ids().contains(i)) by {
            assert(t.ids().contains(i));
        }
        assert forall|i: int| t.right().ids().contains(i) implies #[trigger] t.ids().contains(i) by {}
        assert(t.left().ids().disjoint(low.ids()));
        assert(!low.ids().contains(t.root()));
        assert(low.distinct());
    } else {
        let low = node(f.id, f.val, false, f.other, t.left());
        assert forall|i: int| t.right().ids().contains(i) implies !(#[trigger] low.ids().contains(i)) by {
            assert(t.ids().contains(i));
        }
        assert forall|i: int| t.left().ids().contains(i) implies #[trigger] t.ids().contains(i) by {}
        assert(low.ids().disjoint(t.right().ids()));
        assert(!low.ids().contains(t.root()));
        assert(low.distinct());
    }
}

/// The subtree between the two nodes of a rotation, which changes its parent.
spec fn inner(f: Frame, t: Tree) -> Tree {
    if f.left {
        t.right()
    } else {
        t.left()
    }
}

/// The subtree of the lower node of a rotation that stays with it.
spec fn outer(f: Frame, t: Tree) -> Tree {
    if f.left {
        t.left()
    } else {
        t.right()
    }
}

/// The child of `x` that a rotation over `y` gives to `y`.
spec fn moved(p: Seq<SplayNode>, x: u32, y: u32) -> u32 {
    if p[y as int].l == x {
        p[x as int].r
    } else {
        p[x as int].l
    }
}

/// `z` with the child `y`, which is on the side given by `left`, replaced by `x`.
spec fn with_child(z: SplayNode, left: bool, x: u32) -> SplayNode {
    if left {
        SplayNode { l: x, ..z }
    } else {
        SplayNode { r: x, ..z }
    }
}

/// What a rotation does to the whole tree.
proof fn lemma_rotation(p0: Seq<SplayNode>, p1: Seq<SplayNode>, path: Seq<Frame>, t: Tree)
    requires
        stands(p0, path, t),
        path.len() > 0,
        !path.last().rev,
        t matches Tree::Node { rev, .. } && !rev,
        p1.len() == p0.len(),
        marks_ok(p1),
        holds(cells(p1), t.root(), rotated(path.last(), t)),
        p1[t.root()].p == parent_of(path.drop_last()),
        p1[path.last().id].p == t.root(),
        inner(path.last(), t) != Tree::Leaf ==> p1[inner(path.last(), t).root()].p == path.last().id,
        forall|i: int|
            0 <= i < p0.len() && !path.last().over(t).ids().contains(i) && i != parent_of(
                path.drop_last(),
            ) ==> #[trigger] p1[i] == p0[i],
        forall|i: int|
            0 <= i < p0.len() && i != t.root() && i != path.last().id && (inner(path.last(), t) == Tree::Leaf || i
                != inner(path.last(), t).root()) ==> (#[trigger] p1[i]).p == p0[i].p,
        path.len() > 1 ==> p1[path[path.len() - 2].id] == with_child(
            p0[path[path.len() - 2].id],
            path[path.len() - 2].left,
            t.root() as u32,
        ),
        forall|i: int| 0 <= i < p0.len() ==> (#[trigger] p1[i]).val == p0[i].val,
    ensures
        stands(p1, path.drop_last(), rotated(path.last(), t)),
        plug(path.drop_last(), rotated(path.last(), t)).content() == plug(path, t).content(),
{
    let f = path.last();
    let q = path.drop_last();
    let u = rotated(f, t);
    let y = f.over(t);
    let w = plug(path, t);
    let c0 = cells(p0);
    let c1 = cells(p1);
    lemma_unplug(c0, w.root(), path, t);
    lemma_unplug(c0, w.root(), q, y);
    lemma_ids_in_arena(c0, w.root(), w);
    lemma_rotated(f, t);
    lemma_plug_same(q, y, u);
    // The parent links.
    lemma_parents_unplug(p0, path, t);
    lemma_parents_below(p0, p1, f, t, parent_of(q));
    lemma_parents_replug(p0, p1, q, y, u);
    // The child links.
    if q.len() > 0 {
        let g = q.last();
        let z = g.id;
        assert(g == path[path.len() - 2]);
        let gy = g.over(y);
        let gu = g.over(u);
        let r = q.drop_last();
        lemma_unplug(c0, w.root(), r, gy);
        assert(holds(c0, z, gy));
        lemma_ids_in_arena(c0, z, gy);
        assert(gu.ids() =~= gy.ids());
        assert(gy.ids().contains(z));
        assert forall|i: int| #[trigger] g.other.ids().contains(i) implies c1[i] == c0[i] by {
            assert(gy.ids().contains(i));
            assert(!y.ids().contains(i));
            assert(i != z);
        }
        assert(0 < t.root() < p0.len()) by {
            assert(y.ids().contains(t.root())) by {
                assert(t.ids().contains(t.root()));
            }
            assert(w.ids().contains(t.root()));
        }
        if g.left {
            lemma_ids_in_arena(c0, c0[z].r, g.other);
            lemma_frame(c0, c1, g.other.root(), g.other);
            lemma_over(c1, c1, z, u, g.other);
        } else {
            lemma_ids_in_arena(c0, c0[z].l, g.other);
            lemma_frame(c0, c1, g.other.root(), g.other);
            lemma_over(c1, c1, z, g.other, u);
        }
        assert forall|i: int| 0 <= i < c0.len() && !gy.ids().contains(i) implies #[trigger] c1[i] == c0[i] by {
            assert(p1[i] == p0[i]);
        }
        lemma_replug(c0, c1, w.root(), r, gy, gu);
        assert(plug(q, u) == plug(r, gu));
        lemma_ids_in_arena(c1, w.root(), plug(r, gu));
    } else {
        assert(plug(q, u) == u);
    }
}

/// The parent links below a rotation.
proof fn lemma_parents_below(p0: Seq<SplayNode>, p1: Seq<SplayNode>, f: Frame, t: Tree, z: int)
    requires
        t matches Tree::Node { rev, .. } && !rev,
        f.over(t).distinct(),
        parents(p0, f.over(t), z),
        forall|i: int| #[trigger] f.over(t).ids().contains(i) ==> 0 <= i < p0.len(),
        p1[t.root()].p == z,
        p1[f.id].p == t.root(),
        inner(f, t) != Tree::Leaf ==> p1[inner(f, t).root()].p == f.id,
        forall|i: int|
            0 <= i < p0.len() && i != t.root() && i != f.id && (inner(f, t) == Tree::Leaf || i != inner(
                f,
                t,
            ).root()) ==> (#[trigger] p1[i]).p == p0[i].p,
    ensures
        parents(p1, rotated(f, t), z),
{
    let a = outer(f, t);
    let b = inner(f, t);
    let c = f.other;
    let x = t.root();
    assert(parents(p0, t, f.id));
    assert(t.distinct());
    assert(a.distinct() && b.distinct() && a.ids().disjoint(b.ids()));
    assert forall|i: int| #[trigger] a.ids().contains(i) implies p1[i].p == p0[i].p by {
        assert(t.ids().contains(i));
        assert(f.over(t).ids().contains(i));
        if b != Tree::Leaf {
            assert(b.ids().contains(b.root()));
        }
    }
    assert forall|i: int| #[trigger] b.ids().contains(i) && i != b.root() implies p1[i].p == p0[i].p by {
        assert(t.ids().contains(i));
        assert(f.over(t).ids().contains(i));
    }
    assert forall|i: int| #[trigger] c.ids().contains(i) implies p1[i].p == p0[i].p by {
        assert(f.over(t).ids().contains(i));
        assert(!t.ids().contains(i));
        assert(t.ids().contains(x));
        if b != Tree::Leaf {
            assert(b.ids().contains(b.root()));
            assert(t.ids().contains(b.root()));
        }
    }
    lemma_parents_frame(p0, p1, a, x);
    lemma_reparent(p0, p1, b, x, f.id);
    lemma_parents_frame(p0, p1, c, f.id);
    reveal_with_fuel(parents, 3);
}

/// The three subtrees around the two nodes of a rotation.
proof fn lemma_parts(c: Seq<Cell>, f: Frame, t: Tree)
    requires
        holds(c, f.id, f.over(t)),
        t matches Tree::Node { rev, .. } && !rev,
        !f.rev,
    ensures
        ({
            let a = outer(f, t);
            let b = inner(f, t);
            let o = f.other;
            let x = t.root();
            let y = f.id;
            let w = f.over(t).ids();
            &&& holds(c, a.root(), a)
            &&& holds(c, b.root(), b)
            &&& holds(c, o.root(), o)
            &&& a.ids().disjoint(b.ids())
            &&& a.ids().disjoint(o.ids())
            &&& b.ids().disjoint(o.ids())
            &&& 0 < x < c.len()
            &&& 0 < y < c.len()
            &&& x != y
            &&& c[x].val == rotated(f, t)->val
            &&& !c[x].rev
            &&& !c[y].rev
            &&& c[y].val == f.val
            &&& w.contains(x)
            &&& w.contains(y)
            &&& !a.ids().contains(x) && !a.ids().contains(y)
            &&& !b.ids().contains(x) && !b.ids().contains(y)
            &&& !o.ids().contains(x) && !o.ids().contains(y)
            &&& forall|i: int| #[trigger] a.ids().contains(i) ==> w.contains(i)
            &&& forall|i: int| #[trigger] b.ids().contains(i) ==> w.contains(i)
            &&& forall|i: int| #[trigger] o.ids().contains(i) ==> w.contains(i)
            &&& forall|i: int| #[trigger] w.contains(i) ==> 0 < i < c.len()
            &&& f.left ==> c[y].l == x && c[y].r == o.root() && c[x].l == a.root() && c[x].r == b.root()
            &&& !f.left ==> c[y].r == x && c[y].l == o.root() && c[x].r == a.root() && c[x].l == b.root()
            &&& o.root() != x
            &&& b.root() != 0 <==> b != Tree::Leaf
            &&& b.root() != 0 ==> b.ids().contains(b.root())
            &&& b.root() != x && b.root() != y
            &&& c[y].sz == a.content().len() + b.content().len() + o.content().len() + 2
            &&& rotated(f, t) == if f.left {
                node(x, c[x].val, false, a, node(y, f.val, false, b, o))
            } else {
                node(x, c[x].val, false, node(y, f.val, false, o, b), a)
            }
        }),
{
    let a = outer(f, t);
    let b = inner(f, t);
    let o = f.other;
    let x = t.root();
    let y = f.id;
    let yt = f.over(t);
    assert(t.distinct());
    lemma_ids_in_arena(c, y, yt);
    if f.left {
        lemma_ids_in_arena(c, c[y].l, t);
        lemma_ids_in_arena(c, c[y].r, o);
    } else {
        lemma_ids_in_arena(c, c[y].r, t);
        lemma_ids_in_arena(c, c[y].l, o);
    }
    assert(linked(c, x, t) && sized(c, t));
    lemma_ids_in_arena(c, c[x].l, t.left());
    lemma_ids_in_arena(c, c[x].r, t.right());
    assert(linked(c, a.root(), a) && linked(c, b.root(), b) && linked(c, o.root(), o));
    assert(a.distinct() && b.distinct() && a.ids().disjoint(b.ids()));
    lemma_zero(c, b.root(), b);
    lemma_zero(c, o.root(), o);
    lemma_zero(c, x, t);
    assert(t.ids().contains(x));
    assert(yt.ids().contains(x) && yt.ids().contains(y));
    assert forall|i: int| #[trigger] a.ids().contains(i) implies yt.ids().contains(i) && !o.ids().contains(i) && i != y by {
        assert(t.ids().contains(i));
    }
    assert forall|i: int| #[trigger] b.ids().contains(i) implies yt.ids().contains(i) && !o.ids().contains(i) && i != y by {
        assert(t.ids().contains(i));
    }
    assert(a.ids().disjoint(o.ids()));
    assert(b.ids().disjoint(o.ids()));
    assert(b != Tree::Leaf ==> b.ids().contains(b.root()));
    assert(o != Tree::Leaf ==> o.ids().contains(o.root()));
}

/// The last step of a path, as the arena shows it.
proof fn lemma_step(p: Seq<SplayNode>, path: Seq<Frame>, t: Tree)
    requires
        stands(p, path, t),
        t != Tree::Leaf,
    ensures
        holds(cells(p), t.root(), t),
        0 < t.root() < p.len(),
        p[t.root()].p == parent_of(path),
        path.len() > 0 ==> {
            let y = path.last().id;
            &&& 0 < y < p.len()
            &&& holds(cells(p), y, path.last().over(t))
            &&& stands(p, path.drop_last(), path.last().over(t))
            &&& p[y].p == parent_of(path.drop_last())
            &&& !path.last().over(t).ids().contains(parent_of(path.drop_last()))
            &&& 0 <= parent_of(path.drop_last()) < p.len()
            &&& (p[y].l == t.root()) == path.last().left
            &&& (p[y].r == t.root()) == !path.last().left
        },
        path.len() > 0 ==> path[0].id != 0 && path[0].id == plug(path, t).root(),
{
    let c = cells(p);
    let w = plug(path, t);
    lemma_unplug(c, w.root(), path, t);
    lemma_parents_unplug(p, path, t);
    lemma_ids_in_arena(c, t.root(), t);
    assert(t.ids().contains(t.root()));
    lemma_ids_in_arena(c, w.root(), w);
    lemma_within(path, t);
    if path.len() > 0 {
        let f = path.last();
        let yt = f.over(t);
        let q = path.drop_last();
        lemma_unplug(c, w.root(), q, yt);
        lemma_within(q, yt);
        assert(yt.ids().contains(f.id));
        assert(w.ids().contains(f.id));
        if f.left {
            lemma_ids_in_arena(c, c[f.id].l, t);
            lemma_ids_in_arena(c, c[f.id].r, f.other);
        } else {
            lemma_ids_in_arena(c, c[f.id].r, t);
            lemma_ids_in_arena(c, c[f.id].l, f.other);
        }
        assert(f.other.root() != t.root()) by {
            if f.other != Tree::Leaf {
                assert(f.other.ids().contains(f.other.root()));
            }
        }
        if q.len() > 0 {
            let g = q.last();
            lemma_unplug(c, w.root(), q.drop_last(), g.over(yt));
            lemma_within(q.drop_last(), g.over(yt));
            assert(g.over(yt).ids().contains(g.id));
            assert(w.ids().contains(g.id));
            assert(path[0] == q[0]);
            assert(!yt.ids().contains(q[0].id));
        } else {
            assert(!yt.ids().contains(0)) by {
                if yt.ids().contains(0) {
                    assert(w.ids().contains(0));
                }
            }
        }
    }
}

/// What comes before the root of `t`, to which a path without marks leads.
spec fn prefix(path: Seq<Frame>, t: Tree) -> Seq<u32> {
    before(path) + t.left().content()
}

/// A rotation changes nothing of what comes before the node.
proof fn lemma_prefix_rotated(path: Seq<Frame>, t: Tree)
    requires
        path.len() > 0,
        !path.last().rev,
        t matches Tree::Node { rev, .. } && !rev,
        path.last().over(t).distinct(),
    ensures
        prefix(path.drop_last(), rotated(path.last(), t)) == prefix(path, t),
{
    lemma_rotated(path.last(), t);
    assert(prefix(path.drop_last(), rotated(path.last(), t)) =~= prefix(path, t));
}

/// The path to `t` after its parent has been rotated over the grandparent on the same
/// side.
spec fn straightened(path: Seq<Frame>) -> Seq<Frame> {
    let fy = path.last();
    let fz = path[path.len() - 2];
    path.take(path.len() - 2).push(
        Frame {
            id: fy.id,
            val: fy.val,
            rev: false,
            left: fy.left,
            other: if fy.left {
                node(fz.id, fz.val, false, fy.other, fz.other)
            } else {
                node(fz.id, fz.val, false, fz.other, fy.other)
            },
        },
    )
}

proof fn lemma_straightened(path: Seq<Frame>, t: Tree)
    requires
        path.len() > 1,
        path.last().left == path[path.len() - 2].left,
    ensures
        plug(straightened(path), t) == plug(
            path.drop_last().drop_last(),
            rotated(path[path.len() - 2], path.last().over(t)),
        ),
        before(straightened(path)) == before(path),
        straightened(path).len() == path.len() - 1,
{
    let fy = path.last();
    let fz = path[path.len() - 2];
    let top = path.take(path.len() - 2);
    let n = straightened(path);
    assert(path.drop_last().drop_last() =~= top);
    assert(n.drop_last() =~= top);
    assert(n.last().over(t) == rotated(fz, fy.over(t)));
    assert(path.drop_last().last() == fz);
    reveal_with_fuel(Tree::content, 2);
    assert(before(path) =~= before(n)) by {
        if !fy.left {
            assert(before(path) == before(path.drop_last()) + (fy.other.content() + seq![fy.val]));
            assert(before(path.drop_last()) == before(top) + (fz.other.content() + seq![fz.val]));
            assert(n.last().other.content() =~= fz.other.content() + seq![fz.val] + fy.other.content());
        } else {
            assert(before(path) == before(path.drop_last()));
            assert(before(path.drop_last()) == before(top));
        }
    }
}

/// A tree of distinct nodes lists none of them twice.
proof fn lemma_no_repeats(c: Seq<Cell>, x: int, t: Tree)
    requires
        linked(c, x, t),
        t.distinct(),
        c.len() <= u32::MAX,
        forall|i: int| 0 <= i < c.len() ==> (#[trigger] c[i]).val == i,
    ensures
        t.content().no_duplicates(),
        forall|k: int| 0 <= k < t.content().len() ==> t.ids().contains(#[trigger] t.content()[k] as int),
    decreases t,
{
    match t {
        Tree::Leaf => {},
        Tree::Node { id, val, rev, l, r } => {
            lemma_no_repeats(c, c[x].l, *l);
            lemma_no_repeats(c, c[x].r, *r);
            let a = l.content();
            let b = r.content();
            let s = a + seq![val] + b;
            assert(val == id);
            assert forall|k: int| 0 <= k < s.len() implies t.ids().contains(#[trigger] s[k] as int) by {
                if k < a.len() {
                    assert(l.ids().contains(a[k] as int));
                } else if k > a.len() {
                    assert(r.ids().contains(b[k - a.len() - 1] as int));
                }
            }
            assert forall|i: int, j: int| 0 <= i < s.len() && 0 <= j < s.len() && i != j implies s[i] != s[j] by {
                assert(i < a.len() ==> l.ids().contains(a[i] as int));
                assert(j < a.len() ==> l.ids().contains(a[j] as int));
                assert(i > a.len() ==> r.ids().contains(b[i - a.len() - 1] as int));
                assert(j > a.len() ==> r.ids().contains(b[j - a.len() - 1] as int));
            }
            assert(s.no_duplicates());
            if rev {
                assert forall|k: int| 0 <= k < t.content().len() implies t.ids().contains(
                    #[trigger] t.content()[k] as int,
                ) by {
                    assert(t.content()[k] == s[s.len() - 1 - k]);
                }
                assert forall|i: int, j: int|
                    0 <= i < t.content().len() && 0 <= j < t.content().len() && i != j implies t.content()[i]
                    != t.content()[j] by {
                    assert(s[s.len() - 1 - i] != s[s.len() - 1 - j]);
                }
            }
        },
    }
}

/// Where the node at the end of a path stands in the order.
proof fn lemma_rank(p: Seq<SplayNode>, path: Seq<Frame>, t: Tree)
    requires
        stands(p, path, t),
        t matches Tree::Node { rev, .. } && !rev,
        clear(path),
    ensures
        plug(path, t).content().no_duplicates(),
        prefix(path, t).len() < plug(path, t).content().len(),
        plug(path, t).content()[prefix(path, t).len() as int] == t.root(),
{
    let c = cells(p);
    let w = plug(path, t);
    lemma_no_repeats(c, w.root(), w);
    lemma_plug_content(path, t);
    lemma_step(p, path, t);
    assert(t.content() == t.left().content() + seq![t->val] + t.right().content());
    assert(t->val == t.root());
}

/// Two levels under the root: the nodes `a` and `b` in the order, and what is between
/// them.
proof fn lemma_between(p: Seq<SplayNode>, path: Seq<Frame>, t: Tree, l: int, r: int)
    requires
        stands(p, path, t),
        t matches Tree::Node { rev, .. } && !rev,
        path.len() == 1,
        clear(path),
        0 <= l < r < plug(path, t).content().len(),
        prefix(path, t).len() == r,
        plug(path, t).content()[l] == path[0].id,
    ensures
        !path[0].left,
        path[0].other.content().len() == l,
        t.left().content().len() == r - l - 1,
        p[path[0].id].r == t.root(),
        0 <= path[0].id < p.len(),
        p[t.root()].l == t.left().root(),
        0 < t.root() < p.len(),
{
    let f = path[0];
    let c = cells(p);
    let s = plug(path, t).content();
    lemma_rank(p, path, t);
    lemma_step(p, path, t);
    assert(path.drop_last() =~= Seq::empty());
    assert(before(path.drop_last()) =~= Seq::empty());
    assert(plug(path, t) == f.over(t));
    assert(!path[0].rev);
    assert(f.val == f.id);
    lemma_ids_in_arena(c, c[t.root()].l, t.left());
    if f.left {
        assert(s == t.content() + seq![f.val] + f.other.content());
        assert(s[t.content().len() as int] == f.id);
        assert(t.content().len() == l);
        assert(t.content() == t.left().content() + seq![t->val] + t.right().content());
    } else {
        assert(s == f.other.content() + seq![f.val] + t.content());
        assert(s[f.other.content().len() as int] == f.id);
    }
}

impl Splay {
    /// Recomputes the size of `x`, whose children are the trees `l` and `r`.
    fn pull(&mut self, x: u32, l: Ghost<Tree>, r: Ghost<Tree>)
        requires
            0 < x < old(self).p@.len(),
            holds(cells(old(self).p@), old(self).p@[x as int].l as int, l@),
            holds(cells(old(self).p@), old(self).p@[x as int].r as int, r@),
            l@.ids().disjoint(r@.ids()),
            !l@.ids().contains(x as int),
            !r@.ids().contains(x as int),
            l@.content().len() + r@.content().len() < u32::MAX,
            marks_ok(old(self).p@),
            old(self).p@[x as int].rev == 0,
        ensures
            final(self).root == old(self).root,
            final(self).n == old(self).n,
            final(self).tree == old(self).tree,
            final(self).p@ == old(self).p@.update(
                x as int,
                (SplayNode { sz: (1 + l@.content().len() + r@.content().len()) as u32, ..old(self).p@[x as int] }),
            ),
            marks_ok(final(self).p@),
            holds(cells(final(self).p@), x as int, node(x as int, x, false, l@, r@)),
    {
        let lx: u32 = self.p[x as usize].l;
        let rx: u32 = self.p[x as usize].r;
        let ghost p0 = self.p@;
        proof {
            lemma_ids_in_arena(cells(p0), lx as int, l@);
            lemma_ids_in_arena(cells(p0), rx as int, r@);
            lemma_zero(cells(p0), lx as int, l@);
            lemma_zero(cells(p0), rx as int, r@);
        }
        let sz: u32 = 1 + self.p[lx as usize].sz + self.p[rx as usize].sz;
        self.p[x as usize].sz = sz;
        proof {
            lemma_over(cells(p0), cells(self.p@), x as int, l@, r@);
        }
    }

    /// Flips the mark of `x`.
    fn flip_mark(&mut self, x: u32)
        requires
            x < old(self).p@.len(),
            marks_ok(old(self).p@),
        ensures
            final(self).root == old(self).root,
            final(self).n == old(self).n,
            final(self).tree == old(self).tree,
            final(self).p@ == old(self).p@.update(
                x as int,
                (SplayNode { rev: (1 - old(self).p@[x as int].rev) as u8, ..old(self).p@[x as int] }),
            ),
            marks_ok(final(self).p@),
    {
        let rev: u8 = self.p[x as usize].rev;
        assert(rev <= 1);
        assert(rev ^ 1 == 1 - rev) by (bit_vector)
            requires
                rev <= 1,
        ;
        self.p[x as usize].rev = rev ^ 1;
    }

    /// Carries the mark of `x` out on its children.
    fn push(&mut self, x: u32, t: Ghost<Tree>)
        requires
            holds(cells(old(self).p@), x as int, t@),
            marks_ok(old(self).p@),
        ensures
            final(self).root == old(self).root,
            final(self).n == old(self).n,
            final(self).tree == old(self).tree,
            touched(old(self).p@, final(self).p@, t@.ids()),
            forall|i: int| 0 <= i < old(self).p@.len() ==> (#[trigger] final(self).p@[i]).p == old(self).p@[i].p,
            marks_ok(final(self).p@),
            holds(cells(final(self).p@), x as int, t@.pushed()),
    {
        if x == 0 {
            return;
        }
        let ghost p0 = self.p@;
        let ghost lt = t@.left();
        let ghost rt = t@.right();
        proof {
            lemma_pushed(t@);
            lemma_turned(lt);
            lemma_turned(rt);
            lemma_ids_in_arena(cells(p0), p0[x as int].l as int, lt);
            lemma_ids_in_arena(cells(p0), p0[x as int].r as int, rt);
        }
        if self.p[x as usize].rev != 0 {
            let l: u32 = self.p[x as usize].l;
            let r: u32 = self.p[x as usize].r;
            self.p[x as usize].l = r;
            self.p[x as usize].r = l;
            self.p[x as usize].rev = 0;
            let ghost p1 = self.p@;
            proof {
                lemma_frame(cells(p0), cells(p1), l as int, lt);
                lemma_frame(cells(p0), cells(p1), r as int, rt);
                assert(r != 0 ==> rt.ids().contains(r as int));
                assert(l != 0 ==> lt.ids().contains(l as int));
            }
            if r != 0 {
                self.flip_mark(r);
            }
            let ghost p2 = self.p@;
            proof {
                lemma_turned_linked(cells(p1), cells(p2), r as int, rt);
                lemma_frame(cells(p1), cells(p2), l as int, lt);
            }
            if l != 0 {
                self.flip_mark(l);
            }
            proof {
                lemma_turned_linked(cells(p2), cells(self.p@), l as int, lt);
                lemma_frame(cells(p2), cells(self.p@), r as int, rt.turned());
                lemma_over(cells(self.p@), cells(self.p@), x as int, rt.turned(), lt.turned());
            }
        }
    }

    /// Carries out the mark of the subtree at the end of a path.
    fn push_below(&mut self, x: u32, path: Ghost<Seq<Frame>>, t: Ghost<Tree>)
        requires
            stands(old(self).p@, path@, t@),
            x == t@.root(),
        ensures
            final(self).root == old(self).root,
            final(self).n == old(self).n,
            final(self).tree == old(self).tree,
            touched(old(self).p@, final(self).p@, t@.ids()),
            stands(final(self).p@, path@, t@.pushed()),
            plug(path@, t@.pushed()).content() == plug(path@, t@).content(),
            plug(path@, t@.pushed()).root() == plug(path@, t@).root(),
    {
        let ghost p0 = self.p@;
        let ghost w = plug(path@, t@);
        proof {
            lemma_unplug(cells(p0), w.root(), path@, t@);
            lemma_pushed(t@);
            lemma_plug_same(path@, t@, t@.pushed());
            lemma_parents_unplug(p0, path@, t@);
            lemma_parents_turned(p0, t@, parent_of(path@));
        }
        self.push(x, t);
        proof {
            lemma_replug(cells(p0), cells(self.p@), w.root(), path@, t@, t@.pushed());
            lemma_ids_in_arena(cells(self.p@), w.root(), plug(path@, t@.pushed()));
            lemma_ids_in_arena(cells(p0), w.root(), w);
            lemma_parents_frame(p0, self.p@, t@.pushed(), parent_of(path@));
            lemma_parents_replug(p0, self.p@, path@, t@, t@.pushed());
        }
    }

    /// Makes `y` a child of its child `x`, `x` a child of `z` in place of `y`, and the
    /// inner child of `x` one of `y`.
    fn swap_links(&mut self, x: u32, y: u32, z: u32)
        requires
            0 < x < old(self).p@.len(),
            0 < y < old(self).p@.len(),
            z < old(self).p@.len(),
            x != y,
            z != x,
            z != y,
            moved(old(self).p@, x, y) < old(self).p@.len(),
            moved(old(self).p@, x, y) != x,
            moved(old(self).p@, x, y) != y,
            moved(old(self).p@, x, y) != z || z == 0,
        ensures
            final(self).root == old(self).root,
            final(self).n == old(self).n,
            final(self).tree == old(self).tree,
            final(self).p@.len() == old(self).p@.len(),
            old(self).p@[y as int].l == x ==> {
                &&& final(self).p@[y as int] == (SplayNode {
                    l: moved(old(self).p@, x, y),
                    p: x,
                    ..old(self).p@[y as int]
                })
                &&& final(self).p@[x as int] == (SplayNode { r: y, p: z, ..old(self).p@[x as int] })
            },
            old(self).p@[y as int].l != x ==> {
                &&& final(self).p@[y as int] == (SplayNode {
                    r: moved(old(self).p@, x, y),
                    p: x,
                    ..old(self).p@[y as int]
                })
                &&& final(self).p@[x as int] == (SplayNode { l: y, p: z, ..old(self).p@[x as int] })
            },
            moved(old(self).p@, x, y) != 0 ==> final(self).p@[moved(old(self).p@, x, y) as int] == (SplayNode {
                p: y,
                ..old(self).p@[moved(old(self).p@, x, y) as int]
            }),
            z != 0 ==> final(self).p@[z as int] == with_child(
                old(self).p@[z as int],
                old(self).p@[z as int].l == y,
                x,
            ),
            forall|i: int|
                0 <= i < old(self).p@.len() && i != x && i != y && (i != z || z == 0) && (i != moved(
                    old(self).p@,
                    x,
                    y,
                ) || i == 0) ==> #[trigger] final(self).p@[i] == old(self).p@[i],
    {
        if self.p[y as usize].l == x {
            let m: u32 = self.p[x as usize].r;
            self.p[y as usize].l = m;
            if m != 0 {
                self.p[m as usize].p = y;
            }
            self.p[x as usize].r = y;
        } else {
            let m: u32 = self.p[x as usize].l;
            self.p[y as usize].r = m;
            if m != 0 {
                self.p[m as usize].p = y;
            }
            self.p[x as usize].l = y;
        }
        self.p[y as usize].p = x;
        self.p[x as usize].p = z;
        if z != 0 {
            if self.p[z as usize].l == y {
                self.p[z as usize].l = x;
            } else {
                self.p[z as usize].r = x;
            }
        }
    }

    /// Relinks `x`, its parent `y` and the subtree between them, and recomputes the
    /// sizes of the two.
    #[verifier::rlimit(40)]
    fn relink(&mut self, x: u32, y: u32, z: u32, f: Ghost<Frame>, t: Ghost<Tree>)
        requires
            marks_ok(old(self).p@),
            holds(cells(old(self).p@), y as int, f@.over(t@)),
            t@ matches Tree::Node { rev, .. } && !rev,
            !f@.rev,
            x == t@.root(),
            y == f@.id,
            !f@.over(t@).ids().contains(z as int),
            z < old(self).p@.len(),
            z != 0 ==> old(self).p@[z as int].l == y || old(self).p@[z as int].r == y,
        ensures
            final(self).root == old(self).root,
            final(self).n == old(self).n,
            final(self).tree == old(self).tree,
            final(self).p@.len() == old(self).p@.len(),
            marks_ok(final(self).p@),
            holds(cells(final(self).p@), x as int, rotated(f@, t@)),
            final(self).p@[x as int].p == z,
            final(self).p@[y as int].p == x,
            inner(f@, t@) != Tree::Leaf ==> final(self).p@[inner(f@, t@).root()].p == y,
            forall|i: int|
                0 <= i < old(self).p@.len() && !f@.over(t@).ids().contains(i) && i != z
                    ==> #[trigger] final(self).p@[i] == old(self).p@[i],
            forall|i: int|
                0 <= i < old(self).p@.len() && i != x && i != y && (inner(f@, t@) == Tree::Leaf || i != inner(
                    f@,
                    t@,
                ).root()) ==> (#[trigger] final(self).p@[i]).p == old(self).p@[i].p,
            z != 0 ==> final(self).p@[z as int] == with_child(
                old(self).p@[z as int],
                old(self).p@[z as int].l == y,
                x,
            ),
            forall|i: int| 0 <= i < old(self).p@.len() ==> (#[trigger] final(self).p@[i]).val == old(self).p@[i].val
                && final(self).p@[i].rev == old(self).p@[i].rev,
    {
        let ghost p0 = self.p@;
        let ghost c0 = cells(p0);
        let ghost a = outer(f@, t@);
        let ghost b = inner(f@, t@);
        let ghost c = f@.other;
        let ghost yt = f@.over(t@);
        let ghost low = if f@.left {
            node(y as int, y, false, b, c)
        } else {
            node(y as int, y, false, c, b)
        };
        proof {
            lemma_parts(c0, f@, t@);
        }
        self.swap_links(x, y, z);
        let ghost p1 = self.p@;
        proof {
            assert forall|i: int| 0 <= i < p0.len() && i != x && i != y && i != z implies #[trigger] cells(p1)[i] == c0[i] by {}
            lemma_frame(c0, cells(p1), a.root(), a);
            lemma_frame(c0, cells(p1), b.root(), b);
            lemma_frame(c0, cells(p1), c.root(), c);
        }
        self.pull(y, Ghost(low.left()), Ghost(low.right()));
        let ghost p2 = self.p@;
        proof {
            lemma_frame(cells(p1), cells(p2), a.root(), a);
        }
        self.pull(x, Ghost(rotated(f@, t@).left()), Ghost(rotated(f@, t@).right()));
    }

    /// Rotates `x`, to which `path` leads, over its parent. Neither of the two is
    /// marked; the nodes above them may be.
    fn rotate(&mut self, x: u32, path: Ghost<Seq<Frame>>, t: Ghost<Tree>)
        requires
            stands(old(self).p@, path@, t@),
            path@.len() > 0,
            !path@.last().rev,
            t@ matches Tree::Node { rev, .. } && !rev,
            x == t@.root(),
        ensures
            final(self).root == old(self).root,
            final(self).n == old(self).n,
            final(self).tree == old(self).tree,
            final(self).p@.len() == old(self).p@.len(),
            forall|i: int| 0 <= i < old(self).p@.len() ==> (#[trigger] final(self).p@[i]).val == old(self).p@[i].val
                && final(self).p@[i].rev == old(self).p@[i].rev,
            stands(final(self).p@, path@.drop_last(), rotated(path@.last(), t@)),
            plug(path@.drop_last(), rotated(path@.last(), t@)).content() == plug(path@, t@).content(),
    {
        let ghost p0 = self.p@;
        let ghost f = path@.last();
        let ghost q = path@.drop_last();
        proof {
            lemma_step(p0, path@, t@);
            lemma_step(p0, q, f.over(t@));
        }
        let y: u32 = self.p[x as usize].p;
        let z: u32 = self.p[y as usize].p;
        self.relink(x, y, z, Ghost(f), t);
        proof {
            if q.len() > 0 {
                assert(q.last() == path@[path@.len() - 2]);
            }
            lemma_rotation(p0, self.p@, path@, t@);
        }
    }

    /// Moves `x`, to which `path` leads, up by rotations until its parent is `goal`:
    /// none, or any node above it. The first `d` nodes of the path are those down to
    /// `goal`, and stay as they are; the nodes below `goal` are not marked.
    fn splay(&mut self, x: u32, goal: u32, path: Ghost<Seq<Frame>>, t: Ghost<Tree>, d: Ghost<int>) -> (res: (
        Ghost<Seq<Frame>>,
        Ghost<Tree>,
    ))
        requires
            stands(old(self).p@, path@, t@),
            t@ matches Tree::Node { rev, .. } && !rev,
            x == t@.root(),
            0 <= d@ <= path@.len(),
            goal == parent_of(path@.take(d@)),
            clear(path@.skip(d@)),
        ensures
            final(self).root == if goal == 0 {
                x
            } else {
                old(self).root
            },
            final(self).n == old(self).n,
            final(self).p@.len() == old(self).p@.len(),
            forall|i: int| 0 <= i < old(self).p@.len() ==> (#[trigger] final(self).p@[i]).val == old(self).p@[i].val,
            stands(final(self).p@, res.0@, res.1@),
            res.1@ matches Tree::Node { rev, .. } && !rev,
            x == res.1@.root(),
            final(self).p@[x as int].p == goal,
            res.0@ == path@.take(d@),
            plug(res.0@, res.1@).content() == plug(path@, t@).content(),
            prefix(res.0@, res.1@) == prefix(path@, t@),
    {
        let ghost s = plug(path@, t@).content();
        let ghost pre = prefix(path@, t@);
        let ghost top = path@.take(d@);
        let ghost d: int = d@;
        let ghost mut path: Seq<Frame> = path@;
        let ghost mut t: Tree = t@;
        proof {
            lemma_step(self.p@, path, t);
            assert forall|i: int| d <= i < path.len() implies !(#[trigger] path[i]).rev by {
                assert(!path.skip(d)[i - d].rev);
            }
        }
        while self.p[x as usize].p != goal
            invariant
                stands(self.p@, path, t),
                t matches Tree::Node { rev, .. } && !rev,
                x == t.root(),
                x < self.p@.len(),
                self.root == old(self).root,
                self.n == old(self).n,
                self.p@.len() == old(self).p@.len(),
                forall|i: int|
                    0 <= i < old(self).p@.len() ==> (#[trigger] self.p@[i]).val == old(self).p@[i].val,
                0 <= d <= path.len(),
                top == path.take(d),
                goal == parent_of(top),
                forall|i: int| d <= i < path.len() ==> !(#[trigger] path[i]).rev,
                plug(path, t).content() == s,
                prefix(path, t) == pre,
                self.p@[x as int].p == parent_of(path),
            decreases path.len(),
        {
            proof {
                lemma_step(self.p@, path, t);
                if path.len() == d {
                    assert(path.take(d) =~= path);
                }
                assert(path.len() > d);
                assert(!path[path.len() - 1].rev);
                lemma_step(self.p@, path.drop_last(), path.last().over(t));
                if path.len() == d + 1 {
                    assert(path.take(d) =~= path.drop_last());
                }
            }
            let y: u32 = self.p[x as usize].p;
            let z: u32 = self.p[y as usize].p;
            if z != goal {
                proof {
                    assert(path.len() > d + 1);
                    assert(!path[path.len() - 2].rev);
                }
                let same: bool = (self.p[y as usize].l == x && self.p[z as usize].l == y) || (self.p[y as usize].r
                    == x && self.p[z as usize].r == y);
                if same {
                    let ghost path0 = path;
                    self.rotate(y, Ghost(path.drop_last()), Ghost(path.last().over(t)));
                    proof {
                        assert(path0.drop_last().last() == path0[path0.len() - 2]);
                        lemma_straightened(path0, t);
                        path = straightened(path0);
                        assert(path.take(d) =~= path0.take(d));
                    }
                } else {
                    let ghost path0 = path;
                    self.rotate(x, Ghost(path), Ghost(t));
                    proof {
                        lemma_prefix_rotated(path0, t);
                        lemma_rotated(path0.last(), t);
                        t = rotated(path0.last(), t);
                        path = path0.drop_last();
                        assert(path.take(d) =~= path0.take(d));
                    }
                }
            }
            let ghost path0 = path;
            proof {
                lemma_step(self.p@, path0, t);
                assert(path0.len() > d);
                assert(!path0[path0.len() - 1].rev);
            }
            self.rotate(x, Ghost(path), Ghost(t));
            proof {
                lemma_prefix_rotated(path0, t);
                lemma_rotated(path0.last(), t);
                t = rotated(path0.last(), t);
                path = path0.drop_last();
                assert(path.take(d) =~= path0.take(d));
                lemma_step(self.p@, path, t);
            }
        }
        proof {
            lemma_step(self.p@, path, t);
            if path.len() > d {
                let q = path.drop_last();
                let y = path.last().over(t);
                assert(plug(q, y) == plug(path, t));
                lemma_above(q, y);
                assert(y.ids().contains(path.last().id));
                if d > 0 {
                    assert(top.last() == q[d - 1]);
                }
            }
            assert(path.take(d) =~= path);
        }
        if goal == 0 {
            self.root = x;
        }
        (Ghost(path), Ghost(t))
    }

    /// The numbers of all nodes, in order.
    spec fn order(&self) -> Seq<u32> {
        self.tree@.content()
    }

    /// The sequence: the values of all nodes but the first and the last.
    pub closed spec fn view(&self) -> Seq<u32> {
        Seq::new(self.n as nat, |k: int| self.p@[self.order()[k + 1] as int].val)
    }

    /// The tree of node numbers; a node has its number for its value.
    pub closed spec fn shape(&self) -> Tree {
        self.tree@
    }

    /// No lazy mark is set.
    pub closed spec fn unmarked(&self) -> bool {
        forall|i: int| 0 <= i < self.p@.len() ==> (#[trigger] self.p@[i]).rev == 0
    }

    /// The invariant: the arena holds the tree, with the right sizes and parents, and
    /// the sentinels are its first and last node.
    pub closed spec fn wf(&self) -> bool {
        &&& self.n <= MAX_LEN
        &&& self.p@.len() == self.n + 3
        &&& self.root == self.tree@.root()
        &&& stands(self.p@, Seq::empty(), self.tree@)
        &&& self.order().len() == self.n + 2
        &&& self.order()[0] == 1
        &&& self.order()[self.n + 1] == self.n + 2
    }

    /// Finds node number `k` in order; the marks on the way to it are carried out.
    fn kth(&mut self, k: u32) -> (res: (u32, Ghost<Seq<Frame>>, Ghost<Tree>))
        requires
            stands(old(self).p@, Seq::empty(), old(self).tree@),
            old(self).root == old(self).tree@.root(),
            k < old(self).order().len(),
        ensures
            final(self).root == old(self).root,
            final(self).n == old(self).n,
            final(self).p@.len() == old(self).p@.len(),
            forall|i: int| 0 <= i < old(self).p@.len() ==> (#[trigger] final(self).p@[i]).val == old(self).p@[i].val,
            stands(final(self).p@, res.1@, res.2@),
            res.2@ matches Tree::Node { rev, .. } && !rev,
            res.0 == res.2@.root(),
            plug(res.1@, res.2@).content() == old(self).order(),
            plug(res.1@, res.2@).root() == old(self).root,
            prefix(res.1@, res.2@) == old(self).order().take(k as int),
            clear(res.1@),
    {
        let mut rest: u32 = k;
        let ghost s = self.order();
        let mut x: u32 = self.root;
        let ghost mut path: Seq<Frame> = Seq::empty();
        let ghost mut t: Tree = self.tree@;
        loop
            invariant
                stands(self.p@, path, t),
                x == t.root(),
                rest < t.content().len(),
                clear(path),
                before(path).len() + rest == k,
                plug(path, t).content() == s,
                plug(path, t).root() == self.root,
                self.root == old(self).root,
                self.n == old(self).n,
                self.p@.len() == old(self).p@.len(),
                forall|i: int|
                    0 <= i < old(self).p@.len() ==> (#[trigger] self.p@[i]).val == old(self).p@[i].val,
                s == old(self).order(),
            decreases t.content().len(),
        {
            assert(t != Tree::Leaf);
            self.push_below(x, Ghost(path), Ghost(t));
            proof {
                lemma_pushed(t);
                t = t.pushed();
                lemma_step(self.p@, path, t);
                lemma_zero(cells(self.p@), x as int, t);
                lemma_ids_in_arena(cells(self.p@), self.p@[x as int].l as int, t.left());
                lemma_ids_in_arena(cells(self.p@), self.p@[x as int].r as int, t.right());
                lemma_zero(cells(self.p@), self.p@[x as int].l as int, t.left());
                lemma_plug_content(path, t);
                assert(sized(cells(self.p@), t.left()));
                assert(t.content() == t.left().content() + seq![x] + t.right().content());
                if t.left() != Tree::Leaf {
                    assert(t.left().ids().contains(t.left().root()));
                }
            }
            let l: u32 = self.p[x as usize].l;
            let ls: u32 = self.p[l as usize].sz;
            assert(ls == t.left().content().len());
            if rest < ls {
                proof {
                    let f = Frame { id: x as int, val: x, rev: false, left: true, other: t.right() };
                    assert(f.over(t.left()) == t);
                    assert(path.push(f).drop_last() =~= path);
                    path = path.push(f);
                    t = t.left();
                }
                x = l;
            } else if rest == ls {
                assert(prefix(path, t) =~= s.take(k as int));
                return (x, Ghost(path), Ghost(t));
            } else {
                rest = rest - (ls + 1);
                proof {
                    let f = Frame { id: x as int, val: x, rev: false, left: false, other: t.left() };
                    assert(f.over(t.right()) == t);
                    assert(path.push(f).drop_last() =~= path);
                    path = path.push(f);
                    t = t.right();
                }
                x = self.p[x as usize].r;
            }
        }
    }

    /// Turns over the subtree `t` to which `path` leads.
    fn turn_below(&mut self, x: u32, path: Ghost<Seq<Frame>>, t: Ghost<Tree>)
        requires
            stands(old(self).p@, path@, t@),
            t@ != Tree::Leaf,
            x == t@.root(),
        ensures
            final(self).root == old(self).root,
            final(self).n == old(self).n,
            final(self).p@.len() == old(self).p@.len(),
            forall|i: int| 0 <= i < old(self).p@.len() ==> (#[trigger] final(self).p@[i]).val == old(self).p@[i].val,
            stands(final(self).p@, path@, t@.turned()),
            plug(path@, t@.turned()).root() == plug(path@, t@).root(),
    {
        let ghost p0 = self.p@;
        let ghost w = plug(path@, t@);
        proof {
            lemma_step(p0, path@, t@);
            lemma_unplug(cells(p0), w.root(), path@, t@);
            lemma_parents_unplug(p0, path@, t@);
            lemma_parents_turned(p0, t@, parent_of(path@));
            lemma_turned(t@);
            lemma_ids_in_arena(cells(p0), w.root(), w);
            lemma_ids_in_arena(cells(p0), t@.root(), t@);
            assert(t@.ids().contains(x as int));
        }
        self.flip_mark(x);
        proof {
            lemma_turned_linked(cells(p0), cells(self.p@), x as int, t@);
            lemma_replug(cells(p0), cells(self.p@), w.root(), path@, t@, t@.turned());
            lemma_ids_in_arena(cells(self.p@), w.root(), plug(path@, t@.turned()));
            lemma_parents_frame(p0, self.p@, t@.turned(), parent_of(path@));
            lemma_parents_replug(p0, self.p@, path@, t@, t@.turned());
        }
    }

    /// The node before element `l` is the root, the node after element `r` its right
    /// child, and the elements between them are the left subtree of that.
    pub closed spec fn frames(&self, l: int, r: int) -> bool {
        let t = self.tree@;
        let u = t.right();
        &&& t.left().content().len() == l
        &&& u != Tree::Leaf
        &&& u.left().content().len() == r - l + 1
    }

    /// Reverses the elements `l..=r`.
    #[verifier::rlimit(40)]
    pub fn reverse(&mut self, l: u32, r: u32)
        requires
            old(self).wf(),
            l <= r < old(self)@.len(),
        ensures
            final(self).wf(),
            final(self)@ == reversed(old(self)@, l as int, r + 1),
            final(self).frames(l as int, r as int),
    {
        let ghost s = self.order();
        let ghost p0 = self.p@;
        let (a, pa, ta): (u32, Ghost<Seq<Frame>>, Ghost<Tree>) = self.kth(l);
        let (q1, t1): (Ghost<Seq<Frame>>, Ghost<Tree>) = self.splay(a, 0, pa, ta, Ghost(0));
        proof {
            assert(q1@ =~= Seq::empty());
            lemma_rank(self.p@, q1@, t1@);
            assert(s[l as int] == a);
        }
        self.tree = t1;
        let (b, pb, tb): (u32, Ghost<Seq<Frame>>, Ghost<Tree>) = self.kth(r + 2);
        proof {
            lemma_rank(self.p@, pb@, tb@);
            assert(s[r + 2] == b);
            lemma_step(self.p@, pb@, tb@);
            if pb@.len() == 0 {
                assert(a == b);
            }
            assert(pb@.take(1).last() == pb@[0]);
            assert(clear(pb@.skip(1))) by {
                assert forall|i: int| 0 <= i < pb@.len() - 1 implies !(#[trigger] pb@.skip(1)[i]).rev by {
                    assert(!pb@[i + 1].rev);
                }
            }
        }
        let root: u32 = self.root;
        let (q2, t2): (Ghost<Seq<Frame>>, Ghost<Tree>) = self.splay(b, root, pb, tb, Ghost(1));
        let ghost f = q2@[0];
        let ghost mid = t2@.left();
        proof {
            assert(clear(q2@)) by {
                assert(!pb@[0].rev);
                assert(q2@[0] == pb@[0]);
            }
            lemma_between(self.p@, q2@, t2@, l as int, r + 2);
        }
        let x: u32 = self.p[self.p[self.root as usize].r as usize].l;
        let ghost g = Frame { id: b as int, val: b, rev: false, left: true, other: t2@.right() };
        let ghost path = q2@.push(g);
        proof {
            lemma_step(self.p@, q2@, t2@);
            assert(path.drop_last() =~= q2@);
            assert(g.over(mid) == t2@);
            assert(mid != Tree::Leaf);
        }
        self.turn_below(x, Ghost(path), Ghost(mid));
        let ghost t3 = plug(path, mid.turned());
        self.tree = Ghost(t3);
        proof {
            assert(clear(path));
            lemma_plug_content(path, mid);
            lemma_plug_content(path, mid.turned());
            lemma_turned(mid);
            assert(q2@.drop_last() =~= Seq::empty());
            assert(before(path) == before(q2@));
            assert(before(q2@) =~= f.other.content() + seq![f.val]);
            lemma_reversed_middle(before(path), mid.content(), after(path));
            assert(t3 == f.over(g.over(mid.turned()))) by {
                assert(plug(q2@, g.over(mid.turned())) == plug(q2@.drop_last(), f.over(g.over(mid.turned()))));
            }
            assert(t3.content() == reversed(s, l + 1, r + 2));
            assert(self@ =~= reversed(old(self)@, l as int, r + 1)) by {
                assert forall|k: int| 0 <= k < self.n implies self@[k] == reversed(old(self)@, l as int, r + 1)[k] by {
                    let i = if l <= k <= r {
                        l + r - k
                    } else {
                        k
                    };
                    assert(self.order()[k + 1] == s[i + 1]);
                    lemma_in_arena(p0, old(self).tree@, i + 1);
                    assert(self.p@[s[i + 1] as int].val == p0[s[i + 1] as int].val);
                }
            }
        }
    }

    /// Writes the sequence to `out`; the tree may come to be marked otherwise.
    #[verifier::rlimit(40)]
    pub fn collect(&mut self, out: &mut Vec<u32>)
        requires
            old(self).wf(),
        ensures
            final(self).wf(),
            final(self)@ == old(self)@,
            final(out)@ == old(self)@,
    {
        out.clear();
        let mut stk: Vec<u32> = Vec::new();
        let mut x: u32 = self.root;
        let ghost s = self.order();
        let ghost p0 = self.p@;
        let n: u32 = self.n;
        let ghost mut path: Seq<Frame> = Seq::empty();
        let ghost mut t: Tree = self.tree@;
        proof {
            lemma_no_repeats(cells(self.p@), x as int, t);
            assert(out@ =~= shown(p0, s, 0, n as int));
        }
        loop
            invariant
                0 < self.p@.len(),
                self.n == n <= MAX_LEN,
                self.root == old(self).root,
                stands(self.p@, path, t),
                plug(path, t).root() == self.root,
                x == t.root(),
                plug(path, t).content() == s,
                s.len() == n + 2,
                s[0] == 1,
                s[n + 1] == n + 2,
                s.no_duplicates(),
                self.p@.len() == p0.len(),
                forall|i: int| 0 <= i < p0.len() ==> (#[trigger] self.p@[i]).val == p0[i].val,
                clear(path),
                out@ == shown(p0, s, before(path).len() as int, n as int),
                stk@.len() == lefts(path).len(),
                forall|k: int| 0 <= k < stk@.len() ==> #[trigger] stk@[k] == lefts(path)[k],
            ensures
                self.n == n,
                self.root == old(self).root,
                stands(self.p@, path, t),
                plug(path, t).root() == self.root,
                plug(path, t).content() == s,
                self.p@.len() == p0.len(),
                forall|i: int| 0 <= i < p0.len() ==> (#[trigger] self.p@[i]).val == p0[i].val,
                out@ == shown(p0, s, n + 2, n as int),
            decreases s.len() - before(path).len(),
        {
            let ghost b0 = before(path);
            while x != 0
                invariant
                    before(path) == b0,
                    self.n == n,
                    self.root == old(self).root,
                    stands(self.p@, path, t),
                    plug(path, t).root() == self.root,
                    x == t.root(),
                    plug(path, t).content() == s,
                    self.p@.len() == p0.len(),
                    forall|i: int| 0 <= i < p0.len() ==> (#[trigger] self.p@[i]).val == p0[i].val,
                    clear(path),
                    out@ == shown(p0, s, before(path).len() as int, n as int),
                    stk@.len() == lefts(path).len(),
                    forall|k: int| 0 <= k < stk@.len() ==> #[trigger] stk@[k] == lefts(path)[k],
                decreases t.content().len(),
            {
                assert(t != Tree::Leaf);
                self.push_below(x, Ghost(path), Ghost(t));
                proof {
                    lemma_pushed(t);
                    t = t.pushed();
                    lemma_step(self.p@, path, t);
                    lemma_zero(cells(self.p@), x as int, t);
                    let f = Frame { id: x as int, val: x, rev: false, left: true, other: t.right() };
                    lemma_ids_in_arena(cells(self.p@), self.p@[x as int].l as int, t.left());
                    assert(f.over(t.left()) == t);
                    assert(path.push(f).drop_last() =~= path);
                    path = path.push(f);
                    t = t.left();
                }
                stk.push(x);
                x = self.p[x as usize].l;
            }
            proof {
                lemma_unplug(cells(self.p@), self.root as int, path, t);
                lemma_zero(cells(self.p@), x as int, t);
                lemma_plug_content(path, t);
            }
            match stk.pop() {
                None => {
                    proof {
                        lemma_after_none(path);
                        assert(before(path).len() == n + 2);
                    }
                    break;
                },
                Some(y) => {
                    let ghost m = before(path).len() as int;
                    let ghost (q, f, u) = lemma_unwind(path, t);
                    proof {
                        assert(before(path) + t.content() =~= before(path));
                        assert(q.push(f).drop_last() =~= q);
                        lemma_unplug(cells(self.p@), self.root as int, q.push(f), u);
                        let c = cells(self.p@);
                        assert(f.id == y);
                        lemma_ids_in_arena(c, y as int, f.over(u));
                        assert(f.over(u).ids().contains(y as int));
                        lemma_ids_in_arena(c, c[y as int].r, f.other);
                        let g = Frame { id: f.id, val: f.val, rev: false, left: false, other: u };
                        assert(g.over(f.other) == f.over(u));
                        assert(q.push(g).drop_last() =~= q);
                        path = q.push(g);
                        t = f.other;
                        assert(before(path) =~= (before(q) + u.content()).push(f.val));
                        lemma_plug_content(path, t);
                        assert(s[m] == y);
                        assert(m != 0 ==> s[m] != s[0]);
                        assert(m != n + 1 ==> s[m] != s[n + 1]);
                    }
                    if y != 1 && y != n + 2 {
                        out.push(self.p[y as usize].val);
                    }
                    assert(out@ =~= shown(p0, s, m + 1, n as int));
                    x = self.p[y as usize].r;
                },
            }
        }
        self.tree = Ghost(plug(path, t));
        proof {
            assert forall|k: int| 0 <= k < n implies self@[k] == old(self)@[k] by {
                lemma_in_arena(p0, old(self).tree@, k + 1);
                assert(self.p@[s[k + 1] as int].val == p0[s[k + 1] as int].val);
            }
            assert(self@ =~= old(self)@);
            assert(out@ =~= old(self)@);
        }
    }

    /// Builds a balanced tree of the fresh nodes `l..=r` with the parent `par`.
    fn build(&mut self, l: u32, r: u32, par: u32) -> (res: (u32, Ghost<Tree>))
        requires
            marks_ok(old(self).p@),
            0 < l <= r + 1,
            r < old(self).p@.len() <= MAX_LEN + 3,
            forall|i: int| l <= i <= r ==> (#[trigger] old(self).p@[i]).rev == 0,
        ensures
            final(self).n == old(self).n,
            marks_ok(final(self).p@),
            touched(old(self).p@, final(self).p@, Set::new(|i: int| l <= i <= r)),
            res.1@ == balanced(l as int, r as int),
            holds(cells(final(self).p@), res.0 as int, res.1@),
            parents(final(self).p@, res.1@, par as int),
            forall|i: int| #[trigger] res.1@.ids().contains(i) <==> l <= i <= r,
            res.1@.content() == Seq::new((r + 1 - l) as nat, |k: int| (l + k) as u32),
            forall|i: int|
                0 <= i < old(self).p@.len() ==> (#[trigger] final(self).p@[i]).rev == old(self).p@[i].rev,
        decreases r + 1 - l,
    {
        if l > r {
            proof {
                assert(Tree::Leaf.ids() == Set::<int>::empty());
                assert(Tree::Leaf.content() =~= Seq::new((r + 1 - l) as nat, |k: int| (l + k) as u32));
            }
            return (0, Ghost(Tree::Leaf));
        }
        let m: u32 = (l + r) / 2;
        self.p[m as usize].p = par;
        let ghost p1 = self.p@;
        let (lc, lt): (u32, Ghost<Tree>) = self.build(l, m - 1, m);
        let ghost p2 = self.p@;
        let (rc, rt): (u32, Ghost<Tree>) = self.build(m + 1, r, m);
        let ghost p3 = self.p@;
        proof {
            lemma_ids_in_arena(cells(p2), lc as int, lt@);
            lemma_ids_in_arena(cells(p3), rc as int, rt@);
            assert forall|i: int| #[trigger] lt@.ids().contains(i) implies p3[i] == p2[i] by {}
            lemma_frame(cells(p2), cells(p3), lc as int, lt@);
            lemma_parents_frame(p2, p3, lt@, m as int);
        }
        self.p[m as usize].l = lc;
        self.p[m as usize].r = rc;
        let ghost p4 = self.p@;
        proof {
            lemma_frame(cells(p3), cells(p4), lc as int, lt@);
            lemma_frame(cells(p3), cells(p4), rc as int, rt@);
            assert(lt@.ids().disjoint(rt@.ids()));
        }
        self.pull(m, lt, rt);
        let ghost t = node(m as int, m, false, lt@, rt@);
        proof {
            lemma_parents_frame(p3, self.p@, lt@, m as int);
            lemma_parents_frame(p3, self.p@, rt@, m as int);
            assert(t.content() =~= Seq::new((r + 1 - l) as nat, |k: int| (l + k) as u32));
        }
        (m, Ghost(t))
    }

    /// The splay tree for the elements of `a`.
    pub fn new(a: &[u32], _seed: u64) -> (s: Splay)
        requires
            a@.len() <= MAX_LEN,
        ensures
            s.wf(),
            s@ == a@,
            s.unmarked(),
            s.shape() == balanced(1, a@.len() as int + 2),
    {
        let n: u32 = a.len() as u32;
        let mut p: Vec<SplayNode> = Vec::new();
        let mut i: u32 = 0;
        while i < n + 3
            invariant
                i <= n + 3,
                n == a@.len() <= MAX_LEN,
                p@.len() == i,
                forall|k: int|
                    0 <= k < i ==> {
                        &&& (#[trigger] p@[k]).rev == 0
                        &&& p@[k].sz == 0
                        &&& 2 <= k <= n + 1 ==> p@[k].val == a@[k - 2]
                    },
            decreases n + 3 - i,
        {
            let val: u32 = if i >= 2 && i <= n + 1 {
                a[(i - 2) as usize]
            } else {
                0
            };
            p.push(SplayNode { l: 0, r: 0, p: 0, sz: 0, val, rev: 0 });
            i = i + 1;
        }
        let ghost p0 = p@;
        let mut s = Splay { p, root: 0, n, tree: Ghost(Tree::Leaf) };
        let (root, t): (u32, Ghost<Tree>) = s.build(1, n + 2, 0);
        s.root = root;
        s.tree = t;
        proof {
            lemma_ids_in_arena(cells(s.p@), root as int, t@);
            assert forall|k: int| 0 <= k < n implies s@[k] == a@[k] by {
                assert(s.order()[k + 1] == k + 2);
                assert(s.p@[k + 2].val == p0[k + 2].val);
            }
            assert(s@ =~= a@);
        }
        s
    }
}

/// The values that have been written once the first `m` nodes of the order `s` have
/// been visited: those of all but the first and the last of the `n + 2` nodes.
spec fn shown(p: Seq<SplayNode>, s: Seq<u32>, m: int, n: int) -> Seq<u32> {
    let count = if m == 0 {
        0
    } else if m <= n + 1 {
        m - 1
    } else {
        n
    };
    Seq::new(count as nat, |k: int| p[s[k + 1] as int].val)
}

/// The numbers in the order are numbers of nodes.
proof fn lemma_in_arena(p: Seq<SplayNode>, t: Tree, k: int)
    requires
        stands(p, Seq::empty(), t),
        0 <= k < t.content().len(),
    ensures
        0 < t.content()[k] < p.len(),
{
    lemma_no_repeats(cells(p), t.root(), t);
    lemma_ids_in_arena(cells(p), t.root(), t);
    assert(t.ids().contains(t.content()[k] as int));
}

} // verus!
