//! The mathematical model of a binary tree that is stored in an arena and turned
//! lazily: the tree itself, its contents, what it means for an arena to hold it, and
//! paths from its root to one of its subtrees.
use vstd::prelude::*;

verus! {

use crate::seqs::{lemma_reverse_add, lemma_reverse_twice};

/// A node of an arena, as far as the tree goes: the children (0 for none), the value,
/// whether the subtree is to be read backwards, and its size.
pub struct Cell {
    pub l: int,
    pub r: int,
    pub val: u32,
    pub rev: bool,
    pub sz: int,
}

/// A tree; a node that is marked `rev` stands for its subtree read backwards.
pub enum Tree {
    Leaf,
    Node { id: int, val: u32, rev: bool, l: Box<Tree>, r: Box<Tree> },
}

pub open spec fn node(id: int, val: u32, rev: bool, l: Tree, r: Tree) -> Tree {
    Tree::Node { id, val, rev, l: Box::new(l), r: Box::new(r) }
}

impl Tree {
    /// The number of the root, 0 for an empty tree.
    pub open spec fn root(self) -> int {
        match self {
            Tree::Leaf => 0,
            Tree::Node { id, .. } => id,
        }
    }

    pub open spec fn left(self) -> Tree {
        match self {
            Tree::Leaf => Tree::Leaf,
            Tree::Node { l, .. } => *l,
        }
    }

    pub open spec fn right(self) -> Tree {
        match self {
            Tree::Leaf => Tree::Leaf,
            Tree::Node { r, .. } => *r,
        }
    }

    /// The values in order.
    pub open spec fn content(self) -> Seq<u32>
        decreases self,
    {
        match self {
            Tree::Leaf => Seq::empty(),
            Tree::Node { val, rev, l, r, .. } => {
                let s = l.content() + seq![val] + r.content();
                if rev {
                    s.reverse()
                } else {
                    s
                }
            },
        }
    }

    /// The numbers of the nodes.
    pub open spec fn ids(self) -> Set<int>
        decreases self,
    {
        match self {
            Tree::Leaf => Set::empty(),
            Tree::Node { id, l, r, .. } => l.ids().union(r.ids()).insert(id),
        }
    }

    /// No number occurs twice.
    pub open spec fn distinct(self) -> bool
        decreases self,
    {
        match self {
            Tree::Leaf => true,
            Tree::Node { id, l, r, .. } => {
                &&& l.distinct()
                &&& r.distinct()
                &&& l.ids().disjoint(r.ids())
                &&& !l.ids().contains(id)
                &&& !r.ids().contains(id)
            },
        }
    }

    /// The tree read backwards.
    pub open spec fn turned(self) -> Tree {
        match self {
            Tree::Leaf => Tree::Leaf,
            Tree::Node { id, val, rev, l, r } => Tree::Node { id, val, rev: !rev, l, r },
        }
    }

    /// The same contents with the mark of the root carried out on its children.
    pub open spec fn pushed(self) -> Tree {
        match self {
            Tree::Leaf => Tree::Leaf,
            Tree::Node { id, val, rev, l, r } => if rev {
                node(id, val, false, r.turned(), l.turned())
            } else {
                self
            },
        }
    }
}

/// The arena `c` holds the tree `t` under the number `x`: links, values and marks.
pub open spec fn linked(c: Seq<Cell>, x: int, t: Tree) -> bool
    decreases t,
{
    match t {
        Tree::Leaf => x == 0,
        Tree::Node { id, val, rev, l, r } => {
            &&& x == id
            &&& 0 < x < c.len()
            &&& c[x].val == val
            &&& c[x].rev == rev
            &&& linked(c, c[x].l, *l)
            &&& linked(c, c[x].r, *r)
        },
    }
}

/// The sizes kept in the arena for the nodes of `t` are right.
pub open spec fn sized(c: Seq<Cell>, t: Tree) -> bool
    decreases t,
{
    match t {
        Tree::Leaf => true,
        Tree::Node { id, l, r, .. } => {
            &&& c[id].sz == t.content().len()
            &&& sized(c, *l)
            &&& sized(c, *r)
        },
    }
}

/// The arena `c` holds the tree `t` under the number `x`.
pub open spec fn holds(c: Seq<Cell>, x: int, t: Tree) -> bool {
    linked(c, x, t) && sized(c, t) && t.distinct()
}

pub proof fn lemma_ids_in_arena(c: Seq<Cell>, x: int, t: Tree)
    requires
        linked(c, x, t),
    ensures
        forall|i: int| #[trigger] t.ids().contains(i) ==> 0 < i < c.len(),
        x == t.root(),
    decreases t,
{
    match t {
        Tree::Leaf => {
            assert(t.ids() == Set::<int>::empty());
        },
        Tree::Node { l, r, .. } => {
            lemma_ids_in_arena(c, c[x].l, *l);
            lemma_ids_in_arena(c, c[x].r, *r);
            assert forall|i: int| #[trigger] t.ids().contains(i) implies 0 < i < c.len() by {
                assert(i == x || l.ids().contains(i) || r.ids().contains(i));
            }
        },
    }
}

/// An arena that is the same on the nodes of a tree still holds it.
pub proof fn lemma_frame(c: Seq<Cell>, d: Seq<Cell>, x: int, t: Tree)
    requires
        linked(c, x, t),
        c.len() <= d.len(),
        forall|i: int| #[trigger] t.ids().contains(i) ==> d[i] == c[i],
    ensures
        linked(d, x, t),
        sized(c, t) ==> sized(d, t),
    decreases t,
{
    match t {
        Tree::Leaf => {},
        Tree::Node { id, l, r, .. } => {
            assert(t.ids().contains(id));
            assert forall|i: int| #[trigger] l.ids().contains(i) implies d[i] == c[i] by {
                assert(t.ids().contains(i));
            }
            assert forall|i: int| #[trigger] r.ids().contains(i) implies d[i] == c[i] by {
                assert(t.ids().contains(i));
            }
            lemma_frame(c, d, c[x].l, *l);
            lemma_frame(c, d, c[x].r, *r);
        },
    }
}

pub proof fn lemma_turned(t: Tree)
    ensures
        t.turned().content() == t.content().reverse(),
        t.turned().ids() == t.ids(),
        t.turned().distinct() == t.distinct(),
        t.turned().root() == t.root(),
{
    match t {
        Tree::Leaf => {
            assert(t.content().reverse() =~= t.content());
        },
        Tree::Node { val, l, r, .. } => {
            lemma_reverse_twice(l.content() + seq![val] + r.content());
        },
    }
}

pub proof fn lemma_pushed(t: Tree)
    ensures
        t.pushed().content() == t.content(),
        t.pushed().ids() == t.ids(),
        t.pushed().distinct() == t.distinct(),
        t.pushed().root() == t.root(),
{
    match t {
        Tree::Leaf => {},
        Tree::Node { val, rev, l, r, .. } => {
            if rev {
                lemma_turned(*l);
                lemma_turned(*r);
                lemma_reverse_add(l.content() + seq![val], r.content());
                lemma_reverse_add(l.content(), seq![val]);
                assert(seq![val].reverse() =~= seq![val]);
                assert(t.pushed().content() =~= t.content());
                assert(t.pushed().ids() =~= t.ids());
            }
        },
    }
}

/// Turning a tree takes only its root's mark.
pub proof fn lemma_turned_linked(c: Seq<Cell>, d: Seq<Cell>, x: int, t: Tree)
    requires
        holds(c, x, t),
        c.len() <= d.len(),
        forall|i: int| #[trigger] t.ids().contains(i) && i != x ==> d[i] == c[i],
        x != 0 ==> d[x] == (Cell { rev: !c[x].rev, ..c[x] }),
    ensures
        holds(d, x, t.turned()),
{
    lemma_turned(t);
    match t {
        Tree::Leaf => {},
        Tree::Node { id, l, r, .. } => {
            assert forall|i: int| #[trigger] l.ids().contains(i) implies d[i] == c[i] by {
                assert(t.ids().contains(i));
            }
            assert forall|i: int| #[trigger] r.ids().contains(i) implies d[i] == c[i] by {
                assert(t.ids().contains(i));
            }
            lemma_frame(c, d, c[x].l, *l);
            lemma_frame(c, d, c[x].r, *r);
        },
    }
}

/// A node put over two trees that the arena holds.
pub proof fn lemma_over(c: Seq<Cell>, d: Seq<Cell>, x: int, l: Tree, r: Tree)
    requires
        holds(c, l.root(), l),
        holds(c, r.root(), r),
        l.ids().disjoint(r.ids()),
        !l.ids().contains(x),
        !r.ids().contains(x),
        0 < x < d.len(),
        c.len() <= d.len(),
        forall|i: int| 0 <= i < c.len() && i != x ==> #[trigger] d[i] == c[i],
        d[x].l == l.root(),
        d[x].r == r.root(),
        d[x].sz == l.content().len() + r.content().len() + 1,
    ensures
        holds(d, x, node(x, d[x].val, d[x].rev, l, r)),
{
    lemma_ids_in_arena(c, l.root(), l);
    lemma_ids_in_arena(c, r.root(), r);
    lemma_frame(c, d, l.root(), l);
    lemma_frame(c, d, r.root(), r);
}

/// One step of a path down a tree: a node with its mark, whether the path goes on to
/// the left, and the other subtree.
pub struct Frame {
    pub id: int,
    pub val: u32,
    pub rev: bool,
    pub left: bool,
    pub other: Tree,
}

impl Frame {
    /// The subtree at this step when the path goes on to `t`.
    pub open spec fn over(self, t: Tree) -> Tree {
        if self.left {
            node(self.id, self.val, self.rev, t, self.other)
        } else {
            node(self.id, self.val, self.rev, self.other, t)
        }
    }
}

/// The tree in which the path `path` leads to the subtree `t`.
pub open spec fn plug(path: Seq<Frame>, t: Tree) -> Tree
    decreases path.len(),
{
    if path.len() == 0 {
        t
    } else {
        plug(path.drop_last(), path.last().over(t))
    }
}

/// No node of the path is marked.
pub open spec fn clear(path: Seq<Frame>) -> bool {
    forall|i: int| 0 <= i < path.len() ==> !(#[trigger] path[i]).rev
}

/// The values before the end of a path without marks.
pub open spec fn before(path: Seq<Frame>) -> Seq<u32>
    decreases path.len(),
{
    if path.len() == 0 {
        Seq::empty()
    } else if path.last().left {
        before(path.drop_last())
    } else {
        before(path.drop_last()) + (path.last().other.content() + seq![path.last().val])
    }
}

/// The values after the end of a path without marks.
pub open spec fn after(path: Seq<Frame>) -> Seq<u32>
    decreases path.len(),
{
    if path.len() == 0 {
        Seq::empty()
    } else if path.last().left {
        (seq![path.last().val] + path.last().other.content()) + after(path.drop_last())
    } else {
        after(path.drop_last())
    }
}

pub proof fn lemma_plug_content(path: Seq<Frame>, t: Tree)
    requires
        clear(path),
    ensures
        plug(path, t).content() == before(path) + t.content() + after(path),
    decreases path.len(),
{
    if path.len() == 0 {
        assert(plug(path, t).content() =~= before(path) + t.content() + after(path));
    } else {
        assert(!path[path.len() - 1].rev);
        assert(clear(path.drop_last())) by {
            assert forall|i: int| 0 <= i < path.len() - 1 implies !(#[trigger] path.drop_last()[i]).rev by {
                assert(!path[i].rev);
            }
        }
        lemma_plug_content(path.drop_last(), path.last().over(t));
        assert(plug(path, t).content() =~= before(path) + t.content() + after(path));
    }
}

/// Subtrees with the same contents give the same contents at the end of any path.
pub proof fn lemma_plug_same(path: Seq<Frame>, t: Tree, u: Tree)
    requires
        t.content() == u.content(),
    ensures
        plug(path, t).content() == plug(path, u).content(),
    decreases path.len(),
{
    if path.len() > 0 {
        let f = path.last();
        assert(f.over(t).content() == f.over(u).content());
        lemma_plug_same(path.drop_last(), f.over(t), f.over(u));
    }
}

/// The nodes of a path are not among those at its end.
pub proof fn lemma_above(path: Seq<Frame>, t: Tree)
    requires
        plug(path, t).distinct(),
    ensures
        t.distinct(),
        forall|i: int| 0 <= i < path.len() ==> !t.ids().contains((#[trigger] path[i]).id),
    decreases path.len(),
{
    if path.len() > 0 {
        let q = path.drop_last();
        let u = path.last().over(t);
        lemma_above(q, u);
        assert forall|i: int| 0 <= i < path.len() implies !t.ids().contains((#[trigger] path[i]).id) by {
            if i < q.len() {
                assert(!u.ids().contains(q[i].id));
            }
        }
    }
}

/// The subtree at the end of a path is held as well, and so is the one above it.
pub proof fn lemma_unplug(c: Seq<Cell>, x: int, path: Seq<Frame>, t: Tree)
    requires
        holds(c, x, plug(path, t)),
    ensures
        holds(c, t.root(), t),
        t.ids().subset_of(plug(path, t).ids()),
        path.len() > 0 ==> holds(c, path.last().id, path.last().over(t)),
    decreases path.len(),
{
    if path.len() == 0 {
        lemma_ids_in_arena(c, x, t);
    } else {
        let f = path.last();
        lemma_unplug(c, x, path.drop_last(), f.over(t));
        if f.left {
            lemma_ids_in_arena(c, c[f.id].l, t);
        } else {
            lemma_ids_in_arena(c, c[f.id].r, t);
        }
    }
}

/// Replacing the subtree at the end of a path by one with the same nodes, the same
/// root and the same size.
pub proof fn lemma_replug(c: Seq<Cell>, d: Seq<Cell>, x: int, path: Seq<Frame>, t: Tree, u: Tree)
    requires
        holds(c, x, plug(path, t)),
        holds(d, u.root(), u),
        u.ids() == t.ids(),
        u.root() == t.root(),
        u.content().len() == t.content().len(),
        c.len() <= d.len(),
        forall|i: int| 0 <= i < c.len() && !t.ids().contains(i) ==> #[trigger] d[i] == c[i],
    ensures
        holds(d, x, plug(path, u)),
        plug(path, u).ids() == plug(path, t).ids(),
    decreases path.len(),
{
    lemma_unplug(c, x, path, t);
    if path.len() == 0 {
        lemma_ids_in_arena(c, x, t);
    } else {
        let f = path.last();
        lemma_unplug(c, x, path.drop_last(), f.over(t));
        if f.left {
            lemma_ids_in_arena(c, c[f.id].r, f.other);
            lemma_ids_in_arena(c, c[f.id].l, t);
        } else {
            lemma_ids_in_arena(c, c[f.id].l, f.other);
            lemma_ids_in_arena(c, c[f.id].r, t);
        }
        lemma_frame(c, d, f.other.root(), f.other);
        assert(f.over(u).ids() =~= f.over(t).ids());
        lemma_replug(c, d, x, path.drop_last(), f.over(t), f.over(u));
    }
}

/// The nodes of a path at which it goes left, from the top.
pub open spec fn lefts(path: Seq<Frame>) -> Seq<int>
    decreases path.len(),
{
    if path.len() == 0 {
        Seq::empty()
    } else if path.last().left {
        lefts(path.drop_last()).push(path.last().id)
    } else {
        lefts(path.drop_last())
    }
}

/// Goes up a path to the last node at which it goes left.
pub proof fn lemma_unwind(path: Seq<Frame>, t: Tree) -> (res: (Seq<Frame>, Frame, Tree))
    requires
        lefts(path).len() > 0,
        clear(path),
    ensures
        ({
            let (q, f, u) = res;
            &&& f.left
            &&& !f.rev
            &&& clear(q)
            &&& plug(path, t) == plug(q.push(f), u)
            &&& before(path) + t.content() == before(q) + u.content()
            &&& lefts(path) == lefts(q).push(f.id)
        }),
    decreases path.len(),
{
    let f = path.last();
    let q = path.drop_last();
    assert(!path[path.len() - 1].rev);
    assert forall|i: int| 0 <= i < q.len() implies !(#[trigger] q[i]).rev by {
        assert(!path[i].rev);
    }
    if f.left {
        assert(q.push(f) =~= path);
        (q, f, t)
    } else {
        assert(before(path) + t.content() =~= before(q) + f.over(t).content());
        lemma_unwind(q, f.over(t))
    }
}

/// Nothing comes after a path that never goes left.
pub proof fn lemma_after_none(path: Seq<Frame>)
    requires
        lefts(path).len() == 0,
    ensures
        after(path) == Seq::<u32>::empty(),
    decreases path.len(),
{
    if path.len() > 0 {
        lemma_after_none(path.drop_last());
    }
}

/// An arena holds at most one tree under a number.
pub proof fn lemma_linked_once(c: Seq<Cell>, x: int, t: Tree, u: Tree)
    requires
        linked(c, x, t),
        linked(c, x, u),
    ensures
        t == u,
    decreases t,
{
    match t {
        Tree::Leaf => {
            match u {
                Tree::Leaf => {},
                Tree::Node { .. } => {},
            }
        },
        Tree::Node { l, r, .. } => {
            match u {
                Tree::Leaf => {},
                Tree::Node { l: l2, r: r2, .. } => {
                    lemma_linked_once(c, c[x].l, *l, *l2);
                    lemma_linked_once(c, c[x].r, *r, *r2);
                },
            }
        },
    }
}

/// Where the sizes of a tree are right, those of its subtrees are.
pub proof fn lemma_size_below(c: Seq<Cell>, y: int, u: Tree, x: int, t: Tree)
    requires
        linked(c, y, u),
        sized(c, u),
        u.ids().contains(x),
        linked(c, x, t),
        x != 0,
    ensures
        c[x].sz == t.content().len(),
    decreases u,
{
    match u {
        Tree::Leaf => {
            assert(u.ids() == Set::<int>::empty());
        },
        Tree::Node { id, l, r, .. } => {
            if x == id {
                lemma_linked_once(c, x, t, u);
            } else if l.ids().contains(x) {
                lemma_size_below(c, c[y].l, *l, x, t);
            } else {
                assert(r.ids().contains(x));
                lemma_size_below(c, c[y].r, *r, x, t);
            }
        },
    }
}

/// Links, values and marks do not depend on the sizes.
pub proof fn lemma_linked_same(c: Seq<Cell>, d: Seq<Cell>, x: int, t: Tree)
    requires
        linked(c, x, t),
        c.len() == d.len(),
        forall|i: int|
            0 <= i < c.len() ==> (#[trigger] d[i]).l == c[i].l && d[i].r == c[i].r && d[i].val == c[i].val
                && d[i].rev == c[i].rev,
    ensures
        linked(d, x, t),
    decreases t,
{
    match t {
        Tree::Leaf => {},
        Tree::Node { l, r, .. } => {
            lemma_linked_same(c, d, c[x].l, *l);
            lemma_linked_same(c, d, c[x].r, *r);
        },
    }
}

/// The number 0 stands for the empty tree and no other number does.
pub proof fn lemma_zero(c: Seq<Cell>, x: int, t: Tree)
    requires
        linked(c, x, t),
    ensures
        x == 0 <==> t == Tree::Leaf,
        t != Tree::Leaf ==> t.content().len() == t.left().content().len() + t.right().content().len() + 1,
{
    match t {
        Tree::Leaf => {},
        Tree::Node { .. } => {},
    }
}

} // verus!
