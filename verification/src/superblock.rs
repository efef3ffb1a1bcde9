//! Superblocks: groups of blocks whose order and contents can be turned by flags, the
//! lists that name them, and what the operations on them do to the sequence.
use vstd::prelude::*;

use crate::blocks::copy_range;
use crate::brute::{reverse_avx2, toggle_mask};
use crate::desc::REV;

verus! {

use crate::arena::{lemma_total_slots, piece, slots, total_len};
use crate::blocks::{chunked, cut_block, joined, merge_at, merged, rebalanced};
use crate::desc::{
    contents_turned,
    flagged,
    lemma_plain,
    lemma_toggled,
    order_turned,
    sid_of,
    slot_of,
};
use crate::seqs::{concat, concat_each, flip, offset, reversed};
use crate::seqs::{
    lemma_concat_add,
    lemma_concat_around,
    lemma_concat_count,
    lemma_concat_flip,
    lemma_concat_join_pieces,
    lemma_concat_lens,
    lemma_concat_split_piece,
    lemma_offset_monotone,
    lemma_reverse_twice,
};

/// The number of blocks a superblock is meant to hold: it is split above twice as
/// many and merged below half as many.
pub const W: usize = 64;

/// The largest number of elements: superblock numbers have thirty bits.
pub const MAX_LEN: usize = 0x4000_0000;

/// A superblock: the descriptors of its blocks, their sizes, and the sum of the
/// sizes.
pub struct SB {
    pub descs: Vec<u32>,
    pub szs: Vec<u32>,
    pub total: u32,
}

/// Where an element stands: position in the outer list, slot in the superblock,
/// offset in the block.
#[derive(Clone, Copy)]
pub struct Loc {
    pub opos: u32,
    pub slot: u32,
    pub off: u32,
}

/// The blocks that `descs` describes, in order.
pub open spec fn base(pool: Seq<Vec<u32>>, descs: Seq<u32>) -> Seq<Seq<u32>> {
    Seq::new(descs.len(), |j: int| piece(pool, descs[j]))
}

/// The arena slot of block `j` of superblock `s`.
pub open spec fn block_at(sbs: Seq<SB>, s: int, j: int) -> int {
    slot_of(sbs[s].descs@[j])
}

/// No two blocks share an arena slot.
pub open spec fn distinct(sbs: Seq<SB>) -> bool {
    forall|s1: int, j1: int, s2: int, j2: int|
        0 <= s1 < sbs.len() && 0 <= j1 < sbs[s1].descs@.len() && 0 <= s2 < sbs.len() && 0 <= j2
            < sbs[s2].descs@.len() && (s1 != s2 || j1 != j2) ==> #[trigger] block_at(sbs, s1, j1)
            != #[trigger] block_at(sbs, s2, j2)
}

/// A block descriptor, with the size recorded for it, describes a block that is
/// there.
pub open spec fn block_ok(pool: Seq<Vec<u32>>, d: u32, sz: u32) -> bool {
    &&& 0 <= slot_of(d) < pool.len()
    &&& pool[slot_of(d)]@.len() > 0
    &&& sz == pool[slot_of(d)]@.len()
}

pub open spec fn sb_ok(pool: Seq<Vec<u32>>, sb: SB) -> bool {
    &&& sb.descs@.len() == sb.szs@.len()
    &&& forall|j: int|
        0 <= j < sb.descs@.len() ==> block_ok(pool, #[trigger] sb.descs@[j], sb.szs@[j])
    &&& sb.total == concat(base(pool, sb.descs@)).len()
}

/// The blocks of a superblock in the order and direction its flags give them.
pub open spec fn turned(blocks: Seq<Seq<u32>>, ord: bool, cont: bool) -> Seq<Seq<u32>> {
    Seq::new(
        blocks.len(),
        |k: int|
            {
                let p = blocks[if ord {
                    blocks.len() - 1 - k
                } else {
                    k
                }];
                if cont {
                    p.reverse()
                } else {
                    p
                }
            },
    )
}

/// The blocks of the superblock that `d` describes.
pub open spec fn group(bases: Seq<Seq<Seq<u32>>>, d: u32) -> Seq<Seq<u32>> {
    turned(bases[sid_of(d)], order_turned(d), contents_turned(d))
}

pub open spec fn groups(bases: Seq<Seq<Seq<u32>>>, outer: Seq<u32>) -> Seq<Seq<Seq<u32>>> {
    Seq::new(outer.len(), |o: int| group(bases, outer[o]))
}

/// The outer list names every superblock in use once, and the free list the
/// others, which are empty.
pub open spec fn outer_ok(bases: Seq<Seq<Seq<u32>>>, outer: Seq<u32>, sb_free: Seq<u32>) -> bool {
    &&& forall|o: int|
        0 <= o < outer.len() ==> 0 <= sid_of(#[trigger] outer[o]) < bases.len() && bases[sid_of(
            outer[o],
        )].len() > 0
    &&& forall|o1: int, o2: int|
        0 <= o1 < outer.len() && 0 <= o2 < outer.len() && o1 != o2 ==> sid_of(#[trigger] outer[o1])
            != sid_of(#[trigger] outer[o2])
    &&& forall|k: int|
        0 <= k < sb_free.len() ==> 0 <= #[trigger] sb_free[k] < bases.len()
            && bases[sb_free[k] as int].len() == 0
    &&& forall|k1: int, k2: int|
        0 <= k1 < sb_free.len() && 0 <= k2 < sb_free.len() && k1 != k2 ==> #[trigger] sb_free[k1]
            != #[trigger] sb_free[k2]
    &&& bases.len() == outer.len() + sb_free.len()
}

/// The two flags of a superblock are set together.
pub open spec fn paired(outer: Seq<u32>) -> bool {
    forall|o: int|
        0 <= o < outer.len() ==> order_turned(#[trigger] outer[o]) == contents_turned(outer[o])
}

/// No superblock but `x` and `y`, which may hold up to four times `W` blocks, has
/// more than twice `W`, and no block has more than `2 * b` elements.
pub open spec fn sized(bases: Seq<Seq<Seq<u32>>>, b: int, x: int, y: int) -> bool {
    &&& forall|s: int|
        0 <= s < bases.len() ==> (#[trigger] bases[s]).len() <= if s == x || s == y {
            4 * W
        } else {
            2 * W
        }
    &&& forall|s: int, j: int|
        0 <= s < bases.len() && 0 <= j < bases[s].len() ==> (#[trigger] bases[s][j]).len() <= 2 * b
}

pub proof fn lemma_turned_len(blocks: Seq<Seq<u32>>, ord: bool, cont: bool)
    ensures
        concat(turned(blocks, ord, cont)).len() == concat(blocks).len(),
{
    if ord {
        lemma_concat_flip(blocks);
        lemma_concat_lens(turned(blocks, ord, cont), flip(blocks));
    } else {
        lemma_concat_lens(turned(blocks, ord, cont), blocks);
    }
}

/// Turning the order of some blocks leaves the number of elements alone.
pub proof fn lemma_reversed_len(blocks: Seq<Seq<u32>>, l: int, r: int)
    requires
        0 <= l <= r <= blocks.len(),
    ensures
        concat(reversed(blocks, l, r)).len() == concat(blocks).len(),
{
    let mid = blocks.subrange(l, r);
    let rest = blocks.skip(r);
    assert(blocks =~= blocks.take(l) + mid + rest);
    assert(reversed(blocks, l, r) =~= blocks.take(l) + turned(mid, true, false) + rest);
    lemma_concat_add(blocks.take(l) + mid, rest);
    lemma_concat_add(blocks.take(l), mid);
    lemma_concat_add(blocks.take(l) + turned(mid, true, false), rest);
    lemma_concat_add(blocks.take(l), turned(mid, true, false));
    lemma_turned_len(mid, true, false);
}

/// `blocks` with the contents of the blocks `l..r` turned.
pub open spec fn toggled(blocks: Seq<Seq<u32>>, l: int, r: int) -> Seq<Seq<u32>> {
    Seq::new(
        blocks.len(),
        |k: int|
            if l <= k < r {
                blocks[k].reverse()
            } else {
                blocks[k]
            },
    )
}

/// Turning a superblock keeps the size bounds.
pub proof fn lemma_sized_turned(bases: Seq<Seq<Seq<u32>>>, s: int, ord: bool, cont: bool)
    requires
        0 <= s < bases.len(),
    ensures
        forall|b: int, x: int, y: int|
            sized(bases, b, x, y) ==> #[trigger] sized(bases.update(s, turned(bases[s], ord, cont)), b, x, y),
{
    let n = bases.update(s, turned(bases[s], ord, cont));
    assert forall|b: int, x: int, y: int| sized(bases, b, x, y) implies #[trigger] sized(n, b, x, y) by {
        assert forall|t: int, j: int| 0 <= t < n.len() && 0 <= j < n[t].len() implies (#[trigger] n[t][j]).len()
            <= 2 * b by {
            let i = if t == s && ord {
                bases[s].len() - 1 - j
            } else {
                j
            };
            assert(bases[t][i].len() <= 2 * b);
        }
        assert forall|t: int| 0 <= t < n.len() implies (#[trigger] n[t]).len() <= if t == x || t == y {
            4 * W
        } else {
            2 * W
        } by {
            assert(bases[t].len() == n[t].len());
        }
    }
}

/// Giving a superblock without flags new blocks.
pub proof fn lemma_groups_update(bases: Seq<Seq<Seq<u32>>>, outer: Seq<u32>, o: int, blocks: Seq<Seq<u32>>)
    requires
        0 <= o < outer.len(),
        forall|k: int| 0 <= k < outer.len() ==> 0 <= sid_of(#[trigger] outer[k]) < bases.len(),
        forall|k: int| 0 <= k < outer.len() && k != o ==> sid_of(#[trigger] outer[k]) != sid_of(outer[o]),
        !order_turned(outer[o]),
        !contents_turned(outer[o]),
    ensures
        groups(bases.update(sid_of(outer[o]), blocks), outer) == groups(bases, outer).update(o, blocks),
        groups(bases, outer)[o] == bases[sid_of(outer[o])],
{
    assert(turned(blocks, false, false) =~= blocks);
    assert(turned(bases[sid_of(outer[o])], false, false) =~= bases[sid_of(outer[o])]);
    let b1 = bases.update(sid_of(outer[o]), blocks);
    assert forall|k: int| 0 <= k < outer.len() implies groups(b1, outer)[k] == groups(bases, outer).update(
        o,
        blocks,
    )[k] by {
        if k != o {
            assert(sid_of(outer[k]) != sid_of(outer[o]));
            assert(b1[sid_of(outer[k])] == bases[sid_of(outer[k])]);
        }
    }
    assert(groups(b1, outer) =~= groups(bases, outer).update(o, blocks));
}

/// Giving a superblock with both flags or none other blocks with the same elements.
pub proof fn lemma_groups_rebased(bases: Seq<Seq<Seq<u32>>>, outer: Seq<u32>, o: int, blocks: Seq<Seq<u32>>)
    requires
        0 <= o < outer.len(),
        forall|k: int| 0 <= k < outer.len() ==> 0 <= sid_of(#[trigger] outer[k]) < bases.len(),
        forall|k: int| 0 <= k < outer.len() && k != o ==> sid_of(#[trigger] outer[k]) != sid_of(outer[o]),
        order_turned(outer[o]) == contents_turned(outer[o]),
        concat(blocks) == concat(bases[sid_of(outer[o])]),
    ensures
        concat_each(groups(bases.update(sid_of(outer[o]), blocks), outer)) == concat_each(groups(bases, outer)),
{
    let b1 = bases.update(sid_of(outer[o]), blocks);
    let base = bases[sid_of(outer[o])];
    assert(turned(blocks, true, true) =~= flip(blocks));
    assert(turned(base, true, true) =~= flip(base));
    assert(turned(blocks, false, false) =~= blocks);
    assert(turned(base, false, false) =~= base);
    lemma_concat_flip(blocks);
    lemma_concat_flip(base);
    assert forall|k: int| 0 <= k < outer.len() implies concat_each(groups(b1, outer))[k] == concat_each(
        groups(bases, outer),
    )[k] by {
        if k != o {
            assert(sid_of(outer[k]) != sid_of(outer[o]));
            assert(b1[sid_of(outer[k])] == bases[sid_of(outer[k])]);
        }
    }
    assert(concat_each(groups(b1, outer)) =~= concat_each(groups(bases, outer)));
}

pub open spec fn size_sum(szs: Seq<u32>) -> nat
    decreases szs.len(),
{
    if szs.len() == 0 {
        0
    } else {
        size_sum(szs.drop_last()) + szs.last() as nat
    }
}

pub proof fn lemma_size_sum(szs: Seq<u32>, blocks: Seq<Seq<u32>>)
    requires
        szs.len() == blocks.len(),
        forall|j: int| 0 <= j < szs.len() ==> #[trigger] szs[j] == blocks[j].len(),
    ensures
        size_sum(szs) == concat(blocks).len(),
    decreases szs.len(),
{
    if szs.len() > 0 {
        lemma_size_sum(szs.drop_last(), blocks.drop_last());
        assert(szs[szs.len() - 1] == blocks[blocks.len() - 1].len());
    }
}

pub proof fn lemma_size_sum_monotone(szs: Seq<u32>, i: int)
    requires
        0 <= i <= szs.len(),
    ensures
        size_sum(szs.take(i)) <= size_sum(szs),
    decreases szs.len() - i,
{
    if i < szs.len() {
        lemma_size_sum_monotone(szs, i + 1);
        assert(szs.take(i + 1).drop_last() =~= szs.take(i));
    } else {
        assert(szs.take(i) =~= szs);
    }
}

/// The sum of the sizes.
pub fn sum_sizes(szs: &Vec<u32>) -> (t: u32)
    requires
        size_sum(szs@) <= u32::MAX,
    ensures
        t == size_sum(szs@),
{
    let mut t: u32 = 0;
    let mut i: usize = 0;
    assert(szs@.take(0) =~= Seq::empty());
    while i < szs.len()
        invariant
            i <= szs@.len(),
            t == size_sum(szs@.take(i as int)),
            size_sum(szs@) <= u32::MAX,
        decreases szs@.len() - i,
    {
        proof {
            assert(szs@.take(i + 1).drop_last() =~= szs@.take(i as int));
            lemma_size_sum_monotone(szs@, i + 1);
        }
        t = t + szs[i];
        i = i + 1;
    }
    assert(szs@.take(i as int) =~= szs@);
    t
}

/// Splitting the superblock at `o`, which has no flags, before its block `h`.
pub proof fn lemma_groups_split(
    b0: Seq<Seq<Seq<u32>>>,
    b1: Seq<Seq<Seq<u32>>>,
    outer: Seq<u32>,
    sb_free: Seq<u32>,
    o: int,
    h: int,
    nid: u32,
    free1: Seq<u32>,
)
    requires
        outer_ok(b0, outer, sb_free),
        0 <= o < outer.len(),
        !order_turned(outer[o]),
        !contents_turned(outer[o]),
        0 < h < b0[sid_of(outer[o])].len(),
        sid_of(nid) == nid,
        !order_turned(nid),
        !contents_turned(nid),
        sb_free.len() > 0 ==> nid == sb_free.last() && free1 == sb_free.drop_last() && b1.len() == b0.len(),
        sb_free.len() == 0 ==> nid == b0.len() && free1 == sb_free && b1.len() == b0.len() + 1,
        b1[sid_of(outer[o])] == b0[sid_of(outer[o])].take(h),
        b1[nid as int] == b0[sid_of(outer[o])].skip(h),
        forall|s: int| 0 <= s < b0.len() && s != sid_of(outer[o]) && s != nid ==> #[trigger] b1[s] == b0[s],
    ensures
        outer_ok(b1, outer.insert(o + 1, nid), free1),
        groups(b1, outer.insert(o + 1, nid)) == groups(b0, outer).update(
            o,
            groups(b0, outer)[o].take(h),
        ).insert(o + 1, groups(b0, outer)[o].skip(h)),
        concat(groups(b1, outer.insert(o + 1, nid))) == concat(groups(b0, outer)),
        groups(b0, outer)[o] == b0[sid_of(outer[o])],
{
    let outer1 = outer.insert(o + 1, nid);
    let gs = groups(b0, outer);
    let g = b0[sid_of(outer[o])];
    assert(turned(g, false, false) =~= g);
    assert(turned(g.take(h), false, false) =~= g.take(h));
    assert(turned(g.skip(h), false, false) =~= g.skip(h));
    assert forall|k: int| 0 <= k < outer.len() implies sid_of(#[trigger] outer[k]) != nid by {
        if sb_free.len() > 0 {
            assert(sb_free[sb_free.len() - 1] == nid);
        }
    }
    let want = gs.update(o, g.take(h)).insert(o + 1, g.skip(h));
    assert forall|k: int| 0 <= k < outer1.len() implies groups(b1, outer1)[k] == want[k] by {
        if k < o {
            assert(sid_of(outer[k]) != sid_of(outer[o]));
            assert(b1[sid_of(outer[k])] == b0[sid_of(outer[k])]);
        } else if k > o + 1 {
            assert(outer1[k] == outer[k - 1]);
            assert(sid_of(outer[k - 1]) != sid_of(outer[o]));
            assert(b1[sid_of(outer[k - 1])] == b0[sid_of(outer[k - 1])]);
        }
    }
    assert(groups(b1, outer1) =~= want);
    lemma_concat_split_piece(gs, o, h);
    assert forall|k: int| 0 <= k < outer1.len() implies 0 <= sid_of(#[trigger] outer1[k]) < b1.len() && b1[sid_of(
        outer1[k],
    )].len() > 0 by {
        if k <= o {
            assert(outer1[k] == outer[k]);
        } else if k > o + 1 {
            assert(outer1[k] == outer[k - 1]);
        }
    }
    assert forall|o1: int, o2: int|
        0 <= o1 < outer1.len() && 0 <= o2 < outer1.len() && o1 != o2 implies sid_of(#[trigger] outer1[o1])
        != sid_of(#[trigger] outer1[o2]) by {
        let p1 = if o1 > o {
            o1 - 1
        } else {
            o1
        };
        let p2 = if o2 > o {
            o2 - 1
        } else {
            o2
        };
        assert(o1 != o + 1 ==> outer1[o1] == outer[p1]);
        assert(o2 != o + 1 ==> outer1[o2] == outer[p2]);
    }
    assert forall|k: int| 0 <= k < free1.len() implies 0 <= #[trigger] free1[k] < b1.len() && b1[free1[k] as int].len()
        == 0 by {
        assert(free1[k] == sb_free[k]);
        assert(sb_free[k] != sb_free[sb_free.len() - 1]);
    }
}

/// Joining the superblocks at `o` and `o + 1`, which have no flags.
pub proof fn lemma_groups_join(
    b0: Seq<Seq<Seq<u32>>>,
    b1: Seq<Seq<Seq<u32>>>,
    outer: Seq<u32>,
    sb_free: Seq<u32>,
    o: int,
)
    requires
        outer_ok(b0, outer, sb_free),
        0 <= o,
        o + 1 < outer.len(),
        !order_turned(outer[o]),
        !contents_turned(outer[o]),
        !order_turned(outer[o + 1]),
        !contents_turned(outer[o + 1]),
        b1 == b0.update(sid_of(outer[o]), b0[sid_of(outer[o])] + b0[sid_of(outer[o + 1])]).update(
            sid_of(outer[o + 1]),
            Seq::empty(),
        ),
    ensures
        outer_ok(b1, outer.remove(o + 1), sb_free.push(sid_of(outer[o + 1]) as u32)),
        groups(b1, outer.remove(o + 1)) == joined(groups(b0, outer), o),
        concat(groups(b1, outer.remove(o + 1))) == concat(groups(b0, outer)),
{
    let outer1 = outer.remove(o + 1);
    let free1 = sb_free.push(sid_of(outer[o + 1]) as u32);
    let gs = groups(b0, outer);
    let l = sid_of(outer[o]);
    let r = sid_of(outer[o + 1]);
    assert(turned(b0[l], false, false) =~= b0[l]);
    assert(turned(b0[r], false, false) =~= b0[r]);
    assert(turned(b0[l] + b0[r], false, false) =~= b0[l] + b0[r]);
    let want = joined(gs, o);
    assert forall|k: int| 0 <= k < outer1.len() implies groups(b1, outer1)[k] == want[k] by {
        if k < o {
            assert(outer1[k] == outer[k]);
            assert(b1[sid_of(outer[k])] == b0[sid_of(outer[k])]);
        } else if k > o {
            assert(outer1[k] == outer[k + 1]);
            assert(b1[sid_of(outer[k + 1])] == b0[sid_of(outer[k + 1])]);
        }
    }
    assert(groups(b1, outer1) =~= want);
    lemma_concat_join_pieces(gs, o);
    assert forall|k: int| 0 <= k < outer1.len() implies 0 <= sid_of(#[trigger] outer1[k]) < b1.len() && b1[sid_of(
        outer1[k],
    )].len() > 0 by {
        let q = if k > o {
            k + 1
        } else {
            k
        };
        assert(outer1[k] == outer[q]);
        assert(b0[sid_of(outer[q])].len() > 0);
    }
    assert forall|o1: int, o2: int|
        0 <= o1 < outer1.len() && 0 <= o2 < outer1.len() && o1 != o2 implies sid_of(#[trigger] outer1[o1])
        != sid_of(#[trigger] outer1[o2]) by {
        let p1 = if o1 > o {
            o1 + 1
        } else {
            o1
        };
        let p2 = if o2 > o {
            o2 + 1
        } else {
            o2
        };
        assert(outer1[o1] == outer[p1]);
        assert(outer1[o2] == outer[p2]);
    }
    assert forall|k: int| 0 <= k < free1.len() implies 0 <= #[trigger] free1[k] < b1.len() && b1[free1[k] as int].len()
        == 0 by {
        if k < sb_free.len() {
            assert(free1[k] == sb_free[k]);
            assert(b0[sb_free[k] as int].len() == 0);
        }
    }
    assert forall|k1: int, k2: int|
        0 <= k1 < free1.len() && 0 <= k2 < free1.len() && k1 != k2 implies #[trigger] free1[k1]
        != #[trigger] free1[k2] by {
        assert(k1 < sb_free.len() ==> b0[sb_free[k1] as int].len() == 0);
        assert(k2 < sb_free.len() ==> b0[sb_free[k2] as int].len() == 0);
    }
}

/// The blocks of a superblock after each of them, from number `k` on, has been merged
/// with a neighbour if it has fewer than `b` elements. A block that has grown is not
/// looked at again.
pub open spec fn scanned(blocks: Seq<Seq<u32>>, k: int, b: int) -> Seq<Seq<u32>>
    decreases blocks.len() - k,
{
    if k < 0 || k >= blocks.len() {
        blocks
    } else {
        let m = merged(blocks, k, b, 2 * b);
        if m.len() == blocks.len() - 1 {
            scanned(m, k, b)
        } else {
            scanned(blocks, k + 1, b)
        }
    }
}

/// Neighbouring blocks `k` and `k + 1` cannot be merged: neither has fewer than `b`
/// elements, or the two have more than `2 * b`.
pub open spec fn apart(blocks: Seq<Seq<u32>>, k: int, b: int) -> bool {
    blocks[k].len() < b || blocks[k + 1].len() < b ==> blocks[k].len() + blocks[k + 1].len() > 2 * b
}

proof fn lemma_scanned(blocks: Seq<Seq<u32>>, k: int, b: int)
    requires
        0 <= k <= blocks.len(),
        forall|j: int| 0 <= j && j + 1 < k ==> #[trigger] apart(blocks, j, b),
        0 < k < blocks.len() && blocks[k - 1].len() < b ==> blocks[k - 1].len() + blocks[k].len() > 2 * b,
    ensures
        forall|j: int|
            0 <= j && j + 1 < scanned(blocks, k, b).len() ==> #[trigger] apart(scanned(blocks, k, b), j, b),
    decreases blocks.len() - k,
{
    if k < blocks.len() {
        let m = merged(blocks, k, b, 2 * b);
        let at = merge_at(blocks, k, b, 2 * b);
        if at >= 0 {
            assert(m.len() == blocks.len() - 1);
            assert forall|j: int| 0 <= j && j + 1 < k implies #[trigger] apart(m, j, b) by {
                assert(apart(blocks, j, b));
                assert(m[j].len() >= blocks[j].len());
                assert(m[j + 1].len() >= blocks[j + 1].len());
            }
            lemma_scanned(m, k, b);
            assert(scanned(blocks, k, b) == scanned(m, k, b));
        } else {
            assert forall|j: int| 0 <= j && j + 1 < k + 1 implies #[trigger] apart(blocks, j, b) by {
                if j + 1 < k {
                    assert(apart(blocks, j, b));
                }
            }
            lemma_scanned(blocks, k + 1, b);
            assert(scanned(blocks, k, b) == scanned(blocks, k + 1, b));
        }
    } else {
        assert(scanned(blocks, k, b) == blocks);
    }
}

/// Once the blocks of a superblock have been scanned, no two neighbours are left to be
/// merged.
pub proof fn law_scanned(blocks: Seq<Seq<u32>>, b: int)
    ensures
        forall|j: int|
            0 <= j && j + 1 < scanned(blocks, 0, b).len() ==> #[trigger] apart(scanned(blocks, 0, b), j, b),
{
    lemma_scanned(blocks, 0, b);
}

/// Blocks that cannot be merged are bounded in number: there is at most one more of
/// them than their elements fill blocks of `b`.
pub proof fn law_few_blocks(blocks: Seq<Seq<u32>>, b: int)
    requires
        b > 0,
        forall|j: int| 0 <= j && j + 1 < blocks.len() ==> #[trigger] apart(blocks, j, b),
    ensures
        (blocks.len() - 1) * b <= concat(blocks).len(),
    decreases blocks.len(),
{
    let n = blocks.len();
    if n <= 1 {
        assert((n - 1) * b <= 0) by (nonlinear_arith)
            requires
                n <= 1,
                b > 0,
        ;
    } else {
        let front = blocks.drop_last().drop_last();
        assert forall|j: int| 0 <= j && j + 1 < front.len() implies #[trigger] apart(front, j, b) by {
            assert(apart(blocks, j, b));
        }
        law_few_blocks(front, b);
        assert(apart(blocks, n - 2, b));
        assert(blocks.drop_last().last() == blocks[n - 2]);
        assert(concat(blocks) == concat(blocks.drop_last()) + blocks[n - 1]);
        assert(concat(blocks.drop_last()) == concat(front) + blocks[n - 2]);
        assert((n - 1) * b == (n - 3) * b + 2 * b) by (nonlinear_arith);
    }
}

/// A place: a superblock, a block in it, and an element in that.
pub open spec fn placed(gs: Seq<Seq<Seq<u32>>>, at: (int, int, int), k: int) -> bool {
    let (o, q, off) = at;
    &&& 0 <= o < gs.len()
    &&& 0 <= q < gs[o].len()
    &&& 0 <= off < gs[o][q].len()
    &&& offset(concat_each(gs), o) + offset(gs[o], q) + off == k
}

/// The superblocks after a cut before element `off` of block `q` of superblock `o`;
/// a superblock that has too many blocks then is split in half.
pub open spec fn cut_before(gs: Seq<Seq<Seq<u32>>>, o: int, q: int, off: int) -> Seq<Seq<Seq<u32>>> {
    if off == 0 || off >= gs[o][q].len() {
        gs
    } else {
        let cut = gs.update(o, cut_block(gs[o], q, off));
        if cut[o].len() > 2 * W {
            cut_block(cut, o, cut[o].len() as int / 2)
        } else {
            cut
        }
    }
}

/// The superblocks after everything from block `si` of superblock `oi` to block `sj`
/// of the later superblock `oj` has been turned over: these two trade their inner
/// blocks and those between them trade places.
pub open spec fn traded(gs: Seq<Seq<Seq<u32>>>, oi: int, si: int, oj: int, sj: int) -> Seq<Seq<Seq<u32>>> {
    Seq::new(
        gs.len(),
        |k: int|
            if k == oi {
                gs[oi].take(si) + flip(gs[oj].take(sj + 1))
            } else if k == oj {
                flip(gs[oi].skip(si)) + gs[oj].skip(sj + 1)
            } else if oi < k < oj {
                flip(gs[oi + oj - k])
            } else {
                gs[k]
            },
    )
}

/// The superblocks after the small blocks of the superblocks `oi` and `oj` have been
/// merged and these two have been rebalanced, the later one first.
pub open spec fn settled(gs: Seq<Seq<Seq<u32>>>, b: int, oi: int, oj: int) -> Seq<Seq<Seq<u32>>> {
    let merged = gs.update(oi, scanned(gs[oi], 0, b)).update(oj, scanned(gs[oj], 0, b));
    rebalanced(rebalanced(merged, oj, W as int), oi, W as int)
}

/// The superblocks after turning over the blocks from `si` of superblock `oi` to `sj`
/// of superblock `oj`.
pub open spec fn row_reversed(
    gs: Seq<Seq<Seq<u32>>>,
    b: int,
    oi: int,
    si: int,
    oj: int,
    sj: int,
) -> Seq<Seq<Seq<u32>>> {
    if oi == oj {
        gs.update(oi, gs[oi].take(si) + flip(gs[oi].subrange(si, sj + 1)) + gs[oi].skip(sj + 1))
    } else {
        settled(traded(gs, oi, si, oj, sj), b, oi, oj)
    }
}

/// The superblocks after cuts before element `l`, which is at `x`, and after element
/// `r`, which is at `y` by then.
pub open spec fn isolated(
    gs: Seq<Seq<Seq<u32>>>,
    l: int,
    r: int,
    x: (int, int, int),
    y: (int, int, int),
    out: Seq<Seq<Seq<u32>>>,
) -> bool {
    let once = cut_before(gs, x.0, x.1, x.2);
    &&& placed(gs, x, l)
    &&& placed(once, y, r)
    &&& out == cut_before(once, y.0, y.1, y.2 + 1)
}

/// Reversing the elements `l..=r` turns the superblocks `gs` into `out`: cuts make the
/// range a row of whole blocks, and the row is turned over.
pub open spec fn superblocks_reversed(
    gs: Seq<Seq<Seq<u32>>>,
    b: int,
    l: int,
    r: int,
    out: Seq<Seq<Seq<u32>>>,
) -> bool {
    exists|x: (int, int, int), y: (int, int, int), row: Seq<Seq<Seq<u32>>>, v: (int, int, int), w: (int, int, int)|
        #[trigger] isolated(gs, l, r, x, y, row) && #[trigger] placed(row, v, l) && #[trigger] placed(row, w, r)
            && out == row_reversed(row, b, v.0, v.1, w.0, w.1)
}

/// `x`, unless it is `s`.
pub open spec fn dropped(x: int, s: int) -> int {
    if x == s {
        -1
    } else {
        x
    }
}

pub proof fn lemma_sized_split(
    b0: Seq<Seq<Seq<u32>>>,
    b1: Seq<Seq<Seq<u32>>>,
    b: int,
    x: int,
    y: int,
    s: int,
    n: int,
    h: int,
)
    requires
        sized(b0, b, x, y),
        0 <= s < b0.len(),
        0 <= n < b1.len(),
        n != s,
        b0.len() <= b1.len() <= b0.len() + 1,
        b1.len() > b0.len() ==> n == b0.len(),
        h == b0[s].len() / 2,
        b0[s].len() <= 4 * W,
        b1[s] == b0[s].take(h),
        b1[n] == b0[s].skip(h),
        forall|k: int| 0 <= k < b0.len() && k != s && k != n ==> #[trigger] b1[k] == b0[k],
    ensures
        sized(b1, b, dropped(x, s), dropped(y, s)),
{
    assert forall|t: int| 0 <= t < b1.len() implies (#[trigger] b1[t]).len() <= if t == dropped(x, s) || t
        == dropped(y, s) {
        4 * W
    } else {
        2 * W
    } by {
        if t != s && t != n {
            assert(b1[t] == b0[t]);
            assert(b0[t].len() <= 4 * W);
        }
    }
    assert forall|t: int, j: int| 0 <= t < b1.len() && 0 <= j < b1[t].len() implies (#[trigger] b1[t][j]).len() <= 2
        * b by {
        if t == s {
            assert(b0[s][j].len() <= 2 * b);
        } else if t == n {
            assert(b0[s][h + j].len() <= 2 * b);
        } else {
            assert(b1[t] == b0[t]);
            assert(b0[t][j].len() <= 2 * b);
        }
    }
}

/// Some piece starts, or the last one ends, at position `p`.
pub open spec fn cut_at(ss: Seq<Seq<u32>>, p: int) -> bool {
    exists|i: int| 0 <= i <= ss.len() && #[trigger] offset(ss, i) == p
}

/// Position `p` is in piece `i`.
pub open spec fn covers(ss: Seq<Seq<u32>>, i: int, p: int) -> bool {
    0 <= i < ss.len() && offset(ss, i) <= p < offset(ss, i) + ss[i].len()
}

/// Cutting piece `i` in two keeps where the other pieces start.
pub proof fn lemma_cut_starts(ss: Seq<Seq<u32>>, i: int, at: int)
    requires
        0 <= i < ss.len(),
        0 <= at <= ss[i].len(),
    ensures
        ({
            let n = ss.update(i, ss[i].take(at)).insert(i + 1, ss[i].skip(at));
            &&& n.len() == ss.len() + 1
            &&& offset(n, i + 1) == offset(ss, i) + at
            &&& forall|j: int| 0 <= j <= i ==> #[trigger] offset(n, j) == offset(ss, j)
            &&& forall|j: int|
                #![trigger offset(ss, j)]
                i < j <= ss.len() ==> offset(n, j + 1) == offset(ss, j)
        }),
{
    let n = ss.update(i, ss[i].take(at)).insert(i + 1, ss[i].skip(at));
    assert forall|j: int| 0 <= j <= i implies #[trigger] offset(n, j) == offset(ss, j) by {
        assert(n.take(j) =~= ss.take(j));
    }
    assert forall|j: int| #![trigger offset(ss, j)] i < j <= ss.len() implies offset(n, j + 1) == offset(ss, j) by {
        let t = ss.take(j);
        lemma_concat_split_piece(t, i, at);
        assert(n.take(j + 1) =~= t.update(i, t[i].take(at)).insert(i + 1, t[i].skip(at)));
    }
    assert(offset(n, i) == offset(ss, i));
    lemma_concat_around(n, i);
}

/// Cutting a piece keeps the cuts there are and adds one.
pub proof fn lemma_cuts(ss: Seq<Seq<u32>>, i: int, at: int)
    requires
        0 <= i < ss.len(),
        0 <= at <= ss[i].len(),
    ensures
        ({
            let n = ss.update(i, ss[i].take(at)).insert(i + 1, ss[i].skip(at));
            &&& cut_at(n, offset(ss, i) + at)
            &&& forall|p: int| cut_at(ss, p) ==> #[trigger] cut_at(n, p)
        }),
{
    let n = ss.update(i, ss[i].take(at)).insert(i + 1, ss[i].skip(at));
    lemma_cut_starts(ss, i, at);
    assert forall|p: int| cut_at(ss, p) implies #[trigger] cut_at(n, p) by {
        let j = choose|j: int| 0 <= j <= ss.len() && #[trigger] offset(ss, j) == p;
        if j <= i {
            assert(offset(n, j) == p);
        } else {
            assert(offset(n, j + 1) == p);
        }
    }
}

/// At a cut an element is the first of its piece.
pub proof fn lemma_first_at_cut(ss: Seq<Seq<u32>>, i: int, off: int)
    requires
        0 <= i < ss.len(),
        0 <= off < ss[i].len(),
        cut_at(ss, offset(ss, i) + off),
    ensures
        off == 0,
{
    let j = choose|j: int| 0 <= j <= ss.len() && #[trigger] offset(ss, j) == offset(ss, i) + off;
    if j <= i {
        lemma_offset_monotone(ss, j, i);
    } else {
        lemma_offset_monotone(ss, i + 1, j);
        lemma_concat_around(ss, i);
    }
}

/// Before a cut an element is the last of its piece.
pub proof fn lemma_last_before_cut(ss: Seq<Seq<u32>>, i: int, off: int)
    requires
        0 <= i < ss.len(),
        0 <= off < ss[i].len(),
        cut_at(ss, offset(ss, i) + off + 1),
    ensures
        off + 1 == ss[i].len(),
{
    if off + 1 < ss[i].len() {
        lemma_first_at_cut(ss, i, off + 1);
    }
}

/// A superblock is untouched by changes to blocks of others.
pub proof fn lemma_frame(pool0: Seq<Vec<u32>>, pool1: Seq<Vec<u32>>, sb: SB)
    requires
        sb_ok(pool0, sb),
        pool1.len() >= pool0.len(),
        forall|j: int|
            0 <= j < sb.descs@.len() ==> pool1[slot_of(#[trigger] sb.descs@[j])] == pool0[slot_of(
                sb.descs@[j],
            )],
    ensures
        sb_ok(pool1, sb),
        base(pool1, sb.descs@) == base(pool0, sb.descs@),
{
    assert(base(pool1, sb.descs@) =~= base(pool0, sb.descs@));
    assert forall|j: int| 0 <= j < sb.descs@.len() implies block_ok(
        pool1,
        #[trigger] sb.descs@[j],
        sb.szs@[j],
    ) by {
        assert(block_ok(pool0, sb.descs@[j], sb.szs@[j]));
    }
}

/// The sizes `l..r` in the opposite order.
pub fn turned_sizes(szs: &Vec<u32>, l: usize, r: usize) -> (v: Vec<u32>)
    requires
        l <= r <= szs@.len(),
    ensures
        v@.len() == r - l,
        forall|j: int| 0 <= j < v@.len() ==> #[trigger] v@[j] == szs@[r - 1 - j],
{
    let mut v: Vec<u32> = copy_range(szs, l, r);
    let n: usize = v.len();
    reverse_avx2(&mut v, 0, n);
    v
}

/// The descriptors `l..r` in the opposite order and with the opposite flags.
pub fn turned_descs(descs: &Vec<u32>, l: usize, r: usize) -> (v: Vec<u32>)
    requires
        l <= r <= descs@.len() <= u32::MAX,
    ensures
        v@.len() == r - l,
        forall|j: int|
            0 <= j < v@.len() ==> {
                &&& slot_of(#[trigger] v@[j]) == slot_of(descs@[r - 1 - j])
                &&& flagged(v@[j]) == !flagged(descs@[r - 1 - j])
            },
{
    let mut v: Vec<u32> = copy_range(descs, l, r);
    let n: usize = v.len();
    reverse_avx2(&mut v, 0, n);
    let ghost w = v@;
    toggle_mask(&mut v, 0, n as u32, REV);
    proof {
        assert forall|j: int| 0 <= j < v@.len() implies {
            &&& slot_of(#[trigger] v@[j]) == slot_of(descs@[r - 1 - j])
            &&& flagged(v@[j]) == !flagged(descs@[r - 1 - j])
        } by {
            assert(w[j] == descs@[r - 1 - j]);
            assert(v@[j] == w[j] ^ REV);
            lemma_toggled(w[j]);
        }
    }
    v
}

/// Which block, by superblock and slot, a trade puts in slot `j` of superblock `s`.
pub open spec fn origin(ai: int, si: int, di: int, sj: int, ac: int, s: int, j: int) -> (int, int) {
    if s == ai && j >= si {
        (di, sj - (j - si))
    } else if s == di && j < ac - si {
        (ai, ac - 1 - j)
    } else if s == di {
        (di, j - (ac - si) + sj + 1)
    } else {
        (s, j)
    }
}

/// Turning both flags over turns the superblock over.
pub proof fn lemma_turned_flip(blocks: Seq<Seq<u32>>, ord: bool, cont: bool)
    ensures
        turned(blocks, !ord, !cont) == flip(turned(blocks, ord, cont)),
{
    let x = turned(blocks, !ord, !cont);
    let y = flip(turned(blocks, ord, cont));
    assert forall|k: int| 0 <= k < x.len() implies x[k] == y[k] by {
        let p = blocks[if ord {
            k
        } else {
            blocks.len() - 1 - k
        }];
        lemma_reverse_twice(p);
    }
    assert(x =~= y);
}

/// Cuts `a` into blocks of `b` elements; the last one may be smaller.
pub fn fill_pool(a: &[u32], b: u32) -> (pool: Vec<Vec<u32>>)
    requires
        b > 0,
    ensures
        concat(slots(pool@)) == a@,
        forall|k: int| 0 <= k < pool@.len() ==> 0 < (#[trigger] pool@[k])@.len() <= b,
        chunked(slots(pool@), b as int),
{
    let mut pool: Vec<Vec<u32>> = Vec::new();
    let mut i: usize = 0;
    while i < a.len()
        invariant
            i <= a@.len(),
            b > 0,
            forall|k: int|
                0 <= k < pool@.len() ==> 0 < (#[trigger] pool@[k])@.len() <= b && (i < a@.len() || k + 1
                    < pool@.len() ==> pool@[k]@.len() == b),
            concat(slots(pool@)) == a@.take(i as int),
        decreases a@.len() - i,
    {
        let e: usize = if a.len() - i <= b as usize {
            a.len()
        } else {
            i + b as usize
        };
        let block: Vec<u32> = copy_range(a, i, e);
        let ghost before = pool@;
        pool.push(block);
        proof {
            assert(slots(pool@).drop_last() =~= slots(before));
            assert(a@.take(e as int) =~= a@.take(i as int) + block@);
        }
        i = e;
    }
    assert(a@.take(a@.len() as int) =~= a@);
    pool
}

/// Superblocks of `W` blocks each, the last one of at most `W`, that name the blocks
/// of the arena in order.
pub open spec fn in_order(sbs: Seq<SB>, last: SB) -> bool {
    &&& last.descs@.len() <= W
    &&& forall|s: int| 0 <= s < sbs.len() ==> (#[trigger] sbs[s]).descs@.len() == W
    &&& forall|s: int, j: int|
        0 <= s < sbs.len() && 0 <= j < W ==> #[trigger] sbs[s].descs@[j] == s * (W as int) + j
    &&& forall|j: int|
        0 <= j < last.descs@.len() ==> #[trigger] last.descs@[j] == sbs.len() * (W as int) + j
}

/// Adds block `i` of the arena to the superblock under construction.
pub fn add_block(pool: &Vec<Vec<u32>>, sb: &mut SB, i: usize)
    requires
        sb_ok(pool@, *old(sb)),
        i < pool@.len() <= MAX_LEN,
        0 < pool@[i as int]@.len() <= MAX_LEN,
        concat(base(pool@, old(sb).descs@)).len() + pool@[i as int]@.len() <= MAX_LEN,
    ensures
        sb_ok(pool@, *final(sb)),
        final(sb).descs@ == old(sb).descs@.push(i as u32),
        base(pool@, final(sb).descs@) == base(pool@, old(sb).descs@).push(pool@[i as int]@),
{
    let sz: u32 = pool[i].len() as u32;
    let ghost o = *sb;
    proof {
        lemma_plain(i as u32);
    }
    sb.descs.push(i as u32);
    sb.szs.push(sz);
    sb.total = sb.total + sz;
    proof {
        assert(base(pool@, sb.descs@) =~= base(pool@, o.descs@).push(pool@[i as int]@));
        assert(base(pool@, sb.descs@).drop_last() =~= base(pool@, o.descs@));
        assert forall|j: int| 0 <= j < sb.descs@.len() implies block_ok(
            pool@,
            #[trigger] sb.descs@[j],
            sb.szs@[j],
        ) by {
            if j < o.descs@.len() {
                assert(block_ok(pool@, o.descs@[j], o.szs@[j]));
            }
        }
    }
}

/// The blocks of the superblocks `sbs`.
pub open spec fn bases_of(pool: Seq<Vec<u32>>, sbs: Seq<SB>) -> Seq<Seq<Seq<u32>>> {
    Seq::new(sbs.len(), |s: int| base(pool, sbs[s].descs@))
}

/// Groups the blocks of the arena into superblocks.
pub fn fill_superblocks(pool: &Vec<Vec<u32>>) -> (sbs: Vec<SB>)
    requires
        forall|k: int| 0 <= k < pool@.len() ==> 0 < (#[trigger] pool@[k])@.len(),
        pool@.len() <= total_len(pool@) <= MAX_LEN,
        pool@.len() > 0,
    ensures
        forall|s: int|
            0 <= s < sbs@.len() ==> sb_ok(pool@, #[trigger] sbs@[s]) && 0 < sbs@[s].descs@.len() <= W,
        chunked(bases_of(pool@, sbs@), W as int),
        forall|s: int, j: int|
            0 <= s < sbs@.len() && 0 <= j < sbs@[s].descs@.len() ==> !flagged(#[trigger] sbs@[s].descs@[j]),
        distinct(sbs@),
        concat(bases_of(pool@, sbs@)) == slots(pool@),
{
    let mut sbs: Vec<SB> = Vec::new();
    let mut sb: SB = SB { descs: Vec::new(), szs: Vec::new(), total: 0 };
    let mut i: usize = 0;
    let ghost ps = slots(pool@);
    proof {
        assert(base(pool@, sb.descs@) =~= Seq::empty());
        assert(ps.take(0) =~= Seq::empty());
    }
    while i < pool.len()
        invariant
            i <= pool@.len(),
            ps == slots(pool@),
            pool@.len() <= total_len(pool@) <= MAX_LEN,
            forall|k: int| 0 <= k < pool@.len() ==> 0 < (#[trigger] pool@[k])@.len(),
            in_order(sbs@, sb),
            i == sbs@.len() * (W as int) + sb.descs@.len(),
            i > 0 ==> sb.descs@.len() > 0,
            sb_ok(pool@, sb),
            forall|s: int| 0 <= s < sbs@.len() ==> sb_ok(pool@, #[trigger] sbs@[s]),
            concat(bases_of(pool@, sbs@)) + base(pool@, sb.descs@) == ps.take(i as int),
        decreases pool@.len() - i,
    {
        if sb.descs.len() == W {
            let mut full: SB = SB { descs: Vec::new(), szs: Vec::new(), total: 0 };
            std::mem::swap(&mut full, &mut sb);
            let ghost before = sbs@;
            sbs.push(full);
            proof {
                assert(base(pool@, sb.descs@) =~= Seq::empty());
                assert(bases_of(pool@, sbs@).drop_last() =~= bases_of(pool@, before));
                assert(concat(bases_of(pool@, sbs@)) + base(pool@, sb.descs@) =~= ps.take(i as int));
                assert forall|s: int| 0 <= s < sbs@.len() implies sb_ok(pool@, #[trigger] sbs@[s]) by {
                    if s < before.len() {
                        assert(sb_ok(pool@, before[s]));
                    }
                }
                assert forall|s: int, j: int| 0 <= s < sbs@.len() && 0 <= j < W implies #[trigger] sbs@[s].descs@[j] == s
                    * (W as int) + j by {
                    if s < before.len() {
                        assert(before[s].descs@[j] == s * (W as int) + j);
                    }
                }
                assert forall|s: int| 0 <= s < sbs@.len() implies (#[trigger] sbs@[s]).descs@.len() == W by {
                    if s < before.len() {
                        assert(before[s].descs@.len() == W);
                    }
                }
            }
        }
        let ghost o = sb;
        proof {
            lemma_concat_around(ps, i as int);
            lemma_concat_add(concat(bases_of(pool@, sbs@)), base(pool@, sb.descs@));
            lemma_total_slots(pool@);
        }
        add_block(pool, &mut sb, i);
        proof {
            assert(ps.take(i + 1) =~= ps.take(i as int).push(ps[i as int]));
            assert(concat(bases_of(pool@, sbs@)) + base(pool@, sb.descs@) =~= ps.take(i + 1));
            assert forall|j: int| 0 <= j < sb.descs@.len() implies #[trigger] sb.descs@[j] == sbs@.len() * (W as int)
                + j by {
                if j < o.descs@.len() {
                    assert(o.descs@[j] == sbs@.len() * (W as int) + j);
                }
            }
        }
        i = i + 1;
    }
    let ghost before = sbs@;
    let ghost last = sb;
    sbs.push(sb);
    proof {
        assert(ps.take(i as int) =~= ps);
        assert(bases_of(pool@, sbs@).drop_last() =~= bases_of(pool@, before));
        assert forall|s: int| 0 <= s < sbs@.len() implies sb_ok(pool@, #[trigger] sbs@[s]) && 0 < sbs@[s].descs@.len()
            <= W by {
            if s < before.len() {
                assert(sb_ok(pool@, before[s]) && before[s].descs@.len() == W);
            }
        }
        assert forall|s: int, j: int| 0 <= s < sbs@.len() && 0 <= j < sbs@[s].descs@.len() implies #[trigger] block_at(
            sbs@,
            s,
            j,
        ) == s * (W as int) + j by {
            if s < before.len() {
                assert(before[s].descs@[j] == s * (W as int) + j);
            } else {
                assert(last.descs@[j] == s * (W as int) + j);
            }
            lemma_plain(sbs@[s].descs@[j]);
        }
        assert forall|s: int, j: int| 0 <= s < sbs@.len() && 0 <= j < sbs@[s].descs@.len() implies !flagged(
            #[trigger] sbs@[s].descs@[j],
        ) by {
            assert(block_at(sbs@, s, j) == s * (W as int) + j);
            if s < before.len() {
                assert(before[s].descs@[j] == s * (W as int) + j);
            } else {
                assert(last.descs@[j] == s * (W as int) + j);
            }
            lemma_plain(sbs@[s].descs@[j]);
        }
        assert(distinct(sbs@)) by {
            assert forall|s1: int, j1: int, s2: int, j2: int|
                0 <= s1 < sbs@.len() && 0 <= j1 < sbs@[s1].descs@.len() && 0 <= s2 < sbs@.len() && 0 <= j2
                    < sbs@[s2].descs@.len() && (s1 != s2 || j1 != j2) implies #[trigger] block_at(sbs@, s1, j1)
                != #[trigger] block_at(sbs@, s2, j2) by {
                assert(sbs@[s1].descs@.len() <= W);
                assert(sbs@[s2].descs@.len() <= W);
            }
        }
    }
    sbs
}

pub proof fn lemma_superblock_count(pool: Seq<Vec<u32>>, sbs: Seq<SB>)
    requires
        forall|s: int| 0 <= s < sbs.len() ==> sb_ok(pool, #[trigger] sbs[s]) && 0 < sbs[s].descs@.len(),
        concat(bases_of(pool, sbs)) == slots(pool),
    ensures
        sbs.len() <= pool.len(),
{
    let bs = bases_of(pool, sbs);
    assert forall|s: int| 0 <= s < bs.len() implies (#[trigger] bs[s]).len() > 0 by {
        assert(sb_ok(pool, sbs[s]) && 0 < sbs[s].descs@.len());
    }
    lemma_concat_count(bs);
}

/// The numbers below `n`, in order.
pub fn count_up(n: usize) -> (v: Vec<u32>)
    requires
        n <= MAX_LEN,
    ensures
        v@.len() == n,
        forall|k: int| 0 <= k < n ==> #[trigger] v@[k] == k,
{
    let mut v: Vec<u32> = Vec::new();
    let mut i: usize = 0;
    while i < n
        invariant
            i <= n <= MAX_LEN,
            v@.len() == i,
            forall|k: int| 0 <= k < i ==> #[trigger] v@[k] == k,
        decreases n - i,
    {
        v.push(i as u32);
        i = i + 1;
    }
    v
}

/// What bounds the pieces of every list bounds those of all lists.
pub proof fn lemma_all_pieces(gs: Seq<Seq<Seq<u32>>>, max: nat)
    requires
        forall|o: int, q: int|
            0 <= o < gs.len() && 0 <= q < gs[o].len() ==> 0 < (#[trigger] gs[o][q]).len() <= max,
    ensures
        forall|i: int| 0 <= i < concat(gs).len() ==> 0 < (#[trigger] concat(gs)[i]).len() <= max,
    decreases gs.len(),
{
    if gs.len() > 0 {
        let front = gs.drop_last();
        assert forall|o: int, q: int| 0 <= o < front.len() && 0 <= q < front[o].len() implies 0 < (
        #[trigger] front[o][q]).len() <= max by {
            assert(gs[o][q].len() <= max);
        }
        lemma_all_pieces(front, max);
        assert forall|i: int| 0 <= i < concat(gs).len() implies 0 < (#[trigger] concat(gs)[i]).len() <= max by {
            let n = concat(front).len();
            if i < n {
                assert(concat(front)[i].len() <= max);
            } else {
                assert(gs[gs.len() - 1][i - n].len() <= max);
            }
        }
    }
}

/// The slot of block `q`, counted in sequence order, of a superblock with `n`
/// blocks.
pub fn slot_at(ord: bool, n: usize, q: usize) -> (j: usize)
    requires
        q < n,
    ensures
        j == if ord {
            n - 1 - q
        } else {
            q as int
        },
{
    if ord {
        n - 1 - q
    } else {
        q
    }
}

} // verus!
