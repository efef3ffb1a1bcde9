//! Two-level block decomposition: the blocks are grouped into superblocks, and a
//! superblock descriptor carries two lazy flags, one for the order of its blocks
//! and one for the contents of all of them.
use vstd::prelude::*;

use crate::arena::{put_block, take_block};
use crate::blocks::{append_reversed, append_slice, choose_block, copy_range};
use crate::brute::{reverse_avx2, toggle_mask};
use crate::desc::{is_contents_turned, is_flagged, is_order_turned, sb_slot, sb_unflagged, slot, unflagged};
use crate::desc::{CONT, ORD, REV, XMASK};
use crate::superblock::{count_up, fill_pool, fill_superblocks, slot_at, sum_sizes, turned_descs, turned_sizes};
use crate::superblock::{Loc, MAX_LEN, SB, W};

verus! {

use crate::arena::{free_list_full, free_list_ok, picked, rewritten, slots, taken, total_len};
use crate::arena::{lemma_picked, lemma_total_count, lemma_total_slots, lemma_total_update};
use crate::blocks::{chunked, cut_block, is_block_size, joined, merge_at, merged, rebalanced};
use crate::desc::{
    contents_turned,
    flagged,
    lemma_plain,
    lemma_sb_plain,
    lemma_sb_toggled,
    lemma_sb_unflagged,
    lemma_toggled,
    order_turned,
    sid_of,
    slot_of,
};
use crate::seqs::{
    concat,
    concat_each,
    flip,
    offset,
    reversed,
    spliced,
};
use crate::seqs::{
    lemma_concat_add,
    lemma_concat_around,
    lemma_concat_concat,
    lemma_concat_count,
    lemma_concat_cut,
    lemma_concat_flip,
    lemma_concat_join_pieces,
    lemma_concat_lens,
    lemma_concat_split_piece,
    lemma_locate_unique,
    lemma_offset_monotone,
    lemma_offset_two_levels,
    lemma_reverse_twice,
    lemma_reversed_inside,
    lemma_reversed_middle,
    lemma_spliced,
};
use crate::superblock::{
    apart,
    base,
    bases_of,
    block_at,
    block_ok,
    covers,
    cut_at,
    cut_before,
    distinct,
    dropped,
    groups,
    isolated,
    origin,
    outer_ok,
    paired,
    placed,
    row_reversed,
    sb_ok,
    scanned,
    settled,
    size_sum,
    sized,
    superblocks_reversed,
    toggled,
    traded,
    turned,
};
use crate::superblock::{
    lemma_all_pieces,
    lemma_cut_starts,
    lemma_cuts,
    lemma_first_at_cut,
    lemma_frame,
    lemma_groups_join,
    lemma_groups_rebased,
    lemma_groups_split,
    lemma_groups_update,
    lemma_last_before_cut,
    lemma_reversed_len,
    lemma_size_sum,
    lemma_sized_split,
    lemma_sized_turned,
    lemma_superblock_count,
    lemma_turned_flip,
    lemma_turned_len,
    law_scanned,
};

/// A sequence of numbers that supports range reversal.
pub struct SqrtBitset2 {
    pool: Vec<Vec<u32>>,
    free_ids: Vec<u32>,
    sbpool: Vec<SB>,
    sb_free: Vec<u32>,
    outer: Vec<u32>,
    b: u32,
}

impl SqrtBitset2 {
    /// The blocks of every superblock, by superblock number.
    spec fn bases(&self) -> Seq<Seq<Seq<u32>>> {
        Seq::new(self.sbpool@.len(), |s: int| base(self.pool@, self.sbpool@[s].descs@))
    }

    /// The blocks of every superblock, in sequence order.
    spec fn groups(&self) -> Seq<Seq<Seq<u32>>> {
        groups(self.bases(), self.outer@)
    }

    /// The elements of every superblock, in sequence order.
    spec fn contents(&self) -> Seq<Seq<u32>> {
        concat_each(self.groups())
    }

    /// All blocks, in sequence order.
    spec fn flat(&self) -> Seq<Seq<u32>> {
        concat(self.groups())
    }

    /// The sequence.
    pub closed spec fn view(&self) -> Seq<u32> {
        concat(self.flat())
    }

    spec fn inner_ok(&self) -> bool {
        &&& self.b > 0
        &&& free_list_ok(self.pool@, self.free_ids@)
        &&& free_list_full(self.pool@, self.free_ids@)
        &&& self.pool@.len() <= total_len(self.pool@) <= MAX_LEN
        &&& forall|s: int| 0 <= s < self.sbpool@.len() ==> sb_ok(self.pool@, #[trigger] self.sbpool@[s])
        &&& distinct(self.sbpool@)
    }

    spec fn sound(&self) -> bool {
        &&& self.inner_ok()
        &&& outer_ok(self.bases(), self.outer@, self.sb_free@)
        &&& total_len(self.pool@) == self@.len()
        &&& self.sbpool@.len() <= self@.len()
        &&& paired(self.outer@)
    }

    /// The number of the superblock at position `o`.
    spec fn sid(&self, o: int) -> int {
        sid_of(self.outer@[o])
    }

    spec fn plain(&self, o: int) -> bool {
        !order_turned(self.outer@[o]) && !contents_turned(self.outer@[o])
    }

    /// Which block `p` names, counted in sequence order in its superblock.
    spec fn rank(&self, p: Loc) -> int {
        if order_turned(self.outer@[p.opos as int]) {
            self.groups()[p.opos as int].len() - 1 - p.slot
        } else {
            p.slot as int
        }
    }

    /// `p` is where element `k` stands.
    spec fn at(&self, p: Loc, k: int) -> bool {
        let q = self.rank(p);
        let g = self.groups()[p.opos as int];
        &&& p.opos < self.outer@.len()
        &&& 0 <= q < g.len()
        &&& p.off < g[q].len()
        &&& offset(self.contents(), p.opos as int) + offset(g, q) + p.off == k
    }

    proof fn lemma_view(&self)
        ensures
            self@ == concat(self.contents()),
    {
        lemma_concat_concat(self.groups());
    }

    /// The total recorded for the superblock at `o` is its length.
    proof fn lemma_total(&self, o: int)
        requires
            self.inner_ok(),
            0 <= o < self.outer@.len(),
            0 <= self.sid(o) < self.sbpool@.len(),
        ensures
            self.sbpool@[self.sid(o)].total == self.contents()[o].len(),
            self.contents()[o].len() <= self@.len(),
    {
        let s = self.sid(o);
        assert(sb_ok(self.pool@, self.sbpool@[s]));
        lemma_turned_len(
            base(self.pool@, self.sbpool@[s].descs@),
            order_turned(self.outer@[o]),
            contents_turned(self.outer@[o]),
        );
        self.lemma_view();
        lemma_concat_around(self.contents(), o);
    }

    fn find(&self, k: u32) -> (p: Loc)
        requires
            self.sound(),
            k < self@.len(),
        ensures
            self.at(p, k as int),
    {
        let ghost k0 = k as int;
        let mut k: u32 = k;
        let mut oi: usize = 0;
        proof {
            self.lemma_view();
            assert(self.contents().take(0) =~= Seq::empty());
            assert(self.contents().take(self.outer@.len() as int) =~= self.contents());
        }
        while k >= self.sbpool[sb_slot(self.outer[oi])].total
            invariant
                self.sound(),
                self@ == concat(self.contents()),
                k0 < self@.len(),
                oi < self.outer@.len(),
                self.contents().len() == self.outer@.len(),
                self.contents().take(self.outer@.len() as int) =~= self.contents(),
                offset(self.contents(), oi as int) + k == k0,
            decreases self.outer@.len() - oi,
        {
            proof {
                self.lemma_total(oi as int);
                lemma_concat_around(self.contents(), oi as int);
            }
            k = k - self.sbpool[sb_slot(self.outer[oi])].total;
            assert(oi < self.outer.len());
            oi = oi + 1;
        }
        proof {
            self.lemma_total(oi as int);
        }
        self.find_in(k, oi)
    }

    /// The slot and offset of element `k` of the superblock at `oi`.
    fn find_in(&self, k: u32, oi: usize) -> (p: Loc)
        requires
            self.sound(),
            oi < self.outer@.len(),
            k < self.contents()[oi as int].len(),
        ensures
            p.opos == oi,
            self.at(p, offset(self.contents(), oi as int) + k),
    {
        let ghost k0 = k as int;
        let mut k: u32 = k;
        let d: u32 = self.outer[oi];
        let s: &SB = &self.sbpool[sb_slot(d)];
        let n: usize = s.descs.len();
        let ord: bool = is_order_turned(d);
        let ghost g = self.groups()[oi as int];
        let mut q: usize = 0;
        proof {
            assert(g.take(0) =~= Seq::empty());
            assert(g.take(n as int) =~= g);
            assert(sb_ok(self.pool@, self.sbpool@[self.sid(oi as int)]));
            self.lemma_small();
        }
        while q < n && k >= s.szs[slot_at(ord, n, q)]
            invariant
                sb_ok(self.pool@, *s),
                ord == order_turned(d),
                g == turned(base(self.pool@, s.descs@), ord, contents_turned(d)),
                n == s.descs@.len(),
                q <= n,
                g.take(n as int) =~= g,
                k0 < concat(g).len(),
                offset(g, q as int) + k == k0,
            decreases n - q,
        {
            let j: usize = slot_at(ord, n, q);
            assert(block_ok(self.pool@, s.descs@[j as int], s.szs@[j as int]));
            proof {
                lemma_concat_around(g, q as int);
            }
            k = k - s.szs[j];
            q = q + 1;
        }
        assert(q < n);
        let j: usize = slot_at(ord, n, q);
        assert(block_ok(self.pool@, s.descs@[j as int], s.szs@[j as int]));
        let p = Loc { opos: oi as u32, slot: j as u32, off: k };
        assert(self.rank(p) == q);
        p
    }

    /// All numbers are within bounds that leave room for the flags.
    proof fn lemma_small(&self)
        requires
            self.sound(),
        ensures
            self@.len() <= MAX_LEN,
            self.outer@.len() <= self@.len(),
            forall|o: int|
                0 <= o < self.outer@.len() ==> self.sbpool@[#[trigger] self.sid(o)].descs@.len() <= self@.len(),
    {
        self.lemma_view();
        assert forall|o: int| 0 <= o < self.outer@.len() implies {
            &&& self.sbpool@[#[trigger] self.sid(o)].descs@.len() <= self.contents()[o].len()
            &&& 0 < self.contents()[o].len() <= self@.len()
        } by {
            let s = self.sid(o);
            self.lemma_total(o);
            assert(sb_ok(self.pool@, self.sbpool@[s]));
            let bs = self.bases()[s];
            assert forall|j: int| 0 <= j < bs.len() implies (#[trigger] bs[j]).len() > 0 by {
                assert(block_ok(self.pool@, self.sbpool@[s].descs@[j], self.sbpool@[s].szs@[j]));
            }
            lemma_concat_count(bs);
        }
        assert forall|o: int| 0 <= o < self.contents().len() implies (#[trigger] self.contents()[o]).len() > 0 by {
            let s = self.sid(o);
        }
        lemma_concat_count(self.contents());
    }

    /// Everything but the blocks of superblock `s` is as in `other`.
    spec fn differs_at(&self, other: &SqrtBitset2, s: int) -> bool {
        &&& self.b == other.b
        &&& self.sbpool@.len() == other.sbpool@.len()
        &&& self.outer@ == other.outer@
        &&& self.sb_free@ == other.sb_free@
        &&& self.bases() == other.bases().update(s, self.bases()[s])
        &&& forall|k: int|
            0 <= k < other.sbpool@.len() && k != s ==> #[trigger] self.sbpool@[k] == other.sbpool@[k]
        &&& total_len(self.pool@) == total_len(other.pool@)
    }

    /// The arena holds the blocks of superblock `s` of `other` as it did there.
    spec fn stores(&self, other: &SqrtBitset2, s: int) -> bool {
        &&& other.pool@.len() <= self.pool@.len()
        &&& forall|j: int|
            0 <= j < other.sbpool@[s].descs@.len() ==> self.pool@[#[trigger] block_at(other.sbpool@, s, j)]
                == other.pool@[block_at(other.sbpool@, s, j)]
    }

    /// Superblock `s` is as in `other`, and so are its blocks in the arena.
    spec fn same_at(&self, other: &SqrtBitset2, s: int) -> bool {
        &&& 0 <= s < self.sbpool@.len()
        &&& self.sbpool@[s] == other.sbpool@[s]
        &&& self.stores(other, s)
    }

    /// Superblock `s` holds position `p`.
    spec fn houses(&self, s: int, p: int) -> bool {
        exists|o: int| #[trigger] covers(self.contents(), o, p) && self.sid(o) == s
    }

    /// Superblock `s` has blocks.
    spec fn in_use(&self, s: int) -> bool {
        0 <= s < self.sbpool@.len() && self.sbpool@[s].descs@.len() > 0
    }

    /// Superblock `s` is in use and as in `other`, and holds neither `l` nor `r`.
    spec fn aloof(&self, other: &SqrtBitset2, s: int, l: int, r: int) -> bool {
        &&& other.in_use(s)
        &&& self.same_at(other, s)
        &&& !self.houses(s, l)
        &&& !self.houses(s, r)
    }

    /// What is as it was before a step, and was so before an earlier one, is as it was
    /// before both.
    proof fn lemma_same_twice(o: &SqrtBitset2, m: &SqrtBitset2, n: &SqrtBitset2, s: int)
        requires
            m.same_at(o, s),
            n.same_at(m, s),
        ensures
            n.same_at(o, s),
    {
        assert forall|j: int| 0 <= j < o.sbpool@[s].descs@.len() implies n.pool@[#[trigger] block_at(
            o.sbpool@,
            s,
            j,
        )] == o.pool@[block_at(o.sbpool@, s, j)] by {
            assert(block_at(m.sbpool@, s, j) == block_at(o.sbpool@, s, j));
        }
    }

    /// A superblock that stands aloof is left alone by a cut in another.
    proof fn lemma_aloof(o: &SqrtBitset2, m: &SqrtBitset2, n: &SqrtBitset2, g: int, l: int, r: int)
        requires
            forall|s: int| #[trigger] m.in_use(s) && s != g ==> n.same_at(m, s),
            forall|s: int, p: int| #[trigger] n.houses(s, p) && m.in_use(s) ==> m.houses(s, p),
            m.houses(g, l) || m.houses(g, r),
        ensures
            forall|s: int| m.aloof(o, s, l, r) ==> #[trigger] n.aloof(o, s, l, r),
    {
        assert forall|s: int| m.aloof(o, s, l, r) implies #[trigger] n.aloof(o, s, l, r) by {
            assert(m.in_use(s));
            Self::lemma_same_twice(o, m, n, s);
        }
    }

    /// A change of superblock `g` and of two slots of the arena that no other
    /// superblock names is no change of the others.
    proof fn lemma_elsewhere(o: &SqrtBitset2, n: &SqrtBitset2, g: int, x: int, y: int)
        requires
            o.inner_ok(),
            n.differs_at(o, g),
            rewritten(o.pool@, n.pool@, x, y),
            forall|s: int, j: int|
                0 <= s < o.sbpool@.len() && s != g && 0 <= j < o.sbpool@[s].descs@.len() ==> #[trigger] block_at(
                    o.sbpool@,
                    s,
                    j,
                ) != x && block_at(o.sbpool@, s, j) != y,
        ensures
            forall|s: int| 0 <= s < o.sbpool@.len() && s != g ==> #[trigger] n.same_at(o, s),
    {
        assert forall|s: int| 0 <= s < o.sbpool@.len() && s != g implies #[trigger] n.same_at(o, s) by {
            assert(sb_ok(o.pool@, o.sbpool@[s]));
            assert forall|j: int| 0 <= j < o.sbpool@[s].descs@.len() implies n.pool@[#[trigger] block_at(
                o.sbpool@,
                s,
                j,
            )] == o.pool@[block_at(o.sbpool@, s, j)] by {
                assert(block_ok(o.pool@, o.sbpool@[s].descs@[j], o.sbpool@[s].szs@[j]));
            }
        }
    }

    /// Turns the order of the slots `l..r` of superblock `sid`.
    fn reverse_slots(&mut self, sid: usize, l: usize, r: usize)
        requires
            old(self).inner_ok(),
            sid < old(self).sbpool@.len(),
            l <= r <= old(self).sbpool@[sid as int].descs@.len(),
        ensures
            final(self).inner_ok(),
            final(self).differs_at(old(self), sid as int),
            final(self).bases()[sid as int] == reversed(old(self).bases()[sid as int], l as int, r as int),
            final(self).pool == old(self).pool,
            final(self).free_ids == old(self).free_ids,
    {
        let ghost o = *self;
        let ghost sb = self.sbpool@[sid as int];
        assert(sb_ok(self.pool@, sb));
        reverse_avx2(&mut self.sbpool[sid].descs, l, r);
        reverse_avx2(&mut self.sbpool[sid].szs, l, r);
        proof {
            let n = self.sbpool@[sid as int];
            assert(self.sbpool@ =~= o.sbpool@.update(sid as int, n));
            assert(base(self.pool@, n.descs@) =~= reversed(base(o.pool@, sb.descs@), l as int, r as int));
            lemma_reversed_len(base(o.pool@, sb.descs@), l as int, r as int);
            assert forall|j: int| 0 <= j < n.descs@.len() implies block_ok(
                self.pool@,
                #[trigger] n.descs@[j],
                n.szs@[j],
            ) by {
                let i = if l <= j < r {
                    l + r - 1 - j
                } else {
                    j
                };
                assert(block_ok(self.pool@, sb.descs@[i], sb.szs@[i]));
            }
            assert forall|s: int| 0 <= s < self.sbpool@.len() implies sb_ok(self.pool@, #[trigger] self.sbpool@[s]) by {
                if s != sid {
                    assert(sb_ok(self.pool@, o.sbpool@[s]));
                }
            }
            assert forall|s1: int, j1: int, s2: int, j2: int|
                0 <= s1 < self.sbpool@.len() && 0 <= j1 < self.sbpool@[s1].descs@.len() && 0 <= s2
                    < self.sbpool@.len() && 0 <= j2 < self.sbpool@[s2].descs@.len() && (s1 != s2 || j1
                    != j2) implies #[trigger] block_at(self.sbpool@, s1, j1) != #[trigger] block_at(
                self.sbpool@,
                s2,
                j2,
            ) by {
                let i1 = if s1 == sid && l <= j1 < r {
                    l + r - 1 - j1
                } else {
                    j1
                };
                let i2 = if s2 == sid && l <= j2 < r {
                    l + r - 1 - j2
                } else {
                    j2
                };
                assert(block_at(o.sbpool@, s1, i1) != block_at(o.sbpool@, s2, i2));
            }
            assert(self.bases() =~= o.bases().update(sid as int, self.bases()[sid as int]));
        }
    }

    /// Turns the contents of the blocks in the slots `l..r` of superblock `sid`.
    fn toggle_slots(&mut self, sid: usize, l: usize, r: usize)
        requires
            old(self).inner_ok(),
            sid < old(self).sbpool@.len(),
            l <= r <= old(self).sbpool@[sid as int].descs@.len(),
            r <= u32::MAX,
        ensures
            final(self).inner_ok(),
            final(self).differs_at(old(self), sid as int),
            final(self).bases()[sid as int] == toggled(old(self).bases()[sid as int], l as int, r as int),
            final(self).pool == old(self).pool,
            final(self).free_ids == old(self).free_ids,
    {
        let ghost o = *self;
        let ghost sb = self.sbpool@[sid as int];
        assert(sb_ok(self.pool@, sb));
        toggle_mask(&mut self.sbpool[sid].descs, l as u32, r as u32, REV);
        proof {
            let n = self.sbpool@[sid as int];
            assert(self.sbpool@ =~= o.sbpool@.update(sid as int, n));
            assert forall|j: int| 0 <= j < n.descs@.len() implies {
                &&& slot_of(#[trigger] n.descs@[j]) == slot_of(sb.descs@[j])
                &&& flagged(n.descs@[j]) == (flagged(sb.descs@[j]) != (l <= j < r))
            } by {
                lemma_toggled(sb.descs@[j]);
            }
            let p0 = base(o.pool@, sb.descs@);
            let p1 = base(self.pool@, n.descs@);
            assert forall|j: int| 0 <= j < n.descs@.len() implies p1[j] == toggled(p0, l as int, r as int)[j] by {
                assert(slot_of(n.descs@[j]) == slot_of(sb.descs@[j]));
                lemma_reverse_twice(o.pool@[slot_of(sb.descs@[j])]@);
            }
            assert(p1 =~= toggled(p0, l as int, r as int));
            lemma_concat_lens(p1, p0);
            assert forall|j: int| 0 <= j < n.descs@.len() implies block_ok(
                self.pool@,
                #[trigger] n.descs@[j],
                n.szs@[j],
            ) by {
                assert(block_ok(self.pool@, sb.descs@[j], sb.szs@[j]));
            }
            assert forall|s: int| 0 <= s < self.sbpool@.len() implies sb_ok(self.pool@, #[trigger] self.sbpool@[s]) by {
                if s != sid {
                    assert(sb_ok(self.pool@, o.sbpool@[s]));
                }
            }
            assert forall|s1: int, j1: int, s2: int, j2: int|
                0 <= s1 < self.sbpool@.len() && 0 <= j1 < self.sbpool@[s1].descs@.len() && 0 <= s2
                    < self.sbpool@.len() && 0 <= j2 < self.sbpool@[s2].descs@.len() && (s1 != s2 || j1
                    != j2) implies #[trigger] block_at(self.sbpool@, s1, j1) != #[trigger] block_at(
                self.sbpool@,
                s2,
                j2,
            ) by {
                assert(block_at(o.sbpool@, s1, j1) != block_at(o.sbpool@, s2, j2));
            }
            assert(self.bases() =~= o.bases().update(sid as int, self.bases()[sid as int]));
        }
    }

    /// Carries the flags of the superblock at `opos` out on its slots.
    fn materialize_sb(&mut self, opos: u32)
        requires
            old(self).sound(),
            opos < old(self).outer@.len(),
        ensures
            final(self).sound(),
            final(self).groups() == old(self).groups(),
            final(self).plain(opos as int),
            final(self).outer@.len() == old(self).outer@.len(),
            forall|o: int| 0 <= o < old(self).outer@.len() ==> #[trigger] final(self).sid(o) == old(self).sid(o),
            forall|o: int|
                0 <= o < old(self).outer@.len() && o != opos ==> #[trigger] final(self).outer@[o]
                    == old(self).outer@[o],
            old(self).plain(opos as int) ==> *final(self) == *old(self),
            final(self).outer@[opos as int] == old(self).outer@[opos as int] & XMASK,
            forall|s: int|
                0 <= s < old(self).sbpool@.len() && s != old(self).sid(opos as int)
                    ==> #[trigger] final(self).sbpool@[s] == old(self).sbpool@[s],
            final(self).sbpool@.len() == old(self).sbpool@.len(),
            final(self).pool == old(self).pool,
            final(self).free_ids == old(self).free_ids,
            final(self).sb_free@ == old(self).sb_free@,
            final(self).b == old(self).b,
            final(self).bases() == old(self).bases().update(
                old(self).sid(opos as int),
                old(self).groups()[opos as int],
            ),
            forall|b: int, x: int, y: int|
                sized(old(self).bases(), b, x, y) ==> #[trigger] sized(final(self).bases(), b, x, y),
    {
        let ghost o = *self;
        let d: u32 = self.outer[opos as usize];
        let sid: usize = sb_slot(d);
        let ord: bool = is_order_turned(d);
        let cont: bool = is_contents_turned(d);
        let ghost blocks = self.bases()[sid as int];
        assert(self.sid(opos as int) == sid);
        let n: usize = self.sbpool[sid].descs.len();
        proof {
            self.lemma_small();
            lemma_sized_turned(o.bases(), sid as int, ord, cont);
        }
        proof {
            assert(d & XMASK == d || order_turned(d) || contents_turned(d)) by {
                lemma_sb_unflagged(d);
            }
        }
        if ord || cont {
            if ord {
                self.reverse_slots(sid, 0, n);
            }
            assert(self.bases()[sid as int].len() == n);
            if cont {
                self.toggle_slots(sid, 0, n);
            }
            self.outer[opos as usize] = sb_unflagged(d);
        }
        proof {
            assert(self.bases()[sid as int] =~= turned(blocks, ord, cont));
            assert(self.bases() =~= o.bases().update(sid as int, turned(blocks, ord, cont)));
            assert(turned(turned(blocks, ord, cont), false, false) =~= turned(blocks, ord, cont));
            assert forall|k: int| 0 <= k < o.outer@.len() implies self.groups()[k] == o.groups()[k] by {
                if k != opos {
                    assert(sid_of(o.outer@[k]) != sid_of(o.outer@[opos as int]));
                    assert(self.bases()[sid_of(o.outer@[k])] == o.bases()[sid_of(o.outer@[k])]);
                }
            }
            assert(self.groups() =~= o.groups());
            assert forall|k: int| 0 <= k < o.outer@.len() implies #[trigger] self.sid(k) == o.sid(k) by {}
            assert(outer_ok(self.bases(), self.outer@, self.sb_free@)) by {
                assert forall|k: int| 0 <= k < self.outer@.len() implies 0 <= sid_of(#[trigger] self.outer@[k])
                    < self.bases().len() && self.bases()[sid_of(self.outer@[k])].len() > 0 by {
                    assert(sid_of(o.outer@[k]) == sid_of(self.outer@[k]));
                }
                assert forall|o1: int, o2: int|
                    0 <= o1 < self.outer@.len() && 0 <= o2 < self.outer@.len() && o1 != o2 implies sid_of(
                    #[trigger] self.outer@[o1],
                ) != sid_of(#[trigger] self.outer@[o2]) by {
                    assert(sid_of(o.outer@[o1]) != sid_of(o.outer@[o2]));
                }
            }
        }
    }

    /// Carries out the flag of a block.
    fn materialize_block(&mut self, opos: u32, at: usize)
        requires
            old(self).inner_ok(),
            opos < old(self).outer@.len(),
            old(self).sid(opos as int) < old(self).sbpool@.len(),
            at < old(self).sbpool@[old(self).sid(opos as int)].descs@.len(),
        ensures
            final(self).inner_ok(),
            final(self).differs_at(old(self), old(self).sid(opos as int)),
            final(self).free_ids == old(self).free_ids,
            final(self).pool@.len() == old(self).pool@.len(),
            forall|s: int|
                0 <= s < old(self).pool@.len() && s != block_at(
                    old(self).sbpool@,
                    old(self).sid(opos as int),
                    at as int,
                ) ==> #[trigger] final(self).pool@[s] == old(self).pool@[s],
            !flagged(old(self).sbpool@[old(self).sid(opos as int)].descs@[at as int]) ==> *final(self) == *old(
                self,
            ),
            final(self).sbpool@[old(self).sid(opos as int)].total == old(self).sbpool@[old(self).sid(
                opos as int,
            )].total,
            slot_of(final(self).sbpool@[old(self).sid(opos as int)].descs@[at as int]) == slot_of(
                old(self).sbpool@[old(self).sid(opos as int)].descs@[at as int],
            ),
            final(self).bases() == old(self).bases(),
            !flagged(final(self).sbpool@[old(self).sid(opos as int)].descs@[at as int]),
            final(self).sbpool@[old(self).sid(opos as int)].szs == old(self).sbpool@[old(self).sid(
                opos as int,
            )].szs,
            forall|j: int|
                0 <= j < old(self).sbpool@[old(self).sid(opos as int)].descs@.len() && j != at
                    ==> #[trigger] final(self).sbpool@[old(self).sid(opos as int)].descs@[j]
                    == old(self).sbpool@[old(self).sid(opos as int)].descs@[j],
    {
        let ghost o = *self;
        let sid: usize = sb_slot(self.outer[opos as usize]);
        let ghost sb = self.sbpool@[sid as int];
        assert(sb_ok(self.pool@, sb));
        assert(block_ok(self.pool@, sb.descs@[at as int], sb.szs@[at as int]));
        let d: u32 = self.sbpool[sid].descs[at];
        if is_flagged(d) {
            let id: usize = slot(d);
            let sz: usize = self.sbpool[sid].szs[at] as usize;
            let ghost block = self.pool@[id as int]@;
            reverse_avx2(&mut self.pool[id], 0, sz);
            self.sbpool[sid].descs[at] = unflagged(d);
            proof {
                let n = self.sbpool@[sid as int];
                assert(self.sbpool@ =~= o.sbpool@.update(sid as int, n));
                assert(self.pool@ =~= o.pool@.update(id as int, self.pool@[id as int]));
                assert(self.pool@[id as int]@ =~= block.reverse());
                lemma_total_update(o.pool@, id as int, self.pool@[id as int]);
                assert forall|s: int, j: int|
                    0 <= s < o.sbpool@.len() && 0 <= j < o.sbpool@[s].descs@.len() && (s != sid || j != at)
                        implies self.pool@[#[trigger] block_at(o.sbpool@, s, j)] == o.pool@[block_at(o.sbpool@, s, j)] by {
                    assert(block_at(o.sbpool@, s, j) != block_at(o.sbpool@, sid as int, at as int));
                }
                assert forall|j: int| 0 <= j < n.descs@.len() implies {
                    &&& base(self.pool@, n.descs@)[j] == base(o.pool@, sb.descs@)[j]
                    &&& block_ok(self.pool@, #[trigger] n.descs@[j], n.szs@[j])
                } by {
                    assert(block_ok(o.pool@, sb.descs@[j], sb.szs@[j]));
                    if j != at {
                        assert(block_at(o.sbpool@, sid as int, j) == slot_of(sb.descs@[j]));
                    }
                }
                assert(base(self.pool@, n.descs@) =~= base(o.pool@, sb.descs@));
                assert forall|s: int| 0 <= s < self.sbpool@.len() implies {
                    &&& sb_ok(self.pool@, #[trigger] self.sbpool@[s])
                    &&& base(self.pool@, self.sbpool@[s].descs@) == base(o.pool@, o.sbpool@[s].descs@)
                } by {
                    assert(sb_ok(o.pool@, o.sbpool@[s]));
                    if s != sid {
                        assert forall|j: int| 0 <= j < o.sbpool@[s].descs@.len() implies self.pool@[slot_of(
                            #[trigger] o.sbpool@[s].descs@[j],
                        )] == o.pool@[slot_of(o.sbpool@[s].descs@[j])] by {
                            assert(block_at(o.sbpool@, s, j) == slot_of(o.sbpool@[s].descs@[j]));
                        }
                        lemma_frame(o.pool@, self.pool@, o.sbpool@[s]);
                    }
                }
                assert(distinct(self.sbpool@)) by {
                    assert forall|s1: int, j1: int, s2: int, j2: int|
                        0 <= s1 < self.sbpool@.len() && 0 <= j1 < self.sbpool@[s1].descs@.len() && 0 <= s2
                            < self.sbpool@.len() && 0 <= j2 < self.sbpool@[s2].descs@.len() && (s1 != s2 || j1
                            != j2) implies #[trigger] block_at(self.sbpool@, s1, j1) != #[trigger] block_at(
                        self.sbpool@,
                        s2,
                        j2,
                    ) by {
                        assert(block_at(o.sbpool@, s1, j1) != block_at(o.sbpool@, s2, j2));
                    }
                }
                assert(self.bases() =~= o.bases());
                assert(free_list_ok(self.pool@, self.free_ids@));
                assert(free_list_full(self.pool@, self.free_ids@)) by {
                    assert forall|s: int| 0 <= s < self.pool@.len() && (#[trigger] self.pool@[s])@.len() == 0 implies exists|
                        k: int,
                    | 0 <= k < self.free_ids@.len() && #[trigger] self.free_ids@[k] == s by {
                        assert(o.pool@[s]@.len() == 0);
                    }
                }
            }
        }
        assert(self.bases() =~= o.bases().update(sid as int, self.bases()[sid as int]));
    }

    /// A change within superblock `sid` leaves the other superblocks alone.
    proof fn lemma_others(o: &SqrtBitset2, n: &SqrtBitset2, sid: int)
        requires
            o.inner_ok(),
            0 <= sid < o.sbpool@.len(),
            n.sbpool@ == o.sbpool@.update(sid, n.sbpool@[sid]),
            n.pool@.len() >= o.pool@.len(),
            sb_ok(n.pool@, n.sbpool@[sid]),
            forall|s: int, j: int|
                0 <= s < o.sbpool@.len() && s != sid && 0 <= j < o.sbpool@[s].descs@.len()
                    ==> n.pool@[#[trigger] block_at(o.sbpool@, s, j)] == o.pool@[block_at(o.sbpool@, s, j)],
        ensures
            forall|s: int| 0 <= s < n.sbpool@.len() ==> sb_ok(n.pool@, #[trigger] n.sbpool@[s]),
            n.bases() == o.bases().update(sid, n.bases()[sid]),
    {
        assert forall|s: int| 0 <= s < n.sbpool@.len() implies {
            &&& sb_ok(n.pool@, #[trigger] n.sbpool@[s])
            &&& s != sid ==> n.bases()[s] == o.bases()[s]
        } by {
            assert(sb_ok(o.pool@, o.sbpool@[s]));
            if s != sid {
                assert forall|j: int| 0 <= j < o.sbpool@[s].descs@.len() implies n.pool@[slot_of(
                    #[trigger] o.sbpool@[s].descs@[j],
                )] == o.pool@[slot_of(o.sbpool@[s].descs@[j])] by {
                    assert(block_at(o.sbpool@, s, j) == slot_of(o.sbpool@[s].descs@[j]));
                }
                lemma_frame(o.pool@, n.pool@, o.sbpool@[s]);
            }
        }
        assert(n.bases() =~= o.bases().update(sid, n.bases()[sid]));
    }

    /// Cuts the block in slot `at` into its first `off` elements and the rest.
    #[verifier::rlimit(40)]
    fn cut_block(&mut self, opos: u32, at: usize, off: usize)
        requires
            old(self).inner_ok(),
            opos < old(self).outer@.len(),
            old(self).sid(opos as int) < old(self).sbpool@.len(),
            at < old(self).sbpool@[old(self).sid(opos as int)].descs@.len() < usize::MAX,
            0 < off < old(self).bases()[old(self).sid(opos as int)][at as int].len(),
        ensures
            final(self).inner_ok(),
            final(self).differs_at(old(self), old(self).sid(opos as int)),
            ({
                let s = old(self).sid(opos as int);
                let n = block_at(final(self).sbpool@, s, at + 1);
                &&& taken(
                    old(self).free_ids@,
                    old(self).pool@.len(),
                    final(self).free_ids@,
                    final(self).pool@.len(),
                    n,
                )
                &&& rewritten(old(self).pool@, final(self).pool@, block_at(old(self).sbpool@, s, at as int), n)
            }),
            ({
                let blocks = old(self).bases()[old(self).sid(opos as int)];
                let x = blocks[at as int];
                final(self).bases()[old(self).sid(opos as int)] == blocks.update(
                    at as int,
                    x.take(off as int),
                ).insert(at + 1, x.skip(off as int))
            }),
    {
        let sid: usize = sb_slot(self.outer[opos as usize]);
        let ghost blocks = self.bases()[sid as int];
        let ghost x = blocks[at as int];
        self.materialize_block(opos, at);
        let ghost o = *self;
        let ghost sb = self.sbpool@[sid as int];
        assert(sb_ok(self.pool@, sb));
        assert(block_ok(self.pool@, sb.descs@[at as int], sb.szs@[at as int]));
        let sz: u32 = self.sbpool[sid].szs[at];
        let id: usize = slot(self.sbpool[sid].descs[at]);
        assert(x == self.pool@[id as int]@);
        let suffix: Vec<u32> = self.pool[id].split_off(off);
        let ghost mid = self.pool@;
        proof {
            assert(mid =~= o.pool@.update(id as int, mid[id as int]));
            assert(mid[id as int]@ =~= x.take(off as int));
            assert(suffix@ =~= x.skip(off as int));
            lemma_total_update(o.pool@, id as int, mid[id as int]);
            assert(free_list_ok(mid, self.free_ids@));
            assert forall|s: int| 0 <= s < mid.len() && (#[trigger] mid[s])@.len() == 0 implies exists|k: int|
                0 <= k < self.free_ids@.len() && #[trigger] self.free_ids@[k] == s by {
                assert(o.pool@[s]@.len() == 0);
            }
            assert(self.free_ids@.len() == 0 ==> mid.len() <= total_len(mid)) by {
                if self.free_ids@.len() == 0 {
                    lemma_total_count(mid);
                }
            }
        }
        let nid: u32 = put_block(&mut self.pool, &mut self.free_ids, suffix);
        proof {
            lemma_plain(nid);
        }
        self.sbpool[sid].szs[at] = off as u32;
        self.sbpool[sid].descs.insert(at + 1, nid);
        self.sbpool[sid].szs.insert(at + 1, sz - off as u32);
        proof {
            let n = self.sbpool@[sid as int];
            assert(self.sbpool@ =~= o.sbpool@.update(sid as int, n));
            assert(block_at(self.sbpool@, sid as int, at + 1) == nid);
            assert(rewritten(old(self).pool@, self.pool@, id as int, nid as int)) by {
                assert forall|s: int| 0 <= s < self.pool@.len() && s != id && s != nid implies s < old(
                    self,
                ).pool@.len() && #[trigger] self.pool@[s] == old(self).pool@[s] by {
                    assert(self.pool@[s] == mid[s]);
                    assert(mid[s] == o.pool@[s]);
                }
            }
            assert forall|s: int, j: int|
                0 <= s < o.sbpool@.len() && 0 <= j < o.sbpool@[s].descs@.len() && (s != sid || j != at) implies {
                &&& self.pool@[#[trigger] block_at(o.sbpool@, s, j)] == o.pool@[block_at(o.sbpool@, s, j)]
                &&& block_at(o.sbpool@, s, j) != nid
            } by {
                assert(block_at(o.sbpool@, s, j) != block_at(o.sbpool@, sid as int, at as int));
                assert(sb_ok(o.pool@, o.sbpool@[s]));
                assert(block_ok(o.pool@, o.sbpool@[s].descs@[j], o.sbpool@[s].szs@[j]));
            }
            let nb = blocks.update(at as int, x.take(off as int)).insert(at + 1, x.skip(off as int));
            assert forall|j: int| 0 <= j < n.descs@.len() implies {
                &&& base(self.pool@, n.descs@)[j] == nb[j]
                &&& block_ok(self.pool@, #[trigger] n.descs@[j], n.szs@[j])
            } by {
                let i = if j > at {
                    j - 1
                } else {
                    j
                };
                assert(block_ok(o.pool@, sb.descs@[i], sb.szs@[i]));
                if j != at && j != at + 1 {
                    assert(block_at(o.sbpool@, sid as int, i) == slot_of(sb.descs@[i]));
                    assert(n.descs@[j] == sb.descs@[i]);
                }
            }
            assert(base(self.pool@, n.descs@) =~= nb);
            lemma_concat_split_piece(blocks, at as int, off as int);
            Self::lemma_others(&o, self, sid as int);
            assert(distinct(self.sbpool@)) by {
                assert forall|s1: int, j1: int, s2: int, j2: int|
                    0 <= s1 < self.sbpool@.len() && 0 <= j1 < self.sbpool@[s1].descs@.len() && 0 <= s2
                        < self.sbpool@.len() && 0 <= j2 < self.sbpool@[s2].descs@.len() && (s1 != s2 || j1
                        != j2) implies #[trigger] block_at(self.sbpool@, s1, j1) != #[trigger] block_at(
                    self.sbpool@,
                    s2,
                    j2,
                ) by {
                    let i1 = if s1 == sid && j1 > at {
                        j1 - 1
                    } else {
                        j1
                    };
                    let i2 = if s2 == sid && j2 > at {
                        j2 - 1
                    } else {
                        j2
                    };
                    assert(block_at(o.sbpool@, s1, i1) == block_at(self.sbpool@, s1, j1) || (s1 == sid && j1
                        == at + 1));
                    assert(block_at(o.sbpool@, s2, i2) == block_at(self.sbpool@, s2, j2) || (s2 == sid && j2
                        == at + 1));
                }
            }
        }
    }

    /// Appends the block in slot `at + 1` to the one in slot `at`.
    #[verifier::rlimit(40)]
    fn join_blocks(&mut self, opos: u32, at: usize)
        requires
            old(self).inner_ok(),
            opos < old(self).outer@.len(),
            old(self).sid(opos as int) < old(self).sbpool@.len(),
            at + 1 < old(self).sbpool@[old(self).sid(opos as int)].descs@.len(),
        ensures
            final(self).inner_ok(),
            final(self).differs_at(old(self), old(self).sid(opos as int)),
            rewritten(
                old(self).pool@,
                final(self).pool@,
                block_at(old(self).sbpool@, old(self).sid(opos as int), at as int),
                block_at(old(self).sbpool@, old(self).sid(opos as int), at + 1),
            ),
            final(self).free_ids@ == old(self).free_ids@.push(
                block_at(old(self).sbpool@, old(self).sid(opos as int), at + 1) as u32,
            ),
            final(self).sbpool@[old(self).sid(opos as int)].total == old(self).sbpool@[old(self).sid(
                opos as int,
            )].total,
            ({
                let blocks = old(self).bases()[old(self).sid(opos as int)];
                final(self).bases()[old(self).sid(opos as int)] == blocks.update(
                    at as int,
                    blocks[at as int] + blocks[at + 1],
                ).remove(at + 1)
            }),
    {
        let sid: usize = sb_slot(self.outer[opos as usize]);
        let ghost blocks = self.bases()[sid as int];
        assert(self.sbpool@[sid as int].descs.len() > at + 1);
        self.materialize_block(opos, at);
        assert(self.bases()[sid as int].len() == blocks.len());
        self.materialize_block(opos, at + 1);
        let ghost o = *self;
        let ghost sb = self.sbpool@[sid as int];
        assert(sb_ok(self.pool@, sb));
        assert(block_ok(self.pool@, sb.descs@[at as int], sb.szs@[at as int]));
        assert(block_ok(self.pool@, sb.descs@[at + 1], sb.szs@[at + 1]));
        let lid: usize = slot(self.sbpool[sid].descs[at]);
        let rid: usize = slot(self.sbpool[sid].descs[at + 1]);
        let ghost x = self.pool@[lid as int]@;
        let ghost y = self.pool@[rid as int]@;
        proof {
            assert(self.bases()[sid as int] == blocks);
            assert(x == blocks[at as int]);
            assert(y == blocks[at + 1]);
            assert(block_at(o.sbpool@, sid as int, at as int) != block_at(o.sbpool@, sid as int, at + 1));
            lemma_concat_around(blocks, at as int);
            lemma_total_update(o.pool@, lid as int, o.pool@[lid as int]);
            lemma_total_update(o.pool@, rid as int, o.pool@[lid as int]);
        }
        let mut rhs: Vec<u32> = take_block(&mut self.pool, &mut self.free_ids, rid as u32);
        let ghost mid = self.pool@;
        self.pool[lid].append(&mut rhs);
        let joined: u32 = self.sbpool[sid].szs[at] + self.sbpool[sid].szs[at + 1];
        self.sbpool[sid].szs[at] = joined;
        self.sbpool[sid].descs.remove(at + 1);
        self.sbpool[sid].szs.remove(at + 1);
        proof {
            let n = self.sbpool@[sid as int];
            assert(self.sbpool@ =~= o.sbpool@.update(sid as int, n));
            assert(self.pool@ =~= mid.update(lid as int, self.pool@[lid as int]));
            assert(self.pool@[lid as int]@ =~= x + y);
            assert(rewritten(old(self).pool@, self.pool@, lid as int, rid as int)) by {
                assert forall|s: int| 0 <= s < self.pool@.len() && s != lid && s != rid implies s < old(
                    self,
                ).pool@.len() && #[trigger] self.pool@[s] == old(self).pool@[s] by {
                    assert(self.pool@[s] == mid[s]);
                    assert(mid[s] == o.pool@[s]);
                }
            }
            lemma_total_update(mid, lid as int, self.pool@[lid as int]);
            assert(free_list_ok(self.pool@, self.free_ids@));
            assert forall|s: int| 0 <= s < self.pool@.len() && (#[trigger] self.pool@[s])@.len() == 0 implies exists|
                k: int,
            | 0 <= k < self.free_ids@.len() && #[trigger] self.free_ids@[k] == s by {
                assert(mid[s]@.len() == 0);
            }
            assert forall|s: int, j: int|
                0 <= s < o.sbpool@.len() && 0 <= j < o.sbpool@[s].descs@.len() && (s != sid || (j != at && j != at
                    + 1)) implies self.pool@[#[trigger] block_at(o.sbpool@, s, j)] == o.pool@[block_at(o.sbpool@, s, j)] by {
                assert(block_at(o.sbpool@, s, j) != block_at(o.sbpool@, sid as int, at as int));
                assert(block_at(o.sbpool@, s, j) != block_at(o.sbpool@, sid as int, at + 1));
                assert(sb_ok(o.pool@, o.sbpool@[s]));
                assert(block_ok(o.pool@, o.sbpool@[s].descs@[j], o.sbpool@[s].szs@[j]));
            }
            let nb = blocks.update(at as int, x + y).remove(at + 1);
            assert forall|j: int| 0 <= j < n.descs@.len() implies {
                &&& base(self.pool@, n.descs@)[j] == nb[j]
                &&& block_ok(self.pool@, #[trigger] n.descs@[j], n.szs@[j])
            } by {
                let i = if j > at {
                    j + 1
                } else {
                    j
                };
                assert(block_ok(o.pool@, sb.descs@[i], sb.szs@[i]));
                assert(n.descs@[j] == sb.descs@[i]);
                if j != at {
                    assert(block_at(o.sbpool@, sid as int, i) == slot_of(sb.descs@[i]));
                }
            }
            assert(base(self.pool@, n.descs@) =~= nb);
            lemma_concat_join_pieces(blocks, at as int);
            Self::lemma_others(&o, self, sid as int);
            assert(distinct(self.sbpool@)) by {
                assert forall|s1: int, j1: int, s2: int, j2: int|
                    0 <= s1 < self.sbpool@.len() && 0 <= j1 < self.sbpool@[s1].descs@.len() && 0 <= s2
                        < self.sbpool@.len() && 0 <= j2 < self.sbpool@[s2].descs@.len() && (s1 != s2 || j1
                        != j2) implies #[trigger] block_at(self.sbpool@, s1, j1) != #[trigger] block_at(
                    self.sbpool@,
                    s2,
                    j2,
                ) by {
                    let i1 = if s1 == sid && j1 > at {
                        j1 + 1
                    } else {
                        j1
                    };
                    let i2 = if s2 == sid && j2 > at {
                        j2 + 1
                    } else {
                        j2
                    };
                    assert(block_at(o.sbpool@, s1, i1) != block_at(o.sbpool@, s2, i2));
                }
            }
        }
    }

    /// The number of superblocks leaves room for one more when one of them has two
    /// elements.
    proof fn lemma_room(&self, o: int)
        requires
            self.sound(),
            0 <= o < self.outer@.len(),
            self.contents()[o].len() > 1,
        ensures
            self.outer@.len() < self@.len(),
    {
        self.lemma_view();
        self.lemma_small();
        let c = self.contents();
        assert forall|k: int| 0 <= k < c.len() implies (#[trigger] c[k]).len() > 0 by {
            self.lemma_nonempty(k);
        }
        lemma_concat_around(c, o);
        lemma_concat_count(c.take(o));
        lemma_concat_count(c.skip(o + 1));
    }

    /// No superblock in use is empty, and a superblock has no more blocks than
    /// elements.
    proof fn lemma_nonempty(&self, o: int)
        requires
            self.sound(),
            0 <= o < self.outer@.len(),
        ensures
            self.contents()[o].len() > 0,
            self.groups()[o].len() <= self.contents()[o].len(),
            forall|q: int| 0 <= q < self.groups()[o].len() ==> (#[trigger] self.groups()[o][q]).len() > 0,
    {
        let s = self.sid(o);
        assert(sb_ok(self.pool@, self.sbpool@[s]));
        let d = self.outer@[o];
        let g = self.groups()[o];
        assert forall|q: int| 0 <= q < g.len() implies (#[trigger] g[q]).len() > 0 by {
            let j = if order_turned(d) {
                g.len() - 1 - q
            } else {
                q
            };
            assert(block_ok(self.pool@, self.sbpool@[s].descs@[j], self.sbpool@[s].szs@[j]));
        }
        lemma_concat_count(g);
    }

    /// Splits the superblock at `opos` in half if it has too many blocks.
    #[verifier::rlimit(40)]
    fn split_superblock(&mut self, opos: u32)
        requires
            old(self).sound(),
            opos < old(self).outer@.len(),
            old(self).bases()[old(self).sid(opos as int)].len() > 2 * W ==> old(self).plain(opos as int),
        ensures
            final(self).sound(),
            final(self).flat() == old(self).flat(),
            final(self).b == old(self).b,
            final(self).pool@ == old(self).pool@,
            final(self).free_ids@ == old(self).free_ids@,
            forall|b: int, x: int, y: int|
                #![trigger sized(old(self).bases(), b, x, y)]
                sized(old(self).bases(), b, x, y) && old(self).bases()[old(self).sid(opos as int)].len() <= 4 * W
                    ==> sized(
                    final(self).bases(),
                    b,
                    dropped(x, old(self).sid(opos as int)),
                    dropped(y, old(self).sid(opos as int)),
                ),
            final(self).groups() == if old(self).groups()[opos as int].len() > 2 * W {
                cut_block(old(self).groups(), opos as int, old(self).groups()[opos as int].len() as int / 2)
            } else {
                old(self).groups()
            },
            old(self).groups()[opos as int].len() == old(self).bases()[old(self).sid(opos as int)].len(),
            old(self).bases()[old(self).sid(opos as int)].len() <= 2 * W ==> *final(self) == *old(self),
            old(self).bases()[old(self).sid(opos as int)].len() > 2 * W ==> {
                &&& final(self).outer@.len() == old(self).outer@.len() + 1
                &&& final(self).plain(opos + 1)
                &&& taken(
                    old(self).sb_free@,
                    old(self).sbpool@.len(),
                    final(self).sb_free@,
                    final(self).sbpool@.len(),
                    final(self).sid(opos + 1),
                )
                &&& forall|k: int|
                    0 <= k <= opos ==> #[trigger] final(self).outer@[k] == old(self).outer@[k]
                &&& forall|k: int|
                    opos < k < old(self).outer@.len() ==> #[trigger] final(self).outer@[k + 1] == old(
                        self,
                    ).outer@[k]
            },
            forall|s: int|
                #[trigger] old(self).in_use(s) && s != old(self).sid(opos as int) ==> final(self).same_at(
                    old(self),
                    s,
                ),
    {
        let ghost o = *self;
        let sid: usize = sb_slot(self.outer[opos as usize]);
        assert(self.sid(opos as int) == sid);
        let n: usize = self.sbpool[sid].descs.len();
        let ghost blocks = self.bases()[sid as int];
        if n <= 2 * W {
            return;
        }
        let half: usize = n / 2;
        let ghost sb = self.sbpool@[sid as int];
        proof {
            assert(sb_ok(self.pool@, sb));
            self.lemma_nonempty(opos as int);
            assert(self.groups()[opos as int] =~= blocks);
            self.lemma_room(opos as int);
            self.lemma_small();
        }
        let nid: u32 = match self.sb_free.pop() {
            Some(f) => f,
            None => {
                let f: u32 = self.sbpool.len() as u32;
                self.sbpool.push(SB { descs: Vec::new(), szs: Vec::new(), total: 0 });
                f
            },
        };
        let at: usize = nid as usize;
        proof {
            if o.sb_free@.len() > 0 {
                assert(o.sb_free@[o.sb_free@.len() - 1] == nid);
            }
            assert(at != sid);
            lemma_sb_plain(nid);
        }
        let descs: Vec<u32> = self.sbpool[sid].descs.split_off(half);
        let szs: Vec<u32> = self.sbpool[sid].szs.split_off(half);
        proof {
            assert(base(self.pool@, descs@) =~= blocks.skip(half as int));
            assert(base(self.pool@, sb.descs@.take(half as int)) =~= blocks.take(half as int));
            lemma_concat_cut(blocks, half as int);
            assert forall|j: int| 0 <= j < szs@.len() implies #[trigger] szs@[j] == blocks.skip(half as int)[j].len() by {
                assert(block_ok(self.pool@, sb.descs@[half + j], sb.szs@[half + j]));
            }
            lemma_size_sum(szs@, blocks.skip(half as int));
        }
        let t: u32 = sum_sizes(&szs);
        self.sbpool[at].descs = descs;
        self.sbpool[at].szs = szs;
        self.sbpool[at].total = t;
        let rest: u32 = self.sbpool[sid].total - t;
        self.sbpool[sid].total = rest;
        assert(opos < self.outer.len());
        self.outer.insert(opos as usize + 1, nid);
        proof {
            let b0 = o.bases();
            let b1 = self.bases();
            let sbs = self.sbpool@;
            assert(sbs[sid as int].descs@ =~= sb.descs@.take(half as int));
            assert(sbs[sid as int].szs@ =~= sb.szs@.take(half as int));
            assert(sbs[at as int].descs@ =~= sb.descs@.skip(half as int));
            assert(sbs[at as int].szs@ =~= sb.szs@.skip(half as int));
            assert forall|s: int| 0 <= s < sbs.len() && s != sid && s != at implies #[trigger] sbs[s] == o.sbpool@[s] by {}
            assert forall|s: int| #[trigger] o.in_use(s) && s != sid implies self.same_at(&o, s) by {
                if o.sb_free@.len() > 0 {
                    assert(o.bases()[nid as int].len() == 0);
                }
                assert(sbs[s] == o.sbpool@[s]);
            }
            assert forall|s: int| 0 <= s < sbs.len() implies sb_ok(self.pool@, #[trigger] sbs[s]) by {
                if s == sid || s == at {
                    assert forall|j: int| 0 <= j < sbs[s].descs@.len() implies block_ok(
                        self.pool@,
                        #[trigger] sbs[s].descs@[j],
                        sbs[s].szs@[j],
                    ) by {
                        let i = if s == sid {
                            j
                        } else {
                            half + j
                        };
                        assert(block_ok(self.pool@, sb.descs@[i], sb.szs@[i]));
                    }
                } else {
                    assert(sb_ok(self.pool@, o.sbpool@[s]));
                }
            }
            assert(distinct(sbs)) by {
                assert forall|s1: int, j1: int, s2: int, j2: int|
                    0 <= s1 < sbs.len() && 0 <= j1 < sbs[s1].descs@.len() && 0 <= s2 < sbs.len() && 0 <= j2
                        < sbs[s2].descs@.len() && (s1 != s2 || j1 != j2) implies #[trigger] block_at(sbs, s1, j1)
                    != #[trigger] block_at(sbs, s2, j2) by {
                    let (t1, i1) = if s1 == at {
                        (sid as int, half + j1)
                    } else {
                        (s1, j1)
                    };
                    let (t2, i2) = if s2 == at {
                        (sid as int, half + j2)
                    } else {
                        (s2, j2)
                    };
                    assert(block_at(o.sbpool@, t1, i1) != block_at(o.sbpool@, t2, i2));
                }
            }
            assert(b1[sid as int] =~= blocks.take(half as int));
            assert(b1[at as int] =~= blocks.skip(half as int));
            assert forall|s: int| 0 <= s < b0.len() && s != sid && s != nid implies #[trigger] b1[s] == b0[s] by {
                assert(sbs[s] == o.sbpool@[s]);
            }
            lemma_groups_split(
                b0,
                b1,
                o.outer@,
                o.sb_free@,
                opos as int,
                half as int,
                nid,
                self.sb_free@,
            );
            let g = o.groups()[opos as int];
            assert(0 < half < g.len() && self.groups() == o.groups().update(opos as int, g.take(half as int)).insert(
                opos + 1,
                g.skip(half as int),
            ));
            assert forall|b: int, x: int, y: int|
                #![trigger sized(o.bases(), b, x, y)]
                sized(o.bases(), b, x, y) && blocks.len() <= 4 * W implies sized(
                b1,
                b,
                dropped(x, sid as int),
                dropped(y, sid as int),
            ) by {
                lemma_sized_split(b0, b1, b, x, y, sid as int, nid as int, half as int);
            }
        }
    }

    /// The superblock that holds position `p` has no flags.
    spec fn plain_at(&self, p: int) -> bool {
        exists|o: int| #[trigger] covers(self.contents(), o, p) && self.plain(o)
    }

    /// Splitting a superblock without flags leaves the others as they are, and where
    /// they are.
    proof fn lemma_plain_split(o: &SqrtBitset2, n: &SqrtBitset2, opos: int, h: int)
        requires
            0 <= opos < o.outer@.len(),
            o.plain(opos),
            0 < h < o.groups()[opos].len(),
            n.groups() == o.groups().update(opos, o.groups()[opos].take(h)).insert(
                opos + 1,
                o.groups()[opos].skip(h),
            ),
            n.outer@.len() == o.outer@.len() + 1,
            n.plain(opos + 1),
            forall|k: int| 0 <= k <= opos ==> #[trigger] n.outer@[k] == o.outer@[k],
            forall|k: int| opos < k < o.outer@.len() ==> #[trigger] n.outer@[k + 1] == o.outer@[k],
        ensures
            forall|p: int| o.plain_at(p) ==> #[trigger] n.plain_at(p),
            forall|s: int, p: int| #[trigger] n.houses(s, p) && s != n.sid(opos + 1) ==> o.houses(s, p),
    {
        let c0 = o.contents();
        let c1 = n.contents();
        let g = o.groups()[opos];
        let m = offset(g, h);
        lemma_concat_cut(g, h);
        assert(c0[opos].take(m) =~= concat(g.take(h)));
        assert(c0[opos].skip(m) =~= concat(g.skip(h)));
        assert(c1 =~= c0.update(opos, c0[opos].take(m)).insert(opos + 1, c0[opos].skip(m)));
        lemma_cut_starts(c0, opos, m);
        assert forall|p: int| o.plain_at(p) implies #[trigger] n.plain_at(p) by {
            let k = choose|k: int| #[trigger] covers(o.contents(), k, p) && o.plain(k);
            if k < opos {
                assert(offset(c1, k) == offset(c0, k));
                assert(covers(c1, k, p) && n.plain(k));
            } else if k > opos {
                assert(offset(c1, k + 1) == offset(c0, k));
                assert(n.outer@[k + 1] == o.outer@[k]);
                assert(covers(c1, k + 1, p) && n.plain(k + 1));
            } else {
                assert(offset(c1, opos) == offset(c0, opos));
                if p < offset(c0, opos) + m {
                    assert(covers(c1, opos, p) && n.plain(opos));
                } else {
                    assert(covers(c1, opos + 1, p) && n.plain(opos + 1));
                }
            }
        }
        assert forall|s: int, p: int| #[trigger] n.houses(s, p) && s != n.sid(opos + 1) implies o.houses(s, p) by {
            let k = choose|k: int| #[trigger] covers(n.contents(), k, p) && n.sid(k) == s;
            if k <= opos {
                assert(offset(c1, k) == offset(c0, k));
                assert(covers(c0, k, p) && o.sid(k) == s);
            } else {
                assert(offset(c1, k) == offset(c0, k - 1));
                assert(n.outer@[k - 1 + 1] == o.outer@[k - 1]);
                assert(covers(c0, k - 1, p) && o.sid(k - 1) == s);
            }
        }
    }

    /// What a cut within the superblock at `opos` does to the whole.
    #[verifier::rlimit(40)]
    proof fn lemma_after_cut(o: &SqrtBitset2, n: &SqrtBitset2, opos: int, at: int, off: int)
        requires
            o.sound(),
            sized(o.bases(), o.b as int, -1, -1),
            0 <= opos < o.outer@.len(),
            o.plain(opos),
            0 <= at < o.groups()[opos].len(),
            0 < off < o.groups()[opos][at].len(),
            n.inner_ok(),
            n.differs_at(o, o.sid(opos)),
            ({
                let blocks = o.bases()[o.sid(opos)];
                let x = blocks[at];
                n.bases()[o.sid(opos)] == blocks.update(at, x.take(off)).insert(at + 1, x.skip(off))
            }),
        ensures
            n.sound(),
            n@ == o@,
            n.plain(opos),
            sized(n.bases(), n.b as int, o.sid(opos), -1),
            n.bases()[o.sid(opos)].len() <= 4 * W,
            n.contents() == o.contents(),
            n.groups() == o.groups().update(opos, cut_block(o.groups()[opos], at, off)),
            cut_at(n.flat(), offset(o.contents(), opos) + offset(o.groups()[opos], at) + off),
            forall|p: int| cut_at(o.flat(), p) ==> #[trigger] cut_at(n.flat(), p),
            forall|p: int| o.plain_at(p) ==> #[trigger] n.plain_at(p),
    {
        let sid = o.sid(opos);
        let g = o.groups()[opos];
        let i = offset(o.groups(), opos) + at;
        let x = g[at];
        assert(turned(o.bases()[sid], false, false) =~= o.bases()[sid]);
        assert(g == o.bases()[sid]);
        lemma_offset_two_levels(o.groups(), opos, at);
        let b0 = o.bases();
        let ng = g.update(at, x.take(off)).insert(at + 1, x.skip(off));
        assert(n.bases()[sid] == ng);
        lemma_groups_update(b0, o.outer@, opos, ng);
        assert(n.groups() == o.groups().update(opos, ng));
        lemma_concat_split_piece(g, at, off);
        assert(n.contents() =~= o.contents());
        lemma_concat_concat(n.groups());
        lemma_concat_concat(o.groups());
        lemma_concat_around(o.groups(), opos);
        lemma_concat_around(n.groups(), opos);
        assert(n.groups().take(opos) =~= o.groups().take(opos));
        assert(n.groups().skip(opos + 1) =~= o.groups().skip(opos + 1));
        assert(n.flat() =~= o.flat().update(i, x.take(off)).insert(i + 1, x.skip(off)));
        lemma_cuts(o.flat(), i, off);
        assert forall|p: int| o.plain_at(p) implies #[trigger] n.plain_at(p) by {
            let k = choose|k: int| #[trigger] covers(o.contents(), k, p) && o.plain(k);
            assert(covers(n.contents(), k, p) && n.plain(k));
        }
        assert(sized(n.bases(), n.b as int, sid, -1)) by {
            let b1 = n.bases();
            assert forall|t: int, j: int| 0 <= t < b1.len() && 0 <= j < b1[t].len() implies (#[trigger] b1[t][j]).len()
                <= 2 * n.b by {
                if t == sid {
                    let q = if j > at {
                        j - 1
                    } else {
                        j
                    };
                    assert(b0[t][q].len() <= 2 * n.b);
                } else {
                    assert(b1[t] == b0[t]);
                    assert(b0[t][j].len() <= 2 * n.b);
                }
            }
            assert(b0[sid].len() <= 2 * W);
            assert forall|t: int| 0 <= t < b1.len() implies (#[trigger] b1[t]).len() <= if t == sid || t == -1 {
                4 * W
            } else {
                2 * W
            } by {
                if t != sid {
                    assert(b1[t] == b0[t]);
                    assert(b0[t].len() <= 2 * W);
                }
            }
        }
    }

    /// Makes a cut in the sequence before element `off` of the block in slot `at`
    /// of the superblock at `opos`.
    fn split_block_at(&mut self, opos: u32, at: u32, off: u32)
        requires
            old(self).sound(),
            sized(old(self).bases(), old(self).b as int, -1, -1),
            opos < old(self).outer@.len(),
            old(self).plain(opos as int),
            at < old(self).groups()[opos as int].len(),
        ensures
            final(self).sound(),
            sized(final(self).bases(), final(self).b as int, -1, -1),
            final(self)@ == old(self)@,
            final(self).b == old(self).b,
            off == 0 || off >= old(self).groups()[opos as int][at as int].len() ==> *final(self) == *old(self),
            0 < off < old(self).groups()[opos as int][at as int].len() ==> exists|n: int|
                #![trigger taken(
                    old(self).free_ids@,
                    old(self).pool@.len(),
                    final(self).free_ids@,
                    final(self).pool@.len(),
                    n,
                )]
                taken(
                    old(self).free_ids@,
                    old(self).pool@.len(),
                    final(self).free_ids@,
                    final(self).pool@.len(),
                    n,
                ) && rewritten(
                    old(self).pool@,
                    final(self).pool@,
                    block_at(old(self).sbpool@, old(self).sid(opos as int), at as int),
                    n,
                ),
            off <= old(self).groups()[opos as int][at as int].len() ==> cut_at(
                final(self).flat(),
                offset(old(self).contents(), opos as int) + offset(
                    old(self).groups()[opos as int],
                    at as int,
                ) + off,
            ),
            forall|p: int| cut_at(old(self).flat(), p) ==> #[trigger] cut_at(final(self).flat(), p),
            forall|p: int| old(self).plain_at(p) ==> #[trigger] final(self).plain_at(p),
            final(self).groups() == cut_before(old(self).groups(), opos as int, at as int, off as int),
            forall|s: int|
                #[trigger] old(self).in_use(s) && s != old(self).sid(opos as int) ==> final(self).same_at(
                    old(self),
                    s,
                ),
            forall|s: int, p: int| #[trigger]
                final(self).houses(s, p) && old(self).in_use(s) ==> old(self).houses(s, p),
    {
        let ghost o = *self;
        let sid: usize = sb_slot(self.outer[opos as usize]);
        assert(self.sid(opos as int) == sid);
        let ghost g = self.groups()[opos as int];
        let ghost i = offset(self.groups(), opos as int) + at;
        let ghost x = g[at as int];
        proof {
            assert(sb_ok(self.pool@, self.sbpool@[sid as int]));
            assert(turned(self.bases()[sid as int], false, false) =~= self.bases()[sid as int]);
            assert(g == self.bases()[sid as int]);
            assert(block_ok(
                self.pool@,
                self.sbpool@[sid as int].descs@[at as int],
                self.sbpool@[sid as int].szs@[at as int],
            ));
            lemma_offset_two_levels(self.groups(), opos as int, at as int);
            lemma_offset_two_levels(self.groups(), opos as int, at + 1);
            lemma_concat_around(self.flat(), i);
            self.lemma_small();
            assert(self.sbpool@[self.sid(opos as int)].descs@.len() <= MAX_LEN);
        }
        let sz: u32 = self.sbpool[sid].szs[at as usize];
        if off == 0 || off >= sz {
            proof {
                if off <= x.len() {
                    assert(offset(self.flat(), i) + off == offset(self.flat(), if off == 0 {
                        i
                    } else {
                        i + 1
                    }));
                }
            }
            return;
        }
        self.cut_block(opos, at as usize, off as usize);
        proof {
            Self::lemma_after_cut(&o, self, opos as int, at as int, off as int);
            let nid = block_at(self.sbpool@, sid as int, at + 1);
            assert forall|s: int, j: int|
                0 <= s < o.sbpool@.len() && s != sid && 0 <= j < o.sbpool@[s].descs@.len() implies #[trigger] block_at(
                o.sbpool@,
                s,
                j,
            ) != block_at(o.sbpool@, sid as int, at as int) && block_at(o.sbpool@, s, j) != nid by {
                assert(sb_ok(o.pool@, o.sbpool@[s]));
                assert(block_ok(o.pool@, o.sbpool@[s].descs@[j], o.sbpool@[s].szs@[j]));
                if o.free_ids@.len() > 0 {
                    assert(o.pool@[o.free_ids@[o.free_ids@.len() - 1] as int]@.len() == 0);
                }
            }
            Self::lemma_elsewhere(&o, self, sid as int, block_at(o.sbpool@, sid as int, at as int), nid);
        }
        let ghost m = *self;
        self.split_superblock(opos);
        proof {
            if m.bases()[sid as int].len() > 2 * W {
                let h = m.groups()[opos as int].len() as int / 2;
                Self::lemma_plain_split(&m, self, opos as int, h);
            }
            assert forall|s: int, p: int| #[trigger] self.houses(s, p) && o.in_use(s) implies o.houses(s, p) by {
                assert(m.in_use(s)) by {
                    if s != sid {
                        assert(m.same_at(&o, s));
                    }
                }
                if m.bases()[sid as int].len() > 2 * W && m.sb_free@.len() > 0 {
                    assert(m.bases()[m.sb_free@[m.sb_free@.len() - 1] as int].len() == 0);
                }
                assert(m.houses(s, p));
                let k = choose|k: int| #[trigger] covers(m.contents(), k, p) && m.sid(k) == s;
                assert(covers(o.contents(), k, p) && o.sid(k) == s);
            }
            assert forall|s: int| #[trigger] o.in_use(s) && s != sid implies self.same_at(&o, s) by {
                assert(m.same_at(&o, s));
                assert(m.in_use(s));
                assert(self.same_at(&m, s));
                Self::lemma_same_twice(&o, &m, self, s);
            }
        }
    }

    /// What joining two blocks of the superblock at `opos` does to the whole.
    proof fn lemma_after_join(o: &SqrtBitset2, n: &SqrtBitset2, opos: int, at: int)
        requires
            o.sound(),
            0 <= opos < o.outer@.len(),
            0 <= at,
            at + 1 < o.bases()[o.sid(opos)].len(),
            o.bases()[o.sid(opos)][at].len() + o.bases()[o.sid(opos)][at + 1].len() <= 2 * o.b,
            n.inner_ok(),
            n.differs_at(o, o.sid(opos)),
            ({
                let blocks = o.bases()[o.sid(opos)];
                n.bases()[o.sid(opos)] == blocks.update(at, blocks[at] + blocks[at + 1]).remove(at + 1)
            }),
        ensures
            n.sound(),
            n@ == o@,
            forall|x: int, y: int|
                sized(o.bases(), o.b as int, x, y) ==> #[trigger] sized(n.bases(), n.b as int, x, y),
    {
        let sid = o.sid(opos);
        let b0 = o.bases();
        let b1 = n.bases();
        let blocks = b0[sid];
        let ng = blocks.update(at, blocks[at] + blocks[at + 1]).remove(at + 1);
        lemma_concat_join_pieces(blocks, at);
        assert(paired(o.outer@));
        lemma_groups_rebased(b0, o.outer@, opos, ng);
        assert(n.contents() == o.contents());
        lemma_concat_concat(n.groups());
        lemma_concat_concat(o.groups());
        assert forall|x: int, y: int| sized(b0, o.b as int, x, y) implies #[trigger] sized(b1, n.b as int, x, y) by {
            assert forall|t: int, j: int| 0 <= t < b1.len() && 0 <= j < b1[t].len() implies (#[trigger] b1[t][j]).len()
                <= 2 * n.b by {
                let q = if t == sid && j > at {
                    j + 1
                } else {
                    j
                };
                assert(b0[t][q].len() <= 2 * n.b);
            }
            assert forall|t: int| 0 <= t < b1.len() implies (#[trigger] b1[t]).len() <= if t == x || t == y {
                4 * W
            } else {
                2 * W
            } by {
                assert(b1[t].len() <= b0[t].len());
            }
        }
    }

    /// Merges the block in slot `at` with a neighbour if it is small and the two
    /// together are not too large.
    fn merge_small_block(&mut self, opos: u32, at: usize)
        requires
            old(self).sound(),
            opos < old(self).outer@.len(),
        ensures
            final(self).sound(),
            final(self)@ == old(self)@,
            final(self).b == old(self).b,
            final(self).outer@ == old(self).outer@,
            ({
                let s = old(self).sid(opos as int);
                let blocks = old(self).bases()[s];
                let j = if at < blocks.len() {
                    merge_at(blocks, at as int, old(self).b as int, 2 * old(self).b)
                } else {
                    -1
                };
                &&& j < 0 ==> *final(self) == *old(self)
                &&& j >= 0 ==> final(self).free_ids@ == old(self).free_ids@.push(
                    block_at(old(self).sbpool@, s, j + 1) as u32,
                )
                &&& j >= 0 ==> rewritten(
                    old(self).pool@,
                    final(self).pool@,
                    block_at(old(self).sbpool@, s, j),
                    block_at(old(self).sbpool@, s, j + 1),
                )
                &&& final(self).sbpool@[s].total == old(self).sbpool@[s].total
            }),
            final(self).differs_at(old(self), old(self).sid(opos as int)),
            final(self).bases()[old(self).sid(opos as int)] == if at < old(self).bases()[old(self).sid(
                opos as int,
            )].len() {
                merged(old(self).bases()[old(self).sid(opos as int)], at as int, old(self).b as int, 2 * old(self).b)
            } else {
                old(self).bases()[old(self).sid(opos as int)]
            },
            forall|x: int, y: int|
                sized(old(self).bases(), old(self).b as int, x, y) ==> #[trigger] sized(
                    final(self).bases(),
                    final(self).b as int,
                    x,
                    y,
                ),
            forall|s: int|
                0 <= s < old(self).sbpool@.len() && s != old(self).sid(opos as int)
                    ==> #[trigger] final(self).same_at(old(self), s),
    {
        let ghost o = *self;
        let sid: usize = sb_slot(self.outer[opos as usize]);
        assert(self.sid(opos as int) == sid);
        let ghost sb = self.sbpool@[sid as int];
        assert(sb_ok(self.pool@, sb));
        assert forall|j: int| 0 <= j < sb.szs@.len() implies #[trigger] sb.szs@[j] == self.bases()[sid as int][j].len() by {
            assert(block_ok(self.pool@, sb.descs@[j], sb.szs@[j]));
        }
        assert(self.bases() =~= self.bases().update(sid as int, self.bases()[sid as int]));
        let cnt: usize = self.sbpool[sid].descs.len();
        if at >= cnt {
            return;
        }
        let sz: u32 = self.sbpool[sid].szs[at];
        if sz >= self.b {
            return;
        }
        let limit: u64 = 2 * self.b as u64;
        if at > 0 && self.sbpool[sid].szs[at - 1] as u64 + sz as u64 <= limit {
            self.join_blocks(opos, at - 1);
            proof {
                Self::lemma_after_join(&o, self, opos as int, at - 1);
                Self::lemma_elsewhere(
                    &o,
                    self,
                    sid as int,
                    block_at(o.sbpool@, sid as int, at - 1),
                    block_at(o.sbpool@, sid as int, at as int),
                );
            }
            return;
        }
        if cnt - at > 1 && sz as u64 + self.sbpool[sid].szs[at + 1] as u64 <= limit {
            self.join_blocks(opos, at);
            proof {
                Self::lemma_after_join(&o, self, opos as int, at as int);
                Self::lemma_elsewhere(
                    &o,
                    self,
                    sid as int,
                    block_at(o.sbpool@, sid as int, at as int),
                    block_at(o.sbpool@, sid as int, at + 1),
                );
            }
        }
    }

    /// Merges the small blocks of the superblock at `opos`.
    fn merge_small_scan(&mut self, opos: u32)
        requires
            old(self).sound(),
            opos < old(self).outer@.len(),
        ensures
            final(self).sound(),
            final(self)@ == old(self)@,
            final(self).b == old(self).b,
            final(self).outer@ == old(self).outer@,
            final(self).differs_at(old(self), old(self).sid(opos as int)),
            final(self).bases()[old(self).sid(opos as int)] == scanned(
                old(self).bases()[old(self).sid(opos as int)],
                0,
                old(self).b as int,
            ),
            forall|j: int|
                0 <= j && j + 1 < final(self).bases()[old(self).sid(opos as int)].len() ==> #[trigger] apart(
                    final(self).bases()[old(self).sid(opos as int)],
                    j,
                    old(self).b as int,
                ),
            old(self).plain(opos as int) ==> final(self).groups() == old(self).groups().update(
                opos as int,
                scanned(old(self).groups()[opos as int], 0, old(self).b as int),
            ),
            forall|x: int, y: int|
                sized(old(self).bases(), old(self).b as int, x, y) ==> #[trigger] sized(
                    final(self).bases(),
                    final(self).b as int,
                    x,
                    y,
                ),
            forall|s: int|
                0 <= s < old(self).sbpool@.len() && s != old(self).sid(opos as int)
                    ==> #[trigger] final(self).same_at(old(self), s),
    {
        let ghost o = *self;
        let sid: usize = sb_slot(self.outer[opos as usize]);
        let ghost goal = scanned(self.bases()[sid as int], 0, self.b as int);
        let mut k: usize = 0;
        assert(self.bases() =~= o.bases().update(sid as int, self.bases()[sid as int]));
        while k < self.sbpool[sid].descs.len()
            invariant
                self.sound(),
                self@ == old(self)@,
                self.b == old(self).b,
                self.outer@ == old(self).outer@,
                opos < self.outer@.len(),
                sid == self.sid(opos as int),
                self.differs_at(&o, sid as int),
                k <= self.bases()[sid as int].len(),
                sid < self.sbpool@.len(),
                sid < o.sbpool@.len(),
                self.bases() == o.bases().update(sid as int, self.bases()[sid as int]),
                goal == scanned(self.bases()[sid as int], k as int, self.b as int),
                forall|s: int| 0 <= s < o.sbpool@.len() && s != sid ==> #[trigger] self.same_at(&o, s),
                forall|x: int, y: int|
                    sized(old(self).bases(), old(self).b as int, x, y) ==> #[trigger] sized(
                        self.bases(),
                        self.b as int,
                        x,
                        y,
                    ),
            decreases self.bases()[sid as int].len() - k,
        {
            let ghost blocks = self.bases()[sid as int];
            assert(sb_ok(self.pool@, self.sbpool@[sid as int]));
            assert(block_ok(
                self.pool@,
                self.sbpool@[sid as int].descs@[k as int],
                self.sbpool@[sid as int].szs@[k as int],
            ));
            assert(self.sbpool@[sid as int].szs@[k as int] == blocks[k as int].len());
            if self.sbpool[sid].szs[k] < self.b {
                let before: usize = self.sbpool[sid].descs.len();
                assert(before == self.bases()[sid as int].len());
                let ghost m = *self;
                self.merge_small_block(opos, k);
                assert forall|s: int| 0 <= s < o.sbpool@.len() && s != sid implies #[trigger] self.same_at(&o, s) by {
                    assert(self.same_at(&m, s));
                    assert(m.same_at(&o, s));
                    Self::lemma_same_twice(&o, &m, self, s);
                }
                assert(self.bases() =~= o.bases().update(sid as int, self.bases()[sid as int]));
                assert(self.sbpool@.len() == self.bases().len());
                assert(self.sbpool@[sid as int].descs@.len() == self.bases()[sid as int].len());
                if self.sbpool[sid].descs.len() == before {
                    k = k + 1;
                }
            } else {
                k = k + 1;
            }
        }
        proof {
            law_scanned(o.bases()[sid as int], o.b as int);
            if o.plain(opos as int) {
                lemma_groups_update(o.bases(), o.outer@, opos as int, self.bases()[sid as int]);
            }
        }
    }

    /// Appends the blocks of the superblock at `opos + 1` to the one at `opos`.
    fn join_superblocks(&mut self, opos: usize)
        requires
            old(self).sound(),
            opos + 1 < old(self).outer@.len(),
            old(self).plain(opos as int),
            old(self).plain(opos + 1),
        ensures
            final(self).sound(),
            final(self)@ == old(self)@,
            final(self).b == old(self).b,
            final(self).pool@ == old(self).pool@,
            final(self).free_ids@ == old(self).free_ids@,
            final(self).outer@ == old(self).outer@.remove(opos + 1),
            final(self).sbpool@.len() == old(self).sbpool@.len(),
            final(self).sb_free@ == old(self).sb_free@.push(old(self).sid(opos + 1) as u32),
            final(self).groups() == joined(old(self).groups(), opos as int),
            forall|x: int, y: int|
                sized(old(self).bases(), old(self).b as int, x, y) && old(self).bases()[old(self).sid(
                    opos as int,
                )].len() + old(self).bases()[old(self).sid(opos + 1)].len() <= 2 * W ==> #[trigger] sized(
                    final(self).bases(),
                    final(self).b as int,
                    x,
                    y,
                ),
    {
        let ghost o = *self;
        assert(opos + 1 < self.outer.len());
        let l: usize = sb_slot(self.outer[opos]);
        let r: usize = sb_slot(self.outer[opos + 1]);
        let ghost lsb = self.sbpool@[l as int];
        let ghost rsb = self.sbpool@[r as int];
        let ghost lb = self.bases()[l as int];
        let ghost rb = self.bases()[r as int];
        proof {
            assert(sid_of(self.outer@[opos as int]) != sid_of(self.outer@[opos + 1]));
            assert(sb_ok(self.pool@, lsb));
            assert(sb_ok(self.pool@, rsb));
            self.lemma_total(opos as int);
            self.lemma_total(opos + 1);
            self.lemma_small();
        }
        let mut rhs: Vec<u32> = Vec::new();
        let mut rsz: Vec<u32> = Vec::new();
        std::mem::swap(&mut rhs, &mut self.sbpool[r].descs);
        std::mem::swap(&mut rsz, &mut self.sbpool[r].szs);
        self.sbpool[l].descs.append(&mut rhs);
        self.sbpool[l].szs.append(&mut rsz);
        let total: u32 = self.sbpool[l].total + self.sbpool[r].total;
        self.sbpool[l].total = total;
        self.sbpool[r].total = 0;
        self.sb_free.push(r as u32);
        self.outer.remove(opos + 1);
        proof {
            let sbs = self.sbpool@;
            let b0 = o.bases();
            let b1 = self.bases();
            assert(sbs[l as int].descs@ =~= lsb.descs@ + rsb.descs@);
            assert(sbs[l as int].szs@ =~= lsb.szs@ + rsb.szs@);
            assert(sbs[r as int].descs@ =~= Seq::empty());
            assert(sbs[r as int].szs@ =~= Seq::empty());
            assert(b1[l as int] =~= lb + rb);
            assert(b1[r as int] =~= Seq::empty());
            lemma_concat_add(lb, rb);
            assert forall|s: int| 0 <= s < sbs.len() && s != l && s != r implies #[trigger] sbs[s] == o.sbpool@[s] by {}
            assert forall|s: int| 0 <= s < sbs.len() implies sb_ok(self.pool@, #[trigger] sbs[s]) by {
                if s == l {
                    assert forall|j: int| 0 <= j < sbs[s].descs@.len() implies block_ok(
                        self.pool@,
                        #[trigger] sbs[s].descs@[j],
                        sbs[s].szs@[j],
                    ) by {
                        let m = lsb.descs@.len();
                        if j < m {
                            assert(block_ok(self.pool@, lsb.descs@[j], lsb.szs@[j]));
                        } else {
                            assert(block_ok(self.pool@, rsb.descs@[j - m], rsb.szs@[j - m]));
                        }
                    }
                } else if s != r {
                    assert(sb_ok(self.pool@, o.sbpool@[s]));
                }
            }
            assert(distinct(sbs)) by {
                assert forall|s1: int, j1: int, s2: int, j2: int|
                    0 <= s1 < sbs.len() && 0 <= j1 < sbs[s1].descs@.len() && 0 <= s2 < sbs.len() && 0 <= j2
                        < sbs[s2].descs@.len() && (s1 != s2 || j1 != j2) implies #[trigger] block_at(sbs, s1, j1)
                    != #[trigger] block_at(sbs, s2, j2) by {
                    let m = lsb.descs@.len();
                    let (t1, i1) = if s1 == l && j1 >= m {
                        (r as int, j1 - m)
                    } else {
                        (s1, j1)
                    };
                    let (t2, i2) = if s2 == l && j2 >= m {
                        (r as int, j2 - m)
                    } else {
                        (s2, j2)
                    };
                    assert(block_at(o.sbpool@, t1, i1) != block_at(o.sbpool@, t2, i2));
                }
            }
            assert(b1 =~= b0.update(l as int, lb + rb).update(r as int, Seq::empty()));
            lemma_groups_join(b0, b1, o.outer@, o.sb_free@, opos as int);
            assert(self.sb_free@ == o.sb_free@.push(sid_of(o.outer@[opos + 1]) as u32));
            assert forall|x: int, y: int|
                sized(b0, o.b as int, x, y) && lb.len() + rb.len() <= 2 * W implies #[trigger] sized(
                b1,
                self.b as int,
                x,
                y,
            ) by {
                assert forall|t: int, j: int| 0 <= t < b1.len() && 0 <= j < b1[t].len() implies (
                #[trigger] b1[t][j]).len() <= 2 * self.b by {
                    if t == l && j >= lb.len() {
                        assert(b0[r as int][j - lb.len()].len() <= 2 * self.b);
                    } else {
                        assert(b0[t][j].len() <= 2 * self.b);
                    }
                }
                assert forall|t: int| 0 <= t < b1.len() implies (#[trigger] b1[t]).len() <= if t == x || t == y {
                    4 * W
                } else {
                    2 * W
                } by {
                    if t != l && t != r {
                        assert(b0[t].len() == b1[t].len());
                    }
                }
            }
        }
    }

    /// Carries out the flags of the superblocks at `at` and `at + 1`, which together are
    /// small enough, and appends the blocks of the second to the first.
    fn join_pair(&mut self, at: u32)
        requires
            old(self).sound(),
            at + 1 < old(self).outer@.len(),
            at < u32::MAX,
            old(self).bases()[old(self).sid(at as int)].len() + old(self).bases()[old(self).sid(at + 1)].len()
                <= 2 * W,
        ensures
            final(self).sound(),
            final(self)@ == old(self)@,
            final(self).b == old(self).b,
            final(self).pool@ == old(self).pool@,
            final(self).free_ids@ == old(self).free_ids@,
            final(self).groups() == joined(old(self).groups(), at as int),
            final(self).sbpool@.len() == old(self).sbpool@.len(),
            final(self).sb_free@ == old(self).sb_free@.push(old(self).sid(at + 1) as u32),
            final(self).outer@.len() == old(self).outer@.len() - 1,
            forall|k: int|
                0 <= k <= at ==> #[trigger] final(self).sid(k) == old(self).sid(k) && (old(self).plain(k)
                    ==> final(self).plain(k)),
            forall|x: int, y: int|
                sized(old(self).bases(), old(self).b as int, x, y) ==> #[trigger] sized(
                    final(self).bases(),
                    final(self).b as int,
                    x,
                    y,
                ),
    {
        let ghost o = *self;
        self.materialize_sb(at);
        let ghost m1 = *self;
        self.materialize_sb(at + 1);
        let ghost m = *self;
        proof {
            assert(m.sid(at as int) == m1.sid(at as int) == o.sid(at as int));
            assert(m.sid(at + 1) == m1.sid(at + 1) == o.sid(at + 1));
            assert(m.outer@[at as int] == m1.outer@[at as int]);
            assert(m1.plain(at as int));
            assert(sid_of(o.outer@[at as int]) != sid_of(o.outer@[at + 1]));
        }
        self.join_superblocks(at as usize);
        proof {
            assert forall|k: int| 0 <= k <= at implies #[trigger] self.sid(k) == o.sid(k) && (o.plain(k)
                ==> self.plain(k)) by {
                assert(m.sid(k) == o.sid(k));
                assert(self.outer@[k] == m.outer@[k]);
            }
        }
    }

    /// Merges the superblock at `opos` with a neighbour if it has few blocks and the
    /// two together do not have too many.
    fn merge_superblock(&mut self, opos: u32)
        requires
            old(self).sound(),
            opos < old(self).outer@.len(),
        ensures
            final(self).sound(),
            final(self)@ == old(self)@,
            final(self).b == old(self).b,
            final(self).pool@ == old(self).pool@,
            final(self).free_ids@ == old(self).free_ids@,
            final(self).groups() == merged(old(self).groups(), opos as int, W as int / 2, 2 * W),
            merge_at(old(self).groups(), opos as int, W as int / 2, 2 * W) < 0 ==> *final(self) == *old(self),
            ({
                let j = merge_at(old(self).groups(), opos as int, W as int / 2, 2 * W);
                j >= 0 ==> final(self).sbpool@.len() == old(self).sbpool@.len() && final(self).sb_free@
                    == old(self).sb_free@.push(old(self).sid(j + 1) as u32)
            }),
            final(self).outer@.len() >= old(self).outer@.len() - 1,
            final(self).outer@.len() >= opos,
            forall|k: int|
                0 <= k < opos ==> #[trigger] final(self).sid(k) == old(self).sid(k) && (old(self).plain(k)
                    ==> final(self).plain(k)),
            forall|x: int, y: int|
                sized(old(self).bases(), old(self).b as int, x, y) ==> #[trigger] sized(
                    final(self).bases(),
                    final(self).b as int,
                    x,
                    y,
                ),
    {
        let ghost o = *self;
        let at: usize = opos as usize;
        let sid: usize = sb_slot(self.outer[at]);
        let cnt: usize = self.sbpool[sid].descs.len();
        assert(cnt == self.bases()[self.sid(opos as int)].len());
        assert(opos < self.outer.len());
        if cnt < W / 2 {
            if at > 0 {
                let left: usize = self.sbpool[sb_slot(self.outer[at - 1])].descs.len();
                assert(left == self.bases()[self.sid(opos - 1)].len());
                if left <= 2 * W - cnt {
                    self.join_pair(opos - 1);
                    return;
                }
            }
            if self.outer.len() - at > 1 {
                let right: usize = self.sbpool[sb_slot(self.outer[at + 1])].descs.len();
                assert(right == self.bases()[self.sid(opos + 1)].len());
                if right <= 2 * W - cnt {
                    proof {
                        self.lemma_small();
                    }
                    self.join_pair(opos);
                }
            }
        }
    }

    /// Splits or merges the superblock at `opos` if it has too many or too few
    /// blocks.
    fn rebalance_sb(&mut self, opos: u32)
        requires
            old(self).sound(),
            opos < old(self).outer@.len(),
            old(self).bases()[old(self).sid(opos as int)].len() > 2 * W ==> old(self).plain(opos as int),
        ensures
            final(self).sound(),
            final(self)@ == old(self)@,
            final(self).b == old(self).b,
            final(self).pool@ == old(self).pool@,
            final(self).free_ids@ == old(self).free_ids@,
            final(self).groups() == rebalanced(old(self).groups(), opos as int, W as int),
            final(self).outer@.len() >= old(self).outer@.len() - 1,
            final(self).outer@.len() >= opos,
            forall|k: int|
                0 <= k < opos ==> #[trigger] final(self).sid(k) == old(self).sid(k) && (old(self).plain(k)
                    ==> final(self).plain(k)),
            forall|x: int, y: int|
                #![trigger sized(old(self).bases(), old(self).b as int, x, y)]
                sized(old(self).bases(), old(self).b as int, x, y) ==> sized(
                    final(self).bases(),
                    final(self).b as int,
                    dropped(x, old(self).sid(opos as int)),
                    dropped(y, old(self).sid(opos as int)),
                ),
    {
        let ghost o = *self;
        let sid: usize = sb_slot(self.outer[opos as usize]);
        let cnt: usize = self.sbpool[sid].descs.len();
        assert(cnt == self.bases()[self.sid(opos as int)].len());
        if cnt > 2 * W {
            self.split_superblock(opos);
            proof {
                assert forall|k: int| 0 <= k < opos implies #[trigger] self.sid(k) == o.sid(k) && (o.plain(k)
                    ==> self.plain(k)) by {
                    assert(self.outer@[k] == o.outer@[k]);
                }
                assert forall|x: int, y: int|
                    #![trigger sized(o.bases(), o.b as int, x, y)]
                    sized(o.bases(), o.b as int, x, y) implies o.bases()[sid as int].len() <= 4 * W by {}
            }
        } else {
            assert forall|x: int, y: int|
                #![trigger sized(o.bases(), o.b as int, x, y)]
                sized(o.bases(), o.b as int, x, y) implies sized(
                o.bases(),
                o.b as int,
                dropped(x, sid as int),
                dropped(y, sid as int),
            ) by {
                assert forall|t: int| 0 <= t < o.bases().len() implies (#[trigger] o.bases()[t]).len() <= if t
                    == dropped(x, sid as int) || t == dropped(y, sid as int) {
                    4 * W
                } else {
                    2 * W
                } by {}
            }
            if cnt < W / 2 {
                self.merge_superblock(opos);
            }
        }
    }

    /// Turns the order and the contents of the blocks in the slots `si..=sj` of the
    /// superblock at `opos`; no block is rewritten.
    #[verifier::rlimit(40)]
    fn reverse_slot_range(&mut self, opos: u32, si: u32, sj: u32)
        requires
            old(self).sound(),
            opos < old(self).outer@.len(),
            old(self).plain(opos as int),
            si <= sj < old(self).groups()[opos as int].len(),
        ensures
            final(self).sound(),
            final(self).pool@ == old(self).pool@,
            final(self).free_ids@ == old(self).free_ids@,
            final(self).b == old(self).b,
            final(self).groups() == row_reversed(
                old(self).groups(),
                old(self).b as int,
                opos as int,
                si as int,
                opos as int,
                sj as int,
            ),
            ({
                let g = old(self).groups()[opos as int];
                final(self)@ == reversed(
                    old(self)@,
                    offset(old(self).contents(), opos as int) + offset(g, si as int),
                    offset(old(self).contents(), opos as int) + offset(g, sj + 1),
                )
            }),
            forall|x: int, y: int|
                sized(old(self).bases(), old(self).b as int, x, y) ==> #[trigger] sized(
                    final(self).bases(),
                    final(self).b as int,
                    x,
                    y,
                ),
    {
        let ghost o = *self;
        let sid: usize = sb_slot(self.outer[opos as usize]);
        let ghost g = self.groups()[opos as int];
        proof {
            assert(self.sid(opos as int) == sid);
            assert(turned(self.bases()[sid as int], false, false) =~= self.bases()[sid as int]);
            self.lemma_small();
            assert(sb_ok(self.pool@, self.sbpool@[self.sid(opos as int)]));
        }
        assert(sj < self.sbpool@[sid as int].descs.len());
        self.reverse_slots(sid, si as usize, sj as usize + 1);
        assert(self.bases()[sid as int].len() == g.len());
        self.toggle_slots(sid, si as usize, sj as usize + 1);
        proof {
            let l = si as int;
            let r = sj + 1;
            let b0 = o.bases();
            let b1 = self.bases();
            let ng = b1[sid as int];
            assert(b1 =~= b0.update(sid as int, ng));
            lemma_groups_update(b0, o.outer@, opos as int, ng);
            let mid = g.subrange(l, r);
            assert(ng =~= g.take(l) + flip(mid) + g.skip(r));
            assert(g =~= g.take(l) + mid + g.skip(r));
            lemma_concat_add(g.take(l) + flip(mid), g.skip(r));
            lemma_concat_add(g.take(l), flip(mid));
            lemma_concat_add(g.take(l) + mid, g.skip(r));
            lemma_concat_add(g.take(l), mid);
            lemma_concat_flip(mid);
            assert(g.take(r) =~= g.take(l) + mid);
            lemma_reversed_middle(concat(g.take(l)), concat(mid), concat(g.skip(r)));
            let c = o.contents();
            assert(c[opos as int] == concat(g));
            assert(concat(ng) == reversed(concat(g), offset(g, l), offset(g, r)));
            assert(self.contents() =~= c.update(opos as int, reversed(c[opos as int], offset(g, l), offset(g, r))));
            lemma_reversed_inside(c, opos as int, offset(g, l), offset(g, r));
            lemma_concat_concat(self.groups());
            lemma_concat_concat(o.groups());
            assert forall|x: int, y: int|
                sized(b0, o.b as int, x, y) implies #[trigger] sized(b1, self.b as int, x, y) by {
                assert forall|t: int, j: int| 0 <= t < b1.len() && 0 <= j < b1[t].len() implies (
                #[trigger] b1[t][j]).len() <= 2 * self.b by {
                    let q = if t == sid && l <= j < r {
                        l + r - 1 - j
                    } else {
                        j
                    };
                    assert(b0[t][q].len() <= 2 * self.b);
                }
                assert forall|t: int| 0 <= t < b1.len() implies (#[trigger] b1[t]).len() <= if t == x || t == y {
                    4 * W
                } else {
                    2 * W
                } by {
                    assert(b0[t].len() == b1[t].len());
                }
            }
        }
    }

    /// The blocks after a trade, and that they are still distinct.
    proof fn lemma_traded(o: &SqrtBitset2, n: &SqrtBitset2, ai: int, si: int, di: int, sj: int)
        requires
            o.inner_ok(),
            n.pool == o.pool,
            0 <= ai < o.sbpool@.len(),
            0 <= di < o.sbpool@.len(),
            ai != di,
            0 <= si < o.sbpool@[ai].descs@.len(),
            0 <= sj < o.sbpool@[di].descs@.len(),
            n.sbpool@.len() == o.sbpool@.len(),
            forall|s: int| 0 <= s < o.sbpool@.len() && s != ai && s != di ==> #[trigger] n.sbpool@[s] == o.sbpool@[s],
            ({
                let a = o.sbpool@[ai];
                let d = o.sbpool@[di];
                let na = n.sbpool@[ai];
                let nd = n.sbpool@[di];
                let ac = a.descs@.len();
                &&& na.descs@.len() == si + sj + 1
                &&& na.szs@.len() == si + sj + 1
                &&& nd.descs@.len() == ac - si + d.descs@.len() - sj - 1
                &&& nd.szs@.len() == nd.descs@.len()
                &&& forall|j: int|
                    0 <= j < si ==> #[trigger] na.descs@[j] == a.descs@[j] && na.szs@[j] == a.szs@[j]
                &&& forall|j: int|
                    si <= j < na.descs@.len() ==> {
                        &&& slot_of(#[trigger] na.descs@[j]) == slot_of(d.descs@[sj - (j - si)])
                        &&& flagged(na.descs@[j]) == !flagged(d.descs@[sj - (j - si)])
                        &&& na.szs@[j] == d.szs@[sj - (j - si)]
                    }
                &&& forall|j: int|
                    0 <= j < ac - si ==> {
                        &&& slot_of(#[trigger] nd.descs@[j]) == slot_of(a.descs@[ac - 1 - j])
                        &&& flagged(nd.descs@[j]) == !flagged(a.descs@[ac - 1 - j])
                        &&& nd.szs@[j] == a.szs@[ac - 1 - j]
                    }
                &&& forall|j: int|
                    ac - si <= j < nd.descs@.len() ==> #[trigger] nd.descs@[j] == d.descs@[j - (ac - si) + sj
                        + 1] && nd.szs@[j] == d.szs@[j - (ac - si) + sj + 1]
            }),
        ensures
            distinct(n.sbpool@),
            ({
                let x = o.bases()[ai];
                let y = o.bases()[di];
                let na = x.take(si) + flip(y.take(sj + 1));
                let nd = flip(x.skip(si)) + y.skip(sj + 1);
                &&& n.bases()[ai] == na
                &&& n.bases()[di] == nd
                &&& forall|j: int| 0 <= j < na.len() ==> #[trigger] n.sbpool@[ai].szs@[j] == na[j].len()
                &&& forall|j: int| 0 <= j < nd.len() ==> #[trigger] n.sbpool@[di].szs@[j] == nd[j].len()
                &&& forall|j: int|
                    0 <= j < na.len() ==> block_ok(
                        n.pool@,
                        #[trigger] n.sbpool@[ai].descs@[j],
                        n.sbpool@[ai].szs@[j],
                    )
                &&& forall|j: int|
                    0 <= j < nd.len() ==> block_ok(
                        n.pool@,
                        #[trigger] n.sbpool@[di].descs@[j],
                        n.sbpool@[di].szs@[j],
                    )
            }),
    {
        let a = o.sbpool@[ai];
        let d = o.sbpool@[di];
        let ac = a.descs@.len();
        let x = o.bases()[ai];
        let y = o.bases()[di];
        let na = x.take(si) + flip(y.take(sj + 1));
        let nd = flip(x.skip(si)) + y.skip(sj + 1);
        let sbs = n.sbpool@;
        assert(sb_ok(o.pool@, a));
        assert(sb_ok(o.pool@, d));
        assert forall|j: int| 0 <= j < na.len() implies {
            &&& block_ok(n.pool@, #[trigger] sbs[ai].descs@[j], sbs[ai].szs@[j])
            &&& n.bases()[ai][j] == na[j]
            &&& sbs[ai].szs@[j] == na[j].len()
        } by {
            if j < si {
                assert(sbs[ai].descs@[j] == a.descs@[j]);
                assert(block_ok(o.pool@, a.descs@[j], a.szs@[j]));
            } else {
                let i = sj - (j - si);
                assert(slot_of(sbs[ai].descs@[j]) == slot_of(d.descs@[i]));
                assert(block_ok(o.pool@, d.descs@[i], d.szs@[i]));
                lemma_reverse_twice(o.pool@[slot_of(d.descs@[i])]@);
                assert(na[j] == y[i].reverse());
            }
        }
        assert forall|j: int| 0 <= j < nd.len() implies {
            &&& block_ok(n.pool@, #[trigger] sbs[di].descs@[j], sbs[di].szs@[j])
            &&& n.bases()[di][j] == nd[j]
            &&& sbs[di].szs@[j] == nd[j].len()
        } by {
            if j < ac - si {
                let i = ac - 1 - j;
                assert(slot_of(sbs[di].descs@[j]) == slot_of(a.descs@[i]));
                assert(block_ok(o.pool@, a.descs@[i], a.szs@[i]));
                lemma_reverse_twice(o.pool@[slot_of(a.descs@[i])]@);
                assert(nd[j] == x[i].reverse());
            } else {
                let i = j - (ac - si) + sj + 1;
                assert(sbs[di].descs@[j] == d.descs@[i]);
                assert(block_ok(o.pool@, d.descs@[i], d.szs@[i]));
            }
        }
        assert(n.bases()[ai] =~= na);
        assert(n.bases()[di] =~= nd);
        assert forall|s1: int, j1: int, s2: int, j2: int|
            0 <= s1 < sbs.len() && 0 <= j1 < sbs[s1].descs@.len() && 0 <= s2 < sbs.len() && 0 <= j2
                < sbs[s2].descs@.len() && (s1 != s2 || j1 != j2) implies #[trigger] block_at(sbs, s1, j1)
            != #[trigger] block_at(sbs, s2, j2) by {
            let (t1, i1) = origin(ai, si, di, sj, ac as int, s1, j1);
            let (t2, i2) = origin(ai, si, di, sj, ac as int, s2, j2);
            assert(block_at(o.sbpool@, t1, i1) == block_at(sbs, s1, j1)) by {
                assert(s1 == ai ==> slot_of(sbs[ai].descs@[j1]) == block_at(o.sbpool@, t1, i1));
                assert(s1 == di ==> slot_of(sbs[di].descs@[j1]) == block_at(o.sbpool@, t1, i1));
            }
            assert(block_at(o.sbpool@, t2, i2) == block_at(sbs, s2, j2)) by {
                assert(s2 == ai ==> slot_of(sbs[ai].descs@[j2]) == block_at(o.sbpool@, t2, i2));
                assert(s2 == di ==> slot_of(sbs[di].descs@[j2]) == block_at(o.sbpool@, t2, i2));
            }
            assert(t1 != t2 || i1 != i2);
        }
    }

    /// Lets superblock `ai` and superblock `di` trade the blocks from slot `si` on
    /// and the blocks up to slot `sj`, turned over.
    #[verifier::rlimit(40)]
    fn trade_slots(&mut self, ai: usize, si: usize, di: usize, sj: usize)
        requires
            old(self).inner_ok(),
            ai < old(self).sbpool@.len(),
            di < old(self).sbpool@.len(),
            ai != di,
            si < old(self).bases()[ai as int].len() <= MAX_LEN,
            sj < old(self).bases()[di as int].len() <= MAX_LEN,
            concat(old(self).bases()[ai as int]).len() + concat(old(self).bases()[di as int]).len() <= u32::MAX,
        ensures
            final(self).inner_ok(),
            final(self).b == old(self).b,
            final(self).outer@ == old(self).outer@,
            final(self).sb_free@ == old(self).sb_free@,
            final(self).pool@ == old(self).pool@,
            final(self).free_ids@ == old(self).free_ids@,
            ({
                let x = old(self).bases()[ai as int];
                let y = old(self).bases()[di as int];
                final(self).bases() == old(self).bases().update(
                    ai as int,
                    x.take(si as int) + flip(y.take(sj + 1)),
                ).update(di as int, flip(x.skip(si as int)) + y.skip(sj + 1))
            }),
            forall|s: int|
                0 <= s < old(self).sbpool@.len() && s != ai && s != di ==> #[trigger] final(self).same_at(
                    old(self),
                    s,
                ),
    {
        let ghost o = *self;
        let ghost a = self.sbpool@[ai as int];
        let ghost d = self.sbpool@[di as int];
        let ghost x = self.bases()[ai as int];
        let ghost y = self.bases()[di as int];
        proof {
            assert(sb_ok(self.pool@, a));
            assert(sb_ok(self.pool@, d));
        }
        let ac: usize = self.sbpool[ai].descs.len();
        let bc: usize = self.sbpool[di].descs.len();
        let nrb: usize = sj + 1;
        let rp_d: Vec<u32> = turned_descs(&self.sbpool[di].descs, 0, nrb);
        let rp_s: Vec<u32> = turned_sizes(&self.sbpool[di].szs, 0, nrb);
        let mut lp_d: Vec<u32> = turned_descs(&self.sbpool[ai].descs, si, ac);
        let mut lp_s: Vec<u32> = turned_sizes(&self.sbpool[ai].szs, si, ac);
        let tail_d: Vec<u32> = copy_range(&self.sbpool[di].descs, nrb, bc);
        let tail_s: Vec<u32> = copy_range(&self.sbpool[di].szs, nrb, bc);
        self.sbpool[ai].descs.truncate(si);
        append_slice(&mut self.sbpool[ai].descs, &rp_d);
        self.sbpool[ai].szs.truncate(si);
        append_slice(&mut self.sbpool[ai].szs, &rp_s);
        append_slice(&mut lp_d, &tail_d);
        append_slice(&mut lp_s, &tail_s);
        self.sbpool[di].descs = lp_d;
        self.sbpool[di].szs = lp_s;
        let ghost na = x.take(si as int) + flip(y.take(sj + 1));
        let ghost nd = flip(x.skip(si as int)) + y.skip(sj + 1);
        proof {
            let sbs = self.sbpool@;
            Self::lemma_traded(&o, self, ai as int, si as int, di as int, sj as int);
            lemma_size_sum(sbs[ai as int].szs@, na);
            lemma_size_sum(sbs[di as int].szs@, nd);
            lemma_concat_cut(x, si as int);
            lemma_concat_cut(y, sj + 1);
            lemma_concat_add(x.take(si as int), flip(y.take(sj + 1)));
            lemma_concat_add(flip(x.skip(si as int)), y.skip(sj + 1));
            lemma_concat_flip(y.take(sj + 1));
            lemma_concat_flip(x.skip(si as int));
        }
        let ta: u32 = sum_sizes(&self.sbpool[ai].szs);
        self.sbpool[ai].total = ta;
        let td: u32 = sum_sizes(&self.sbpool[di].szs);
        self.sbpool[di].total = td;
        proof {
            let sbs = self.sbpool@;
            Self::lemma_traded(&o, self, ai as int, si as int, di as int, sj as int);
            assert(self.bases() =~= o.bases().update(ai as int, na).update(di as int, nd));
            assert forall|s: int| 0 <= s < o.sbpool@.len() && s != ai && s != di implies #[trigger] self.same_at(
                &o,
                s,
            ) by {
                assert(sbs[s] == o.sbpool@[s]);
            }
            assert forall|s: int| 0 <= s < sbs.len() implies sb_ok(self.pool@, #[trigger] sbs[s]) by {
                if s != ai && s != di {
                    assert(sbs[s] == o.sbpool@[s]);
                    assert(sb_ok(self.pool@, o.sbpool@[s]));
                }
            }
        }
    }

    /// Turns over the superblocks between `oi` and `oj`.
    fn turn_outer(&mut self, oi: u32, oj: u32)
        requires
            outer_ok(old(self).bases(), old(self).outer@, old(self).sb_free@),
            oi < oj < old(self).outer@.len(),
        ensures
            final(self).pool == old(self).pool,
            final(self).free_ids == old(self).free_ids,
            final(self).sbpool == old(self).sbpool,
            final(self).sb_free == old(self).sb_free,
            final(self).b == old(self).b,
            outer_ok(final(self).bases(), final(self).outer@, final(self).sb_free@),
            paired(old(self).outer@) ==> paired(final(self).outer@),
            final(self).outer@.len() == old(self).outer@.len(),
            forall|k: int|
                0 <= k < old(self).outer@.len() && (k <= oi || oj <= k) ==> #[trigger] final(self).outer@[k]
                    == old(self).outer@[k],
            forall|k: int|
                oi < k < oj ==> #[trigger] final(self).groups()[k] == flip(old(self).groups()[oi + oj - k]),
    {
        let ghost o = *self;
        reverse_avx2(&mut self.outer, oi as usize + 1, oj as usize);
        let ghost m1 = self.outer@;
        toggle_mask(&mut self.outer, oi + 1, oj, ORD);
        let ghost m2 = self.outer@;
        toggle_mask(&mut self.outer, oi + 1, oj, CONT);
        proof {
            assert(self.bases() =~= o.bases());
            let q = |k: int|
                if oi < k < oj {
                    oi + oj - k
                } else {
                    k
                };
            assert forall|k: int| 0 <= k < self.outer@.len() implies {
                &&& sid_of(#[trigger] self.outer@[k]) == sid_of(o.outer@[q(k)])
                &&& (oi < k < oj) ==> order_turned(self.outer@[k]) == !order_turned(o.outer@[q(k)])
                    && contents_turned(self.outer@[k]) == !contents_turned(o.outer@[q(k)])
                &&& !(oi < k < oj) ==> self.outer@[k] == o.outer@[k]
            } by {
                assert(m1[k] == o.outer@[q(k)]);
                if oi < k < oj {
                    assert(m2[k] == m1[k] ^ ORD);
                    assert(self.outer@[k] == m2[k] ^ CONT);
                    lemma_sb_toggled(m1[k]);
                }
            }
            assert forall|k: int| oi < k < oj implies #[trigger] self.groups()[k] == flip(o.groups()[oi + oj - k]) by {
                let d = o.outer@[q(k)];
                assert(sid_of(self.outer@[k]) == sid_of(d));
                lemma_turned_flip(o.bases()[sid_of(d)], order_turned(d), contents_turned(d));
            }
            assert forall|k: int| 0 <= k < self.outer@.len() implies 0 <= sid_of(#[trigger] self.outer@[k])
                < self.bases().len() && self.bases()[sid_of(self.outer@[k])].len() > 0 by {
                assert(sid_of(self.outer@[k]) == sid_of(o.outer@[q(k)]));
            }
            assert forall|o1: int, o2: int|
                0 <= o1 < self.outer@.len() && 0 <= o2 < self.outer@.len() && o1 != o2 implies sid_of(
                #[trigger] self.outer@[o1],
            ) != sid_of(#[trigger] self.outer@[o2]) by {
                assert(sid_of(self.outer@[o1]) == sid_of(o.outer@[q(o1)]));
                assert(sid_of(self.outer@[o2]) == sid_of(o.outer@[q(o2)]));
                assert(q(o1) != q(o2));
            }
        }
    }

    /// What a trade of blocks between the superblocks at `oi` and `oj` does to the
    /// outer list and the bounds.
    proof fn lemma_after_trade(o: &SqrtBitset2, n: &SqrtBitset2, oi: int, si: int, oj: int, sj: int)
        requires
            o.sound(),
            sized(o.bases(), o.b as int, -1, -1),
            0 <= oi < oj < o.outer@.len(),
            o.plain(oi),
            o.plain(oj),
            0 <= si < o.groups()[oi].len(),
            0 <= sj < o.groups()[oj].len(),
            n.outer@ == o.outer@,
            n.sb_free@ == o.sb_free@,
            n.b == o.b,
            n.bases() == o.bases().update(
                o.sid(oi),
                o.bases()[o.sid(oi)].take(si) + flip(o.bases()[o.sid(oj)].take(sj + 1)),
            ).update(
                o.sid(oj),
                flip(o.bases()[o.sid(oi)].skip(si)) + o.bases()[o.sid(oj)].skip(sj + 1),
            ),
        ensures
            outer_ok(n.bases(), n.outer@, n.sb_free@),
            sized(n.bases(), n.b as int, o.sid(oi), o.sid(oj)),
            o.groups()[oi] == o.bases()[o.sid(oi)],
            o.groups()[oj] == o.bases()[o.sid(oj)],
            n.groups()[oi] == o.groups()[oi].take(si) + flip(o.groups()[oj].take(sj + 1)),
            n.groups()[oj] == flip(o.groups()[oi].skip(si)) + o.groups()[oj].skip(sj + 1),
            forall|k: int|
                0 <= k < o.outer@.len() && k != oi && k != oj ==> #[trigger] n.groups()[k] == o.groups()[k],
    {
        let b0 = o.bases();
        let b1 = n.bases();
        let ai = o.sid(oi);
        let di = o.sid(oj);
        let x = b0[ai];
        let y = b0[di];
        let na = x.take(si) + flip(y.take(sj + 1));
        let nd = flip(x.skip(si)) + y.skip(sj + 1);
        assert(sid_of(o.outer@[oi]) != sid_of(o.outer@[oj]));
        assert(turned(x, false, false) =~= x);
        assert(turned(y, false, false) =~= y);
        assert(turned(na, false, false) =~= na);
        assert(turned(nd, false, false) =~= nd);
        assert forall|k: int| 0 <= k < o.outer@.len() && k != oi && k != oj implies #[trigger] n.groups()[k]
            == o.groups()[k] by {
            assert(sid_of(o.outer@[k]) != ai);
            assert(sid_of(o.outer@[k]) != di);
            assert(b1[sid_of(o.outer@[k])] == b0[sid_of(o.outer@[k])]);
        }
        assert forall|k: int| 0 <= k < n.sb_free@.len() implies 0 <= #[trigger] n.sb_free@[k] < b1.len()
            && b1[n.sb_free@[k] as int].len() == 0 by {
            assert(b0[o.sb_free@[k] as int].len() == 0);
        }
        assert forall|t: int, j: int| 0 <= t < b1.len() && 0 <= j < b1[t].len() implies (#[trigger] b1[t][j]).len()
            <= 2 * n.b by {
            if t == ai && j >= si {
                let i = sj - (j - si);
                assert(na[j] == y[i].reverse());
                assert(b0[di][i].len() <= 2 * n.b);
            } else if t == di && j < x.len() - si {
                let i = x.len() - 1 - j;
                assert(nd[j] == x[i].reverse());
                assert(b0[ai][i].len() <= 2 * n.b);
            } else if t == di {
                let i = j - (x.len() - si) + sj + 1;
                assert(nd[j] == y[i]);
                assert(b0[di][i].len() <= 2 * n.b);
            } else {
                assert(b0[t][j].len() <= 2 * n.b);
            }
        }
        assert(b0[ai].len() <= 2 * W);
        assert(b0[di].len() <= 2 * W);
        assert forall|t: int| 0 <= t < b1.len() implies (#[trigger] b1[t]).len() <= if t == ai || t == di {
            4 * W
        } else {
            2 * W
        } by {
            assert(b0[t].len() <= 2 * W);
        }
    }

    /// Reverses from the block in slot `si` of the superblock at `oi` to the block in
    /// slot `sj` of the later superblock at `oj`; no block is rewritten.
    #[verifier::rlimit(40)]
    fn reverse_across(&mut self, oi: u32, si: u32, oj: u32, sj: u32)
        requires
            old(self).sound(),
            sized(old(self).bases(), old(self).b as int, -1, -1),
            oi < oj < old(self).outer@.len(),
            old(self).plain(oi as int),
            old(self).plain(oj as int),
            si < old(self).groups()[oi as int].len(),
            sj < old(self).groups()[oj as int].len(),
        ensures
            final(self).sound(),
            final(self).pool@ == old(self).pool@,
            final(self).free_ids@ == old(self).free_ids@,
            final(self).b == old(self).b,
            sized(
                final(self).bases(),
                final(self).b as int,
                old(self).sid(oi as int),
                old(self).sid(oj as int),
            ),
            final(self).outer@.len() == old(self).outer@.len(),
            final(self).outer@[oi as int] == old(self).outer@[oi as int],
            final(self).outer@[oj as int] == old(self).outer@[oj as int],
            final(self).groups() == traded(old(self).groups(), oi as int, si as int, oj as int, sj as int),
            final(self)@ == reversed(
                old(self)@,
                offset(old(self).contents(), oi as int) + offset(old(self).groups()[oi as int], si as int),
                offset(old(self).contents(), oj as int) + offset(old(self).groups()[oj as int], sj + 1),
            ),
            forall|s: int|
                0 <= s < old(self).sbpool@.len() && s != old(self).sid(oi as int) && s != old(self).sid(oj as int)
                    ==> #[trigger] final(self).same_at(old(self), s),
    {
        let ghost o = *self;
        let ai: usize = sb_slot(self.outer[oi as usize]);
        let di: usize = sb_slot(self.outer[oj as usize]);
        let ghost gi = self.groups()[oi as int];
        let ghost gj = self.groups()[oj as int];
        proof {
            assert(sid_of(self.outer@[oi as int]) != sid_of(self.outer@[oj as int]));
            self.lemma_small();
            assert(self.sbpool@[self.sid(oi as int)].descs@.len() <= MAX_LEN);
            assert(self.sbpool@[self.sid(oj as int)].descs@.len() <= MAX_LEN);
            self.lemma_total(oi as int);
            self.lemma_total(oj as int);
            assert(sb_ok(self.pool@, self.sbpool@[ai as int]));
            assert(sb_ok(self.pool@, self.sbpool@[di as int]));
        }
        self.trade_slots(ai, si as usize, di, sj as usize);
        proof {
            Self::lemma_after_trade(&o, self, oi as int, si as int, oj as int, sj as int);
        }
        let ghost m = *self;
        self.turn_outer(oi, oj);
        proof {
            assert(self.bases() =~= m.bases());
            let c0 = o.contents();
            let c1 = self.contents();
            let p = offset(gi, si as int);
            let q = offset(gj, sj + 1);
            assert(self.groups()[oi as int] == m.groups()[oi as int]);
            assert(self.groups()[oj as int] == m.groups()[oj as int]);
            lemma_concat_cut(gi, si as int);
            lemma_concat_cut(gj, sj + 1);
            lemma_concat_add(gi.take(si as int), flip(gj.take(sj + 1)));
            lemma_concat_add(flip(gi.skip(si as int)), gj.skip(sj + 1));
            lemma_concat_flip(gj.take(sj + 1));
            lemma_concat_flip(gi.skip(si as int));
            assert(c0[oi as int].take(p) =~= concat(gi.take(si as int)));
            assert(c0[oi as int].skip(p) =~= concat(gi.skip(si as int)));
            assert(c0[oj as int].take(q) =~= concat(gj.take(sj + 1)));
            assert(c0[oj as int].skip(q) =~= concat(gj.skip(sj + 1)));
            let want = spliced(c0, oi as int, p, oj as int, q);
            assert forall|k: int| 0 <= k < c1.len() implies c1[k] == want[k] by {
                if oi < k < oj {
                    let g = o.groups()[oi + oj - k];
                    assert(m.groups()[oi + oj - k] == g);
                    assert(self.groups()[k] == flip(g));
                    lemma_concat_flip(g);
                } else if k != oi && k != oj {
                    assert(self.outer@[k] == m.outer@[k]);
                    assert(m.groups()[k] == o.groups()[k]);
                }
            }
            assert(c1 =~= want);
            assert forall|k: int| 0 <= k < self.groups().len() implies self.groups()[k] == traded(
                o.groups(),
                oi as int,
                si as int,
                oj as int,
                sj as int,
            )[k] by {
                if oi < k < oj {
                    assert(m.groups()[oi + oj - k] == o.groups()[oi + oj - k]);
                    assert(self.groups()[k] == flip(m.groups()[oi + oj - k]));
                } else if k != oi && k != oj {
                    assert(self.outer@[k] == m.outer@[k]);
                    assert(m.groups()[k] == o.groups()[k]);
                }
            }
            assert(self.groups() =~= traded(o.groups(), oi as int, si as int, oj as int, sj as int));
            lemma_spliced(c0, oi as int, p, oj as int, q);
            o.lemma_view();
            self.lemma_view();
            assert(distinct(self.sbpool@));
            assert(self.inner_ok());
            assert(self.bases().len() == o.bases().len());
            assert forall|s: int| 0 <= s < o.sbpool@.len() && s != ai && s != di implies #[trigger] self.same_at(
                &o,
                s,
            ) by {
                assert(m.same_at(&o, s));
            }
        }
    }

    /// The superblock that holds `k` has no flags.
    proof fn lemma_plain_here(&self, p: Loc, k: int)
        requires
            self.sound(),
            self.at(p, k),
            self.plain_at(k),
        ensures
            self.plain(p.opos as int),
            self.rank(p) == p.slot,
    {
        self.lemma_covered(p, k);
        let c = self.contents();
        let o = choose|o: int| #[trigger] covers(self.contents(), o, k) && self.plain(o);
        lemma_locate_unique(c, o, k - offset(c, o), p.opos as int, k - offset(c, p.opos as int));
    }

    /// A location is in its superblock.
    proof fn lemma_covered(&self, p: Loc, k: int)
        requires
            self.at(p, k),
        ensures
            covers(self.contents(), p.opos as int, k),
    {
        let g = self.groups()[p.opos as int];
        let q = self.rank(p);
        lemma_concat_around(g, q);
    }

    /// A location as an index into all blocks.
    proof fn lemma_flat_index(&self, p: Loc, k: int) -> (i: int)
        requires
            self.at(p, k),
        ensures
            0 <= i < self.flat().len(),
            self.flat()[i] == self.groups()[p.opos as int][self.rank(p)],
            offset(self.flat(), i) + p.off == k,
    {
        lemma_offset_two_levels(self.groups(), p.opos as int, self.rank(p));
        offset(self.groups(), p.opos as int) + self.rank(p)
    }

    /// The order of two locations is that of the elements.
    proof fn lemma_ordered(&self, p: Loc, k: int, p2: Loc, k2: int)
        requires
            self.sound(),
            self.at(p, k),
            self.at(p2, k2),
            k <= k2,
        ensures
            p.opos <= p2.opos,
            p.opos == p2.opos ==> self.rank(p) <= self.rank(p2),
    {
        self.lemma_covered(p, k);
        self.lemma_covered(p2, k2);
        let c = self.contents();
        if p2.opos < p.opos {
            lemma_offset_monotone(c, p2.opos + 1, p.opos as int);
            lemma_concat_around(c, p2.opos as int);
        } else if p2.opos == p.opos && self.rank(p2) < self.rank(p) {
            let g = self.groups()[p.opos as int];
            lemma_offset_monotone(g, self.rank(p2) + 1, self.rank(p));
            lemma_concat_around(g, self.rank(p2));
        }
    }

    /// Makes the superblocks that hold `l` and `r` flagless and the range `l..=r` a
    /// row of whole blocks.
    #[verifier::rlimit(40)]
    fn isolate(&mut self, l: u32, r: u32) -> (at: Ghost<((int, int, int), (int, int, int))>)
        requires
            old(self).sound(),
            sized(old(self).bases(), old(self).b as int, -1, -1),
            l <= r < old(self)@.len(),
        ensures
            final(self).sound(),
            sized(final(self).bases(), final(self).b as int, -1, -1),
            final(self)@ == old(self)@,
            final(self).b == old(self).b,
            final(self).plain_at(l as int),
            final(self).plain_at(r as int),
            cut_at(final(self).flat(), l as int),
            cut_at(final(self).flat(), r + 1),
            isolated(old(self).groups(), l as int, r as int, at@.0, at@.1, final(self).groups()),
            forall|s: int|
                old(self).in_use(s) && !old(self).houses(s, l as int) && !old(self).houses(s, r as int)
                    ==> #[trigger] final(self).aloof(old(self), s, l as int, r as int),
    {
        let a: Loc = self.find(l);
        let b: Loc = self.find(r);
        let ghost o = *self;
        proof {
            self.lemma_covered(a, l as int);
            self.lemma_covered(b, r as int);
            assert(o.houses(o.sid(a.opos as int), l as int));
            assert(o.houses(o.sid(b.opos as int), r as int));
        }
        self.materialize_sb(a.opos);
        if b.opos != a.opos {
            self.materialize_sb(b.opos);
        }
        proof {
            assert(covers(self.contents(), a.opos as int, l as int) && self.plain(a.opos as int));
            assert(covers(self.contents(), b.opos as int, r as int) && self.plain(b.opos as int));
            assert forall|s: int|
                o.in_use(s) && !o.houses(s, l as int) && !o.houses(s, r as int) implies #[trigger] self.aloof(
                &o,
                s,
                l as int,
                r as int,
            ) by {
                assert(self.contents() == o.contents());
                assert forall|p: int| #[trigger] self.houses(s, p) implies o.houses(s, p) by {
                    let k = choose|k: int| #[trigger] covers(self.contents(), k, p) && self.sid(k) == s;
                    assert(covers(o.contents(), k, p) && o.sid(k) == s);
                }
            }
        }
        let a: Loc = self.find(l);
        let ghost m1 = *self;
        proof {
            self.lemma_plain_here(a, l as int);
            self.lemma_covered(a, l as int);
            assert(m1.houses(m1.sid(a.opos as int), l as int));
        }
        let ghost x = (a.opos as int, a.slot as int, a.off as int);
        assert(placed(self.groups(), x, l as int));
        self.split_block_at(a.opos, a.slot, a.off);
        let b2: Loc = self.find(r);
        let ghost m2 = *self;
        proof {
            Self::lemma_aloof(&o, &m1, &m2, m1.sid(a.opos as int), l as int, r as int);
            self.lemma_covered(b2, r as int);
            assert(m2.houses(m2.sid(b2.opos as int), r as int));
            self.lemma_plain_here(b2, r as int);
            self.lemma_small();
        }
        let ghost y = (b2.opos as int, b2.slot as int, b2.off as int);
        assert(placed(self.groups(), y, r as int));
        self.split_block_at(b2.opos, b2.slot, b2.off + 1);
        proof {
            Self::lemma_aloof(&o, &m2, self, m2.sid(b2.opos as int), l as int, r as int);
        }
        Ghost((x, y))
    }

    /// Where a row of whole blocks starts and ends.
    proof fn lemma_ends(&self, p: Loc, l: int, q: Loc, r: int)
        requires
            self.sound(),
            l <= r,
            self.at(p, l),
            self.at(q, r),
            self.plain_at(l),
            self.plain_at(r),
            cut_at(self.flat(), l),
            cut_at(self.flat(), r + 1),
        ensures
            self.plain(p.opos as int),
            self.plain(q.opos as int),
            p.opos <= q.opos,
            p.opos == q.opos ==> p.slot <= q.slot,
            p.slot < self.groups()[p.opos as int].len(),
            q.slot < self.groups()[q.opos as int].len(),
            offset(self.contents(), p.opos as int) + offset(self.groups()[p.opos as int], p.slot as int) == l,
            offset(self.contents(), q.opos as int) + offset(self.groups()[q.opos as int], q.slot + 1) == r + 1,
    {
        self.lemma_plain_here(p, l);
        self.lemma_plain_here(q, r);
        self.lemma_ordered(p, l, q, r);
        let i = self.lemma_flat_index(p, l);
        lemma_first_at_cut(self.flat(), i, p.off as int);
        let j = self.lemma_flat_index(q, r);
        lemma_last_before_cut(self.flat(), j, q.off as int);
        lemma_concat_around(self.groups()[q.opos as int], q.slot as int);
    }

    /// Merges and splits what a reversal across superblocks left too small or too
    /// large.
    fn settle(&mut self, oi: u32, oj: u32)
        requires
            old(self).sound(),
            oi < oj < old(self).outer@.len(),
            old(self).plain(oi as int),
            old(self).plain(oj as int),
            sized(old(self).bases(), old(self).b as int, old(self).sid(oi as int), old(self).sid(oj as int)),
        ensures
            final(self).sound(),
            sized(final(self).bases(), final(self).b as int, -1, -1),
            final(self)@ == old(self)@,
            final(self).b == old(self).b,
            final(self).groups() == settled(old(self).groups(), old(self).b as int, oi as int, oj as int),
            forall|s: int|
                0 <= s < old(self).sbpool@.len() && s != old(self).sid(oi as int) && s != old(self).sid(oj as int)
                    ==> #[trigger] final(self).stores(old(self), s),
    {
        let ghost o = *self;
        let ghost ai = self.sid(oi as int);
        let ghost di = self.sid(oj as int);
        proof {
            assert(sid_of(self.outer@[oi as int]) != sid_of(self.outer@[oj as int]));
        }
        self.merge_small_scan(oi);
        let ghost m1 = *self;
        self.merge_small_scan(oj);
        let ghost m = *self;
        assert forall|s: int| 0 <= s < o.sbpool@.len() && s != ai && s != di implies #[trigger] m.same_at(&o, s) by {
            assert(m1.same_at(&o, s));
            assert(m.same_at(&m1, s));
            Self::lemma_same_twice(&o, &m1, &m, s);
        }
        assert(sized(m.bases(), m.b as int, ai, di));
        self.rebalance_sb(oj);
        proof {
            assert(m.sid(oi as int) == ai);
            assert(self.sid(oi as int) == m.sid(oi as int));
            assert(sized(self.bases(), self.b as int, ai, -1));
        }
        self.rebalance_sb(oi);
        assert forall|s: int| 0 <= s < o.sbpool@.len() && s != ai && s != di implies #[trigger] self.stores(&o, s) by {
            assert(m.same_at(&o, s));
        }
    }

    /// Reverses the elements `l..=r`, which are a row of whole blocks.
    fn reverse_row(&mut self, l: u32, r: u32) -> (at: Ghost<((int, int, int), (int, int, int))>)
        requires
            old(self).sound(),
            sized(old(self).bases(), old(self).b as int, -1, -1),
            l <= r < old(self)@.len(),
            old(self).plain_at(l as int),
            old(self).plain_at(r as int),
            cut_at(old(self).flat(), l as int),
            cut_at(old(self).flat(), r + 1),
        ensures
            final(self).sound(),
            sized(final(self).bases(), final(self).b as int, -1, -1),
            final(self)@ == reversed(old(self)@, l as int, r + 1),
            final(self).b == old(self).b,
            placed(old(self).groups(), at@.0, l as int),
            placed(old(self).groups(), at@.1, r as int),
            final(self).groups() == row_reversed(
                old(self).groups(),
                old(self).b as int,
                at@.0.0,
                at@.0.1,
                at@.1.0,
                at@.1.1,
            ),
            forall|s: int|
                0 <= s < old(self).sbpool@.len() && !old(self).houses(s, l as int) && !old(self).houses(s, r as int)
                    ==> #[trigger] final(self).stores(old(self), s),
    {
        let a2: Loc = self.find(l);
        let b3: Loc = self.find(r);
        proof {
            self.lemma_ends(a2, l as int, b3, r as int);
        }
        let ghost o = *self;
        proof {
            self.lemma_covered(a2, l as int);
            self.lemma_covered(b3, r as int);
            assert(o.houses(o.sid(a2.opos as int), l as int));
            assert(o.houses(o.sid(b3.opos as int), r as int));
        }
        let ghost v = (a2.opos as int, a2.slot as int, a2.off as int);
        let ghost w = (b3.opos as int, b3.slot as int, b3.off as int);
        assert(placed(self.groups(), v, l as int));
        assert(placed(self.groups(), w, r as int));
        if a2.opos == b3.opos {
            self.materialize_sb(a2.opos);
            self.reverse_slot_range(a2.opos, a2.slot, b3.slot);
            return Ghost((v, w));
        }
        self.reverse_across(a2.opos, a2.slot, b3.opos, b3.slot);
        let ghost m = *self;
        self.settle(a2.opos, b3.opos);
        assert forall|s: int|
            0 <= s < o.sbpool@.len() && !o.houses(s, l as int) && !o.houses(s, r as int) implies #[trigger] self.stores(
            &o,
            s,
        ) by {
            assert(m.same_at(&o, s));
            assert(self.stores(&m, s));
            assert forall|j: int| 0 <= j < o.sbpool@[s].descs@.len() implies self.pool@[#[trigger] block_at(
                o.sbpool@,
                s,
                j,
            )] == o.pool@[block_at(o.sbpool@, s, j)] by {
                assert(block_at(m.sbpool@, s, j) == block_at(o.sbpool@, s, j));
            }
        }
        Ghost((v, w))
    }

    /// Reverses the elements `l..=r`. No blocks are rewritten but those of the superblocks
    /// that hold the two ends.
    pub fn reverse(&mut self, l: u32, r: u32)
        requires
            old(self).wf(),
            l <= r < old(self)@.len(),
        ensures
            final(self).wf(),
            final(self)@ == reversed(old(self)@, l as int, r + 1),
            final(self).block_size() == old(self).block_size(),
            superblocks_reversed(
                old(self).superblocks(),
                old(self).block_size(),
                l as int,
                r as int,
                final(self).superblocks(),
            ),
            forall|o: int, j: int|
                0 <= o < old(self).block_slots().len() && !covers(
                    concat_each(old(self).superblocks()),
                    o,
                    l as int,
                ) && !covers(concat_each(old(self).superblocks()), o, r as int) && 0 <= j
                    < old(self).block_slots()[o].len() ==> final(self).arena()[#[trigger] old(
                    self,
                ).block_slots()[o][j]] == old(self).arena()[old(self).block_slots()[o][j]],
    {
        proof {
            self.lemma_not_blank();
        }
        let ghost gs = self.superblocks();
        let cuts: Ghost<((int, int, int), (int, int, int))> = self.isolate(l, r);
        let ghost row = self.superblocks();
        let ghost m = *self;
        let ends: Ghost<((int, int, int), (int, int, int))> = self.reverse_row(l, r);
        assert(isolated(gs, l as int, r as int, cuts@.0, cuts@.1, row));
        assert(placed(row, ends@.0, l as int) && placed(row, ends@.1, r as int));
        proof {
            Self::lemma_others_kept(old(self), &m, self, l as int, r as int);
        }
    }

    /// The superblocks that hold neither end of the range have their blocks left alone.
    proof fn lemma_others_kept(o0: &SqrtBitset2, m: &SqrtBitset2, n: &SqrtBitset2, l: int, r: int)
        requires
            o0.sound(),
            forall|s: int|
                o0.in_use(s) && !o0.houses(s, l) && !o0.houses(s, r) ==> #[trigger] m.aloof(o0, s, l, r),
            forall|s: int|
                0 <= s < m.sbpool@.len() && !m.houses(s, l) && !m.houses(s, r) ==> #[trigger] n.stores(m, s),
        ensures
            forall|o: int, j: int|
                0 <= o < o0.block_slots().len() && !covers(concat_each(o0.superblocks()), o, l) && !covers(
                    concat_each(o0.superblocks()),
                    o,
                    r,
                ) && 0 <= j < o0.block_slots()[o].len() ==> n.arena()[#[trigger] o0.block_slots()[o][j]]
                    == o0.arena()[o0.block_slots()[o][j]],
    {
        assert forall|o: int, j: int|
            0 <= o < o0.block_slots().len() && !covers(concat_each(o0.superblocks()), o, l) && !covers(
                concat_each(o0.superblocks()),
                o,
                r,
            ) && 0 <= j < o0.block_slots()[o].len() implies n.arena()[#[trigger] o0.block_slots()[o][j]]
            == o0.arena()[o0.block_slots()[o][j]] by {
            let s = o0.sid(o);
            o0.lemma_only_house(o, l);
            o0.lemma_only_house(o, r);
            assert(o0.bases()[sid_of(o0.outer@[o])].len() > 0);
            assert(o0.in_use(s));
            assert(m.aloof(o0, s, l, r));
            assert(n.stores(m, s));
            assert(block_at(m.sbpool@, s, j) == block_at(o0.sbpool@, s, j));
            assert(sb_ok(o0.pool@, o0.sbpool@[s]));
            assert(block_ok(o0.pool@, o0.sbpool@[s].descs@[j], o0.sbpool@[s].szs@[j]));
        }
    }

    /// A superblock holds no position but by the one place where it stands.
    proof fn lemma_only_house(&self, o: int, p: int)
        requires
            self.sound(),
            0 <= o < self.outer@.len(),
            !covers(self.contents(), o, p),
        ensures
            !self.houses(self.sid(o), p),
    {
        if self.houses(self.sid(o), p) {
            let k = choose|k: int| #[trigger] covers(self.contents(), k, p) && self.sid(k) == self.sid(o);
            assert(sid_of(self.outer@[k]) == sid_of(self.outer@[o]));
        }
    }

    /// The superblocks, each a list of blocks, in the order of the sequence.
    pub closed spec fn superblocks(&self) -> Seq<Seq<Seq<u32>>> {
        self.groups()
    }

    /// The largest block is at most twice this size.
    pub closed spec fn block_size(&self) -> int {
        self.b as int
    }

    /// Nothing in it: one empty superblock.
    spec fn blank(&self) -> bool {
        &&& self.b > 0
        &&& self.outer@ == seq![0u32]
        &&& self.sbpool@.len() == 1
        &&& self.sbpool@[0].descs@.len() == 0
        &&& self.sbpool@[0].szs@.len() == 0
        &&& self.sbpool@[0].total == 0
        &&& self.sb_free@.len() == 0
        &&& self.pool@.len() == 0
        &&& self.free_ids@.len() == 0
    }

    /// The invariant: the numbers kept for the blocks and superblocks are right, no
    /// block has more than twice the block size of elements, and no superblock more
    /// than twice `W` blocks.
    pub closed spec fn wf(&self) -> bool {
        self.blank() || (self.sound() && sized(self.bases(), self.b as int, -1, -1))
    }

    proof fn lemma_not_blank(&self)
        requires
            self.wf(),
            self@.len() > 0,
        ensures
            self.sound(),
            sized(self.bases(), self.b as int, -1, -1),
    {
        if self.blank() {
            self.lemma_blank();
        }
    }

    proof fn lemma_blank_flat(&self)
        requires
            self.blank(),
        ensures
            self.flat() == Seq::<Seq<u32>>::empty(),
    {
        self.lemma_blank();
        assert(self.groups().drop_last() =~= Seq::empty());
        assert(concat(self.groups().drop_last()) =~= Seq::<Seq<u32>>::empty());
        assert(self.flat() =~= Seq::<Seq<u32>>::empty());
    }

    proof fn lemma_blank(&self)
        requires
            self.blank(),
        ensures
            self@ == Seq::<u32>::empty(),
            self.sid(0) == 0,
            self.groups().len() == 1,
            self.groups()[0] == Seq::<Seq<u32>>::empty(),
    {
        lemma_sb_plain(0);
        assert(self.groups().len() == 1);
        assert(self.groups()[0] =~= Seq::<Seq<u32>>::empty());
        assert(self.groups().drop_last() =~= Seq::empty());
        assert(concat(self.groups().drop_last()) =~= Seq::<Seq<u32>>::empty());
        assert(self.flat() =~= Seq::<Seq<u32>>::empty());
    }

    /// The structure for the elements of `a`; blocks hold `block_size` elements, or a
    /// number chosen by length if that is 0.
    pub fn new(a: &[u32], _seed: u64, block_size: u32) -> (s: SqrtBitset2)
        requires
            a@.len() <= MAX_LEN,
        ensures
            s.wf(),
            s@ == a@,
            is_block_size(a@.len() as int, block_size as int, s.block_size()),
            a@.len() == 0 ==> s.superblocks() == seq![Seq::<Seq<u32>>::empty()],
            a@.len() > 0 ==> chunked(s.superblocks(), W as int),
            chunked(concat(s.superblocks()), s.block_size()),
            s.unflagged(),
            s.free_slots() == Seq::<u32>::empty(),
            s.free_superblocks() == Seq::<u32>::empty(),
    {
        let b: u32 = choose_block(a.len(), block_size);
        let pool: Vec<Vec<u32>> = fill_pool(a, b);
        proof {
            lemma_total_slots(pool@);
            lemma_total_count(pool@);
        }
        if pool.len() == 0 {
            let mut sbpool: Vec<SB> = Vec::new();
            sbpool.push(SB { descs: Vec::new(), szs: Vec::new(), total: 0 });
            let mut outer: Vec<u32> = Vec::new();
            outer.push(0);
            let s = SqrtBitset2 { pool, free_ids: Vec::new(), sbpool, sb_free: Vec::new(), outer, b };
            proof {
                assert(s.outer@ =~= seq![0u32]);
                s.lemma_blank();
                assert(a@ =~= Seq::empty());
                assert(s.superblocks() =~= seq![Seq::<Seq<u32>>::empty()]);
                s.lemma_blank_flat();
                lemma_sb_plain(0);
                assert(s.free_ids@ =~= Seq::empty());
                assert(s.sb_free@ =~= Seq::empty());
            }
            return s;
        }
        let sbpool: Vec<SB> = fill_superblocks(&pool);
        proof {
            lemma_superblock_count(pool@, sbpool@);
        }
        let outer: Vec<u32> = count_up(sbpool.len());
        let s = SqrtBitset2 { pool, free_ids: Vec::new(), sbpool, sb_free: Vec::new(), outer, b };
        proof {
            let bs = bases_of(s.pool@, s.sbpool@);
            assert(s.bases() =~= bs);
            assert forall|o: int| 0 <= o < s.outer@.len() implies {
                &&& sid_of(#[trigger] s.outer@[o]) == o
                &&& s.plain(o)
            } by {
                lemma_sb_plain(s.outer@[o]);
            }
            assert forall|o: int| 0 <= o < s.outer@.len() implies s.groups()[o] == bs[o] by {
                assert(sid_of(s.outer@[o]) == o);
                assert(turned(bs[o], false, false) =~= bs[o]);
            }
            assert(s.groups() =~= bs);
            assert forall|t: int| 0 <= t < bs.len() implies (#[trigger] bs[t]).len() <= W && bs[t].len() > 0 by {
                assert(sb_ok(s.pool@, s.sbpool@[t]));
            }
            assert forall|t: int, j: int| 0 <= t < bs.len() && 0 <= j < bs[t].len() implies (#[trigger] bs[t][j]).len()
                <= 2 * b by {
                assert(sb_ok(s.pool@, s.sbpool@[t]));
                assert(block_ok(s.pool@, s.sbpool@[t].descs@[j], s.sbpool@[t].szs@[j]));
            }
            assert(s.sound());
            assert(s.free_ids@ =~= Seq::empty());
            assert(s.sb_free@ =~= Seq::empty());
            assert forall|o: int| 0 <= o < s.outer@.len() implies #[trigger] s.plain(o) by {
                assert(sid_of(s.outer@[o]) == o);
            }
        }
        s
    }

    /// Appends the elements of the superblock at `o`.
    fn append_superblock(&self, o: usize, out: &mut Vec<u32>)
        requires
            o < self.outer@.len(),
            self.sid(o as int) < self.sbpool@.len(),
            forall|j: int|
                0 <= j < self.sbpool@[self.sid(o as int)].descs@.len() ==> 0 <= slot_of(
                    #[trigger] self.sbpool@[self.sid(o as int)].descs@[j],
                ) < self.pool@.len(),
        ensures
            final(out)@ == old(out)@ + self.contents()[o as int],
    {
        let od: u32 = self.outer[o];
        let ord: bool = is_order_turned(od);
        let cont: bool = is_contents_turned(od);
        let s: &SB = &self.sbpool[sb_slot(od)];
        let n: usize = s.descs.len();
        let ghost g = self.groups()[o as int];
        let mut k: usize = 0;
        assert(g.take(0) =~= Seq::empty());
        assert(out@ =~= old(out)@ + concat(g.take(0)));
        while k < n
            invariant
                k <= n == s.descs@.len(),
                g == turned(base(self.pool@, s.descs@), ord, cont),
                forall|j: int|
                    0 <= j < s.descs@.len() ==> 0 <= slot_of(#[trigger] s.descs@[j]) < self.pool@.len(),
                out@ == old(out)@ + concat(g.take(k as int)),
            decreases n - k,
        {
            let at: usize = slot_at(ord, n, k);
            let d: u32 = s.descs[at];
            proof {
                lemma_concat_around(g, k as int);
                lemma_reverse_twice(self.pool@[slot_of(d)]@);
            }
            if is_flagged(d) != cont {
                append_reversed(out, &self.pool[slot(d)]);
            } else {
                append_slice(out, &self.pool[slot(d)]);
            }
            k = k + 1;
            assert(out@ =~= old(out)@ + concat(g.take(k as int)));
        }
        assert(g.take(n as int) =~= g);
    }

    /// Writes the sequence to `out`.
    pub fn collect(&self, out: &mut Vec<u32>)
        requires
            self.wf(),
        ensures
            final(out)@ == self@,
    {
        out.clear();
        let ghost c = self.contents();
        let mut o: usize = 0;
        proof {
            self.lemma_view();
            assert(c.take(0) =~= Seq::empty());
            if self.blank() {
                self.lemma_blank();
            }
        }
        while o < self.outer.len()
            invariant
                self.wf(),
                self.blank() ==> self.sid(0) == 0,
                c == self.contents(),
                o <= self.outer@.len() == c.len(),
                out@ == concat(c.take(o as int)),
            decreases self.outer@.len() - o,
        {
            proof {
                lemma_concat_around(c, o as int);
                if !self.blank() {
                    let s = self.sid(o as int);
                    assert(sb_ok(self.pool@, self.sbpool@[s]));
                    assert forall|j: int| 0 <= j < self.sbpool@[s].descs@.len() implies 0 <= slot_of(
                        #[trigger] self.sbpool@[s].descs@[j],
                    ) < self.pool@.len() by {
                        assert(block_ok(self.pool@, self.sbpool@[s].descs@[j], self.sbpool@[s].szs@[j]));
                    }
                }
            }
            self.append_superblock(o, out);
            o = o + 1;
        }
        assert(c.take(o as int) =~= c);
    }

    /// No lazy flag is set, neither of a block nor of a superblock.
    pub closed spec fn unflagged(&self) -> bool {
        &&& forall|o: int| 0 <= o < self.outer@.len() ==> #[trigger] self.plain(o)
        &&& forall|s: int, j: int|
            0 <= s < self.sbpool@.len() && 0 <= j < self.sbpool@[s].descs@.len() ==> !flagged(
                #[trigger] self.sbpool@[s].descs@[j],
            )
    }

    /// The flags of the superblocks, for the order and for the contents of the blocks, in
    /// the order of the sequence.
    pub closed spec fn superblock_flags(&self) -> Seq<(bool, bool)> {
        Seq::new(
            self.outer@.len(),
            |o: int| (order_turned(self.outer@[o]), contents_turned(self.outer@[o])),
        )
    }

    /// A superblock is turned in order if and only if it is turned in contents.
    pub proof fn law_flags(&self)
        requires
            self.wf(),
        ensures
            forall|o: int|
                0 <= o < self.superblock_flags().len() ==> (#[trigger] self.superblock_flags()[o]).0
                    == self.superblock_flags()[o].1,
    {
        if self.blank() {
            lemma_sb_plain(0);
        }
    }

    /// The slots of the arena of blocks that are free for reuse.
    pub closed spec fn free_slots(&self) -> Seq<u32> {
        self.free_ids@
    }

    /// The numbers of superblocks that are free for reuse.
    pub closed spec fn free_superblocks(&self) -> Seq<u32> {
        self.sb_free@
    }

    /// The numbers of the superblocks, in the order of the sequence.
    pub closed spec fn numbers(&self) -> Seq<int> {
        Seq::new(self.outer@.len(), |o: int| self.sid(o))
    }

    /// The slots of the blocks of every superblock, by position and slot in it.
    pub closed spec fn block_slots(&self) -> Seq<Seq<int>> {
        Seq::new(
            self.outer@.len(),
            |o: int|
                Seq::new(
                    self.sbpool@[self.sid(o)].descs@.len(),
                    |j: int| block_at(self.sbpool@, self.sid(o), j),
                ),
        )
    }

    /// The number of superblocks that have been made, used and free ones.
    pub closed spec fn superblocks_made(&self) -> nat {
        self.sbpool@.len()
    }

    /// Slot `x` of the arena is that of a block.
    pub open spec fn names(&self, x: int) -> bool {
        exists|o: int, j: int|
            0 <= o < self.block_slots().len() && 0 <= j < self.block_slots()[o].len()
                && #[trigger] self.block_slots()[o][j] == x
    }

    /// The slots of the blocks of the first `k` superblocks: they are different, and
    /// hold the elements of these superblocks.
    proof fn lemma_first_slots(&self, k: int)
        requires
            self.sound(),
            0 <= k <= self.outer@.len(),
        ensures
            ({
                let names = concat(self.block_slots().take(k));
                &&& names.no_duplicates()
                &&& forall|i: int| 0 <= i < names.len() ==> 0 <= #[trigger] names[i] < self.pool@.len()
                &&& forall|i: int|
                    0 <= i < names.len() ==> exists|o: int, j: int|
                        0 <= o < k && 0 <= j < self.block_slots()[o].len() && #[trigger] self.block_slots()[o][j]
                            == #[trigger] names[i]
                &&& concat(picked(slots(self.pool@), names)).len() == offset(self.contents(), k)
            }),
        decreases k,
    {
        let bs = self.block_slots();
        let ss = slots(self.pool@);
        if k == 0 {
            assert(bs.take(0) =~= Seq::empty());
            assert(self.contents().take(0) =~= Seq::empty());
            assert(picked(ss, concat(bs.take(0))) =~= Seq::empty());
        } else {
            self.lemma_first_slots(k - 1);
            let before = concat(bs.take(k - 1));
            let here = bs[k - 1];
            let names = concat(bs.take(k));
            let s = self.sid(k - 1);
            let sb = self.sbpool@[s];
            assert(sid_of(self.outer@[k - 1]) == s);
            assert(sb_ok(self.pool@, sb));
            lemma_concat_around(bs, k - 1);
            assert(names == before + here);
            assert forall|j: int| 0 <= j < here.len() implies {
                &&& 0 <= #[trigger] here[j] < self.pool@.len()
                &&& here[j] == block_at(self.sbpool@, s, j)
            } by {
                assert(block_ok(self.pool@, sb.descs@[j], sb.szs@[j]));
            }
            assert forall|i: int, j: int| 0 <= i < before.len() && 0 <= j < here.len() implies before[i] != here[j] by {
                let (o2, j2) = choose|o2: int, j2: int|
                    0 <= o2 < k - 1 && 0 <= j2 < bs[o2].len() && #[trigger] bs[o2][j2] == before[i];
                assert(sid_of(self.outer@[o2]) != sid_of(self.outer@[k - 1]));
                assert(block_at(self.sbpool@, self.sid(o2), j2) != block_at(self.sbpool@, s, j));
            }
            assert forall|i: int, j: int| 0 <= i < here.len() && 0 <= j < here.len() && i != j implies here[i]
                != here[j] by {
                assert(block_at(self.sbpool@, s, i) != block_at(self.sbpool@, s, j));
            }
            assert forall|i: int| 0 <= i < names.len() implies exists|o: int, j: int|
                0 <= o < k && 0 <= j < bs[o].len() && #[trigger] bs[o][j] == #[trigger] names[i] by {
                if i < before.len() {
                    let (o2, j2) = choose|o2: int, j2: int|
                        0 <= o2 < k - 1 && 0 <= j2 < bs[o2].len() && #[trigger] bs[o2][j2] == before[i];
                    assert(bs[o2][j2] == names[i]);
                } else {
                    assert(bs[k - 1][i - before.len()] == names[i]);
                }
            }
            assert(picked(ss, names) =~= picked(ss, before) + picked(ss, here));
            lemma_concat_add(picked(ss, before), picked(ss, here));
            lemma_concat_lens(picked(ss, here), base(self.pool@, sb.descs@));
            self.lemma_total(k - 1);
            lemma_concat_around(self.contents(), k - 1);
        }
    }

    /// No two superblocks have the same number, and every number is in use or listed once
    /// as free; no two blocks have the same slot, and every slot is that of a block or
    /// listed once as free. The free slots are empty.
    pub proof fn law_slots(&self)
        requires
            self.wf(),
        ensures
            forall|i: int, j: int|
                0 <= i < self.numbers().len() && 0 <= j < self.numbers().len() && i != j
                    ==> #[trigger] self.numbers()[i] != #[trigger] self.numbers()[j],
            forall|i: int, j: int|
                0 <= i < self.numbers().len() && 0 <= j < self.free_superblocks().len()
                    ==> #[trigger] self.numbers()[i] != #[trigger] self.free_superblocks()[j],
            self.free_superblocks().no_duplicates(),
            forall|o1: int, j1: int, o2: int, j2: int|
                0 <= o1 < self.block_slots().len() && 0 <= j1 < self.block_slots()[o1].len() && 0 <= o2
                    < self.block_slots().len() && 0 <= j2 < self.block_slots()[o2].len() && (o1 != o2 || j1
                    != j2) ==> #[trigger] self.block_slots()[o1][j1] != #[trigger] self.block_slots()[o2][j2],
            forall|o: int, j: int, k: int|
                0 <= o < self.block_slots().len() && 0 <= j < self.block_slots()[o].len() && 0 <= k
                    < self.free_slots().len() ==> #[trigger] self.block_slots()[o][j]
                    != #[trigger] self.free_slots()[k],
            forall|o: int, j: int|
                0 <= o < self.block_slots().len() && 0 <= j < self.block_slots()[o].len() ==> 0
                    <= #[trigger] self.block_slots()[o][j] < self.arena_len(),
            self.free_slots().no_duplicates(),
            self.superblocks_made() == self.numbers().len() + self.free_superblocks().len(),
            forall|o: int|
                0 <= o < self.numbers().len() ==> 0 <= #[trigger] self.numbers()[o] < self.superblocks_made(),
            forall|k: int|
                0 <= k < self.free_superblocks().len() ==> (#[trigger] self.free_superblocks()[k])
                    < self.superblocks_made(),
            forall|x: int|
                0 <= x < self.arena_len() ==> #[trigger] self.names(x) || self.free_slots().contains(x as u32),
            forall|k: int| 0 <= k < self.free_slots().len() ==> (#[trigger] self.free_slots()[k]) < self.arena_len(),
            self.arena().len() == self.arena_len(),
            forall|k: int|
                0 <= k < self.free_slots().len() ==> self.arena()[(#[trigger] self.free_slots()[k]) as int].len() == 0,
    {
        if self.blank() {
            lemma_sb_plain(0);
        } else {
            assert forall|x: int| 0 <= x < self.arena_len() implies #[trigger] self.names(x)
                || self.free_slots().contains(x as u32) by {
                if !self.names(x) {
                    let bs = self.block_slots();
                    self.lemma_first_slots(self.outer@.len() as int);
                    assert(bs.take(self.outer@.len() as int) =~= bs);
                    assert(self.contents().take(self.outer@.len() as int) =~= self.contents());
                    let names = concat(bs);
                    assert forall|i: int| 0 <= i < names.len() implies 0 <= #[trigger] names[i] < self.pool@.len() && names[i]
                        != x by {}
                    lemma_picked(slots(self.pool@), names, x);
                    lemma_total_slots(self.pool@);
                    self.lemma_view();
                    assert(self.pool@[x]@.len() == 0);
                    let k = choose|k: int| 0 <= k < self.free_ids@.len() && #[trigger] self.free_ids@[k] == x;
                    assert(self.free_slots()[k] == x as u32);
                }
            }
            assert forall|o: int, j: int|
                0 <= o < self.block_slots().len() && 0 <= j < self.block_slots()[o].len() implies {
                &&& 0 <= #[trigger] self.block_slots()[o][j] < self.pool@.len()
                &&& self.pool@[self.block_slots()[o][j]]@.len() > 0
                &&& self.block_slots()[o][j] == block_at(self.sbpool@, self.sid(o), j)
            } by {
                let s = self.sid(o);
                assert(sb_ok(self.pool@, self.sbpool@[s]));
                assert(block_ok(self.pool@, self.sbpool@[s].descs@[j], self.sbpool@[s].szs@[j]));
            }
            assert forall|i: int, j: int|
                0 <= i < self.numbers().len() && 0 <= j < self.numbers().len() && i != j implies #[trigger] self.numbers()[i]
                != #[trigger] self.numbers()[j] by {
                assert(sid_of(self.outer@[i]) != sid_of(self.outer@[j]));
            }
            assert forall|i: int, j: int|
                0 <= i < self.numbers().len() && 0 <= j < self.free_superblocks().len() implies #[trigger] self.numbers()[i]
                != #[trigger] self.free_superblocks()[j] by {
                assert(self.bases()[sid_of(self.outer@[i])].len() > 0);
                assert(self.bases()[self.sb_free@[j] as int].len() == 0);
            }
            assert forall|o1: int, j1: int, o2: int, j2: int|
                0 <= o1 < self.block_slots().len() && 0 <= j1 < self.block_slots()[o1].len() && 0 <= o2
                    < self.block_slots().len() && 0 <= j2 < self.block_slots()[o2].len() && (o1 != o2 || j1 != j2) implies
                #[trigger] self.block_slots()[o1][j1] != #[trigger] self.block_slots()[o2][j2] by {
                if o1 != o2 {
                    assert(sid_of(self.outer@[o1]) != sid_of(self.outer@[o2]));
                }
                assert(block_at(self.sbpool@, self.sid(o1), j1) != block_at(self.sbpool@, self.sid(o2), j2));
            }
            assert forall|o: int, j: int, k: int|
                0 <= o < self.block_slots().len() && 0 <= j < self.block_slots()[o].len() && 0 <= k
                    < self.free_slots().len() implies #[trigger] self.block_slots()[o][j] != #[trigger] self.free_slots()[k] by {
                assert(self.pool@[self.free_ids@[k] as int]@.len() == 0);
            }
        }
    }

    /// The lazy flags of the blocks of every superblock, by position and slot in it.
    pub closed spec fn block_flags(&self) -> Seq<Seq<bool>> {
        Seq::new(
            self.outer@.len(),
            |o: int|
                Seq::new(
                    self.sbpool@[self.sid(o)].descs@.len(),
                    |j: int| flagged(self.sbpool@[self.sid(o)].descs@[j]),
                ),
        )
    }

    /// The sizes recorded for the blocks of every superblock, by position and slot in it.
    pub closed spec fn sizes(&self) -> Seq<Seq<u32>> {
        Seq::new(self.outer@.len(), |o: int| self.sbpool@[self.sid(o)].szs@)
    }

    /// The sums recorded for the superblocks, in the order of the sequence.
    pub closed spec fn totals(&self) -> Seq<u32> {
        Seq::new(self.outer@.len(), |o: int| self.sbpool@[self.sid(o)].total)
    }

    /// The blocks of the superblock at `o` by slot, before its own flags are carried out.
    pub open spec fn slot_blocks(&self, o: int) -> Seq<Seq<u32>> {
        Seq::new(
            self.block_slots()[o].len(),
            |j: int|
                {
                    let stored = self.arena()[self.block_slots()[o][j]];
                    if self.block_flags()[o][j] {
                        stored.reverse()
                    } else {
                        stored
                    }
                },
        )
    }

    /// The size recorded for a block is the length of what its slot holds, and lies
    /// between 1 and twice the block length; the sum recorded for a superblock is that of
    /// its sizes, and the sums together are the number of elements. The blocks of a
    /// superblock are what its slots hold, turned as its flags say.
    pub proof fn law_sizes(&self)
        requires
            self.wf(),
        ensures
            self.block_slots().len() == self.superblocks().len(),
            self.block_flags().len() == self.superblocks().len(),
            self.superblock_flags().len() == self.superblocks().len(),
            self.sizes().len() == self.superblocks().len(),
            self.totals().len() == self.superblocks().len(),
            forall|o: int|
                0 <= o < self.superblocks().len() ==> {
                    &&& (#[trigger] self.sizes()[o]).len() == self.block_slots()[o].len()
                    &&& self.block_flags()[o].len() == self.block_slots()[o].len()
                    &&& self.totals()[o] == size_sum(self.sizes()[o])
                },
            forall|o: int, j: int|
                0 <= o < self.superblocks().len() && 0 <= j < self.sizes()[o].len() ==> 0
                    < #[trigger] self.sizes()[o][j] <= 2 * self.block_size() && self.sizes()[o][j]
                    == self.arena()[self.block_slots()[o][j]].len(),
            size_sum(self.totals()) == self@.len(),
            forall|o: int|
                0 <= o < self.superblocks().len() ==> #[trigger] self.superblocks()[o] == turned(
                    self.slot_blocks(o),
                    self.superblock_flags()[o].0,
                    self.superblock_flags()[o].1,
                ),
    {
        if self.blank() {
            lemma_sb_plain(0);
            self.lemma_blank();
            self.lemma_blank_flat();
        }
        assert forall|o: int| 0 <= o < self.outer@.len() implies {
            &&& 0 <= #[trigger] self.sid(o) < self.sbpool@.len()
            &&& sb_ok(self.pool@, self.sbpool@[self.sid(o)])
            &&& self.slot_blocks(o) == self.bases()[self.sid(o)]
        } by {
            assert(0 <= sid_of(self.outer@[o]) < self.bases().len());
            let sb = self.sbpool@[self.sid(o)];
            assert(sb_ok(self.pool@, sb));
            assert forall|j: int| 0 <= j < sb.descs@.len() implies self.slot_blocks(o)[j] == self.bases()[self.sid(
                o,
            )][j] by {
                assert(block_ok(self.pool@, sb.descs@[j], sb.szs@[j]));
            }
            assert(self.slot_blocks(o) =~= self.bases()[self.sid(o)]);
        }
        assert forall|o: int, j: int| 0 <= o < self.superblocks().len() && 0 <= j < self.sizes()[o].len() implies 0
            < #[trigger] self.sizes()[o][j] <= 2 * self.block_size() && self.sizes()[o][j]
            == self.arena()[self.block_slots()[o][j]].len() by {
            let sb = self.sbpool@[self.sid(o)];
            assert(block_ok(self.pool@, sb.descs@[j], sb.szs@[j]));
            assert(self.bases()[self.sid(o)][j].len() <= 2 * self.b);
        }
        assert forall|o: int| 0 <= o < self.superblocks().len() implies {
            &&& (#[trigger] self.sizes()[o]).len() == self.block_slots()[o].len()
            &&& self.block_flags()[o].len() == self.block_slots()[o].len()
            &&& self.totals()[o] == size_sum(self.sizes()[o])
            &&& self.totals()[o] == self.contents()[o].len()
        } by {
            let sb = self.sbpool@[self.sid(o)];
            assert forall|j: int| 0 <= j < sb.szs@.len() implies #[trigger] sb.szs@[j] == base(
                self.pool@,
                sb.descs@,
            )[j].len() by {
                assert(block_ok(self.pool@, sb.descs@[j], sb.szs@[j]));
            }
            lemma_size_sum(sb.szs@, base(self.pool@, sb.descs@));
            if !self.blank() {
                self.lemma_total(o);
            }
        }
        assert forall|o: int| 0 <= o < self.totals().len() implies #[trigger] self.totals()[o]
            == self.contents()[o].len() by {
            assert(self.sizes()[o].len() == self.block_slots()[o].len());
        }
        lemma_size_sum(self.totals(), self.contents());
        self.lemma_view();
    }

    /// What the slots of the arena of blocks hold.
    pub closed spec fn arena(&self) -> Seq<Seq<u32>> {
        slots(self.pool@)
    }

    /// The number of slots that the arena of blocks has.
    pub closed spec fn arena_len(&self) -> nat {
        self.pool@.len()
    }

    /// No block is empty or holds more than twice the block length; no superblock holds
    /// more than twice `W` blocks or, in a sequence with elements, none; the slots of the
    /// arena never outnumber the elements; and the blocks in order are the sequence.
    pub proof fn law_blocks(&self)
        requires
            self.wf(),
        ensures
            forall|i: int|
                0 <= i < concat(self.superblocks()).len() ==> 0 < (#[trigger] concat(self.superblocks())[i]).len()
                    <= 2 * self.block_size(),
            forall|o: int|
                0 <= o < self.superblocks().len() ==> (#[trigger] self.superblocks()[o]).len() <= 2 * W && (
                self@.len() > 0 ==> self.superblocks()[o].len() > 0),
            self.arena_len() <= self@.len(),
            concat(concat(self.superblocks())) == self@,
    {
        if self.blank() {
            self.lemma_blank();
            self.lemma_blank_flat();
        } else {
            let gs = self.groups();
            assert forall|o: int, q: int| 0 <= o < gs.len() && 0 <= q < gs[o].len() implies 0 < (
            #[trigger] gs[o][q]).len() <= 2 * self.b by {
                self.lemma_nonempty(o);
                let s = self.sid(o);
                let j = if order_turned(self.outer@[o]) {
                    gs[o].len() - 1 - q
                } else {
                    q
                };
                assert(self.bases()[s][j].len() <= 2 * self.b);
            }
            lemma_all_pieces(gs, 2 * self.b as nat);
            assert forall|o: int| 0 <= o < gs.len() implies 0 < (#[trigger] gs[o]).len() <= 2 * W by {
                assert(self.bases()[self.sid(o)].len() <= 2 * W);
                assert(self.bases()[sid_of(self.outer@[o])].len() > 0);
            }
        }
    }
}

} // verus!
