//! A block list whose lazy flags are the top bits of `u32` block descriptors.
//! The blocks live in an arena with a free list; turning a run of whole blocks
//! round is a reversal of the descriptors and a flip of their top bits.
use vstd::prelude::*;

use crate::arena::{put_block, take_block};
use crate::blocks::{append_reversed, append_slice, choose_block, copy_range};
use crate::brute::{reverse_avx2, toggle_mask};
use crate::desc::{is_flagged, slot, unflagged, REV};

verus! {

use crate::arena::{four_rewritten, free_list_ok, lemma_four_rewritten, piece, rewritten, slots};
use crate::blocks::{
    after_reversal,
    chunked,
    cut_block,
    found,
    is_block_size,
    joined,
    merge_at,
    merged,
    most_blocks,
    position,
    rebalanced,
    reversible,
};
use crate::blocks::{
    lemma_found,
    lemma_found_order,
    lemma_found_position,
    lemma_rebalanced,
    lemma_reversal,
    lemma_traded,
};
use crate::desc::{flagged, lemma_plain, lemma_toggled, slot_of};
use crate::seqs::{
    concat,
    lemma_concat_around,
    lemma_concat_count,
    lemma_concat_join_pieces,
    lemma_concat_split_piece,
    lemma_reverse_twice,
    lemma_reversed_inside,
    lemma_spliced,
    offset,
    reversed,
    spliced,
};
use crate::superblock::{lemma_size_sum, size_sum};

/// A sequence of `u32` under range reversal, as a list of block descriptors.
pub struct SqrtBitset {
    /// The blocks; a descriptor names one by its index.
    pool: Vec<Vec<u32>>,
    /// The slots of `pool` that hold no block.
    free_ids: Vec<u32>,
    /// The descriptors, in the order of the sequence.
    desc: Vec<u32>,
    /// The lengths of the described blocks.
    szs: Vec<u32>,
    b: u32,
}

/// Where index `k` goes when the indices strictly between `bi` and `bj` trade
/// places end for end.
spec fn between(k: int, bi: int, bj: int) -> int {
    if bi < k < bj {
        bi + bj - k
    } else {
        k
    }
}

/// The largest number of slots: slot numbers have thirty-one bits.
pub const MAX_SLOTS: usize = 0x8000_0000;

impl SqrtBitset {
    spec fn pieces(self) -> Seq<Seq<u32>> {
        Seq::new(self.desc@.len(), |i: int| piece(self.pool@, self.desc@[i]))
    }

    /// The sequence that the structure holds.
    pub closed spec fn view(&self) -> Seq<u32> {
        concat(self.pieces())
    }

    /// The length that blocks are built with.
    pub closed spec fn block_size(&self) -> int {
        self.b as int
    }

    /// The blocks, in the order of the sequence.
    pub closed spec fn blocks(&self) -> Seq<Seq<u32>> {
        self.pieces()
    }

    /// The descriptors of the blocks, in the order of the sequence.
    pub closed spec fn descriptors(&self) -> Seq<u32> {
        self.desc@
    }

    /// The sizes recorded for the blocks, in the order of the sequence.
    pub closed spec fn sizes(&self) -> Seq<u32> {
        self.szs@
    }

    /// The slots that are free for reuse; the last one is taken first.
    pub closed spec fn free_slots(&self) -> Seq<u32> {
        self.free_ids@
    }

    /// The elements in the slots of the arena, as they are stored.
    pub closed spec fn arena(&self) -> Seq<Seq<u32>> {
        slots(self.pool@)
    }

    /// The number of slots that the arena has.
    pub closed spec fn arena_len(&self) -> nat {
        self.pool@.len()
    }

    /// The descriptors name different non-empty blocks of the recorded lengths, and
    /// the other slots of the arena are empty and listed as free.
    spec fn linked(self) -> bool {
        &&& self.b > 0
        &&& self.desc@.len() == self.szs@.len()
        &&& forall|i: int|
            0 <= i < self.desc@.len() ==> {
                &&& slot_of(#[trigger] self.desc@[i]) < self.pool@.len()
                &&& self.szs@[i] == self.pool@[slot_of(self.desc@[i])]@.len()
                &&& self.szs@[i] > 0
            }
        &&& forall|i: int, j: int|
            0 <= i < j < self.desc@.len() ==> slot_of(#[trigger] self.desc@[i]) != slot_of(
                #[trigger] self.desc@[j],
            )
        &&& free_list_ok(self.pool@, self.free_ids@)
        &&& self.pool@.len() == self.desc@.len() + self.free_ids@.len()
    }

    /// The blocks are linked up, there are no more slots than elements, and the
    /// slot numbers leave the flag bit alone.
    spec fn sound(self) -> bool {
        &&& self.linked()
        &&& self.pool@.len() <= concat(self.pieces()).len()
        &&& self.pool@.len() <= MAX_SLOTS
        &&& concat(self.pieces()).len() <= u32::MAX
    }

    /// There is room for one more block, or so few elements that there always is.
    spec fn room(self) -> bool {
        concat(self.pieces()).len() <= MAX_SLOTS || self.desc@.len() < MAX_SLOTS
    }

    /// Every block holds at most twice the block length, but blocks `x` and `y`
    /// may hold twice that.
    spec fn sized(self, x: int, y: int) -> bool {
        forall|i: int|
            0 <= i < self.desc@.len() ==> (#[trigger] self.szs@[i]) <= if i == x || i == y {
                4 * self.b
            } else {
                2 * self.b
            }
    }

    /// The structure is well formed.
    pub closed spec fn wf(self) -> bool {
        self.sound() && self.sized(-1, -1)
    }

    proof fn lemma_lens(self)
        requires
            self.sound(),
        ensures
            forall|i: int| 0 <= i < self.desc@.len() ==> #[trigger] self.pieces()[i].len() == self.szs@[i],
            forall|i: int| 0 <= i < self.desc@.len() ==> #[trigger] self.pieces()[i].len() > 0,
            self.desc@.len() <= self@.len(),
    {
        assert forall|i: int| 0 <= i < self.desc@.len() implies #[trigger] self.pieces()[i].len()
            == self.szs@[i] && self.pieces()[i].len() > 0 by {
            assert(slot_of(self.desc@[i]) < self.pool@.len());
        }
        lemma_concat_count(self.pieces());
    }

    /// The block list for the elements of `a`.
    pub fn new(a: &[u32], _seed: u64, block_size: u32) -> (s: SqrtBitset)
        requires
            a@.len() <= u32::MAX,
            block_size == 1 ==> a@.len() <= MAX_SLOTS,
        ensures
            s.wf(),
            s@ == a@,
            is_block_size(a@.len() as int, block_size as int, s.block_size()),
            chunked(s.blocks(), s.block_size()),
            s.descriptors() == Seq::new(s.blocks().len(), |i: int| i as u32),
            s.free_slots() == Seq::<u32>::empty(),
            s.arena_len() == s.blocks().len(),
    {
        let b: u32 = choose_block(a.len(), block_size);
        let mut pool: Vec<Vec<u32>> = Vec::new();
        let mut desc: Vec<u32> = Vec::new();
        let mut szs: Vec<u32> = Vec::new();
        let mut i: usize = 0;
        let ghost mut pieces: Seq<Seq<u32>> = Seq::empty();
        while i < a.len()
            invariant
                i <= a@.len() <= u32::MAX,
                b > 0,
                b == 1 ==> a@.len() <= MAX_SLOTS,
                b > 1 ==> 2 * pieces.len() <= i + 1,
                b > 1 && i < a@.len() ==> 2 * pieces.len() <= i,
                pool@.len() == pieces.len(),
                desc@.len() == pieces.len(),
                szs@.len() == pieces.len(),
                pieces.len() <= i,
                forall|k: int|
                    0 <= k < pieces.len() ==> {
                        &&& 0 < (#[trigger] pieces[k]).len() <= b
                        &&& pieces[k] == pool@[k]@
                        &&& desc@[k] == k
                        &&& szs@[k] == pieces[k].len()
                        &&& pieces[k].len() == b || (i == a@.len() && k + 1 == pieces.len())
                    },
                concat(pieces) == a@.take(i as int),
            decreases a@.len() - i,
        {
            let e: usize = if a.len() - i <= b as usize {
                a.len()
            } else {
                i + b as usize
            };
            let block: Vec<u32> = copy_range(a, i, e);
            let ghost ps = pieces;
            let ghost (pool0, desc0, szs0) = (pool@, desc@, szs@);
            proof {
                assert(pieces.push(block@).drop_last() =~= pieces);
                pieces = pieces.push(block@);
                assert(a@.take(e as int) =~= a@.take(i as int) + block@);
            }
            pool.push(block);
            desc.push((pool.len() - 1) as u32);
            szs.push((e - i) as u32);
            proof {
                assert forall|k: int| 0 <= k < pieces.len() implies {
                    &&& 0 < (#[trigger] pieces[k]).len() <= b
                    &&& pieces[k] == pool@[k]@
                    &&& desc@[k] == k
                    &&& szs@[k] == pieces[k].len()
                    &&& pieces[k].len() == b || (e == a@.len() && k + 1 == pieces.len())
                } by {
                    if k < ps.len() {
                        assert(pieces[k] == ps[k]);
                        assert(pool@[k] == pool0[k] && desc@[k] == desc0[k] && szs@[k] == szs0[k]);
                        assert(ps[k].len() == b);
                    }
                }
            }
            i = e;
        }
        let s = SqrtBitset { pool, free_ids: Vec::new(), desc, szs, b };
        proof {
            assert forall|k: int| 0 <= k < pieces.len() implies {
                &&& slot_of(#[trigger] s.desc@[k]) == k
                &&& !flagged(s.desc@[k])
                &&& s.szs@[k] == pieces[k].len()
                &&& 0 < pieces[k].len() <= b
                &&& pieces[k] == s.pool@[k]@
            } by {
                assert(pieces[k].len() <= b);
                lemma_plain(s.desc@[k]);
            }
            assert forall|k: int| 0 <= k < pieces.len() implies (#[trigger] s.szs@[k]) <= b by {
                assert(slot_of(s.desc@[k]) == k);
            }
            assert(s.pieces() =~= pieces);
            assert(a@.take(a@.len() as int) =~= a@);
            lemma_concat_count(pieces);
        }
        s
    }

    /// The block list for the numbers from 1 to `n`, in order.
    pub fn identity(n: u32) -> (s: SqrtBitset)
        ensures
            s.wf(),
            s@ == Seq::new(n as nat, |i: int| (i + 1) as u32),
            is_block_size(n as int, 0, s.block_size()),
            chunked(s.blocks(), s.block_size()),
            s.descriptors() == Seq::new(s.blocks().len(), |i: int| i as u32),
            s.free_slots() == Seq::<u32>::empty(),
            s.arena_len() == s.blocks().len(),
    {
        let mut a: Vec<u32> = Vec::new();
        let mut i: u32 = 0;
        while i < n
            invariant
                i <= n,
                a@ == Seq::new(i as nat, |k: int| (k + 1) as u32),
            decreases n - i,
        {
            a.push(i + 1);
            i = i + 1;
            assert(a@ =~= Seq::new(i as nat, |k: int| (k + 1) as u32));
        }
        SqrtBitset::new(&a, 0, 0)
    }

    /// Block and position in it of element `k`; `(0, 0)` past the end.
    fn find(&self, k: u32) -> (at: (u32, u32))
        requires
            self.sound(),
        ensures
            k < self@.len() ==> {
                &&& at.0 < self.desc@.len()
                &&& at.1 < self.pieces()[at.0 as int].len()
                &&& offset(self.pieces(), at.0 as int) + at.1 == k
            },
            k >= self@.len() ==> at == (0u32, 0u32),
            (at.0 as int, at.1 as int) == found(self.pieces(), k as int),
    {
        let ghost ps = self.pieces();
        let mut rest: u32 = k;
        let mut i: usize = 0;
        proof {
            assert(ps.take(0) =~= Seq::empty());
            self.lemma_lens();
        }
        while i < self.szs.len()
            invariant
                self.sound(),
                ps == self.pieces(),
                i <= ps.len(),
                ps.len() <= u32::MAX,
                offset(ps, i as int) + rest == k,
                forall|j: int| 0 <= j < ps.len() ==> #[trigger] ps[j].len() == self.szs@[j],
            decreases ps.len() - i,
        {
            proof {
                lemma_concat_around(ps, i as int);
            }
            let s: u32 = self.szs[i];
            if rest < s {
                proof {
                    lemma_found(ps, i as int, rest as int, k as int);
                }
                return (i as u32, rest);
            }
            rest = rest - s;
            i = i + 1;
        }
        assert(ps.take(ps.len() as int) =~= ps);
        (0, 0)
    }

    /// Whether block `pos` is flagged.
    fn bit_test(&self, pos: u32) -> (f: bool)
        requires
            pos < self.desc@.len(),
        ensures
            f == flagged(self.desc@[pos as int]),
    {
        is_flagged(self.desc[pos as usize])
    }

    /// Turns the flags of blocks `l..r` over.
    fn toggle_range(&mut self, l: u32, r: u32)
        requires
            l <= r <= old(self).desc@.len(),
        ensures
            final(self).pool == old(self).pool,
            final(self).free_ids == old(self).free_ids,
            final(self).szs == old(self).szs,
            final(self).b == old(self).b,
            final(self).desc@.len() == old(self).desc@.len(),
            forall|i: int|
                0 <= i < old(self).desc@.len() ==> {
                    &&& slot_of(#[trigger] final(self).desc@[i]) == slot_of(old(self).desc@[i])
                    &&& flagged(final(self).desc@[i]) == (flagged(old(self).desc@[i]) != (l <= i
                        < r))
                },
    {
        toggle_mask(&mut self.desc, l, r, REV);
        proof {
            assert forall|i: int| 0 <= i < old(self).desc@.len() implies {
                &&& slot_of(#[trigger] self.desc@[i]) == slot_of(old(self).desc@[i])
                &&& flagged(self.desc@[i]) == (flagged(old(self).desc@[i]) != (l <= i < r))
            } by {
                lemma_toggled(old(self).desc@[i]);
            }
        }
    }

    /// Puts block `pos` into plain order.
    fn materialize(&mut self, pos: u32)
        requires
            old(self).sound(),
            pos < old(self).desc@.len(),
        ensures
            final(self).sound(),
            final(self).pieces() == old(self).pieces(),
            final(self).b == old(self).b,
            final(self).free_ids == old(self).free_ids,
            final(self).szs == old(self).szs,
            final(self).pool@.len() == old(self).pool@.len(),
            final(self).desc@.len() == old(self).desc@.len(),
            !flagged(final(self).desc@[pos as int]),
            forall|k: int|
                0 <= k < old(self).desc@.len() ==> {
                    &&& slot_of(#[trigger] final(self).desc@[k]) == slot_of(old(self).desc@[k])
                    &&& k != pos ==> final(self).desc@[k] == old(self).desc@[k]
                },
            forall|s: int|
                0 <= s < old(self).pool@.len() && s != slot_of(old(self).desc@[pos as int])
                    ==> #[trigger] final(self).pool@[s] == old(self).pool@[s],
    {
        let d: u32 = self.desc[pos as usize];
        if self.bit_test(pos) {
            let id: usize = slot(d);
            let len: usize = self.pool[id].len();
            let ghost v = self.pool@[id as int]@;
            reverse_avx2(&mut self.pool[id], 0, len);
            self.desc[pos as usize] = unflagged(d);
            proof {
                assert(reversed(v, 0, v.len() as int) =~= v.reverse());
                assert forall|k: int| 0 <= k < old(self).desc@.len() implies self.pieces()[k] == old(
                    self,
                ).pieces()[k] by {
                    if k < pos {
                        assert(slot_of(old(self).desc@[k]) != slot_of(old(self).desc@[pos as int]));
                    } else if k > pos {
                        assert(slot_of(old(self).desc@[pos as int]) != slot_of(old(self).desc@[k]));
                    }
                }
            }
        }
        assert(self.pieces() =~= old(self).pieces());
    }

    /// Cuts block `pos` in the middle if it holds more than twice the block length.
    #[verifier::rlimit(40)]
    fn split_block(&mut self, pos: u32, Ghost(e): Ghost<int>)
        requires
            old(self).sound(),
            old(self).sized(pos as int, e),
            e < pos < old(self).desc@.len(),
            old(self).szs@[pos as int] > 2 * old(self).b ==> !flagged(old(self).desc@[pos as int])
                && old(self).room(),
        ensures
            final(self).sound(),
            final(self)@ == old(self)@,
            final(self).b == old(self).b,
            final(self).sized(e, e),
            old(self).szs@[pos as int] <= 2 * old(self).b ==> *final(self) == *old(self),
            old(self).szs@[pos as int] > 2 * old(self).b ==> {
                let n = final(self).desc@[pos + 1];
                &&& final(self).desc@ == old(self).desc@.insert(pos + 1, n)
                &&& !flagged(n)
                &&& rewritten(old(self).pool@, final(self).pool@, slot_of(old(self).desc@[pos as int]), n as int)
                &&& old(self).free_ids@.len() > 0 ==> {
                    &&& n == old(self).free_ids@.last()
                    &&& final(self).free_ids@ == old(self).free_ids@.drop_last()
                    &&& final(self).pool@.len() == old(self).pool@.len()
                }
                &&& old(self).free_ids@.len() == 0 ==> {
                    &&& n == old(self).pool@.len()
                    &&& final(self).free_ids@.len() == 0
                    &&& final(self).pool@.len() == old(self).pool@.len() + 1
                }
            },
            final(self).pieces() == if old(self).pieces()[pos as int].len() > 2 * old(self).b {
                cut_block(old(self).pieces(), pos as int, old(self).pieces()[pos as int].len() as int / 2)
            } else {
                old(self).pieces()
            },
    {
        proof {
            self.lemma_lens();
        }
        let s: u32 = self.szs[pos as usize];
        if s as u64 <= 2 * (self.b as u64) {
            return;
        }
        let half: u32 = s / 2;
        assert(pos < self.desc.len());
        let next: usize = pos as usize + 1;
        let id: usize = slot(self.desc[pos as usize]);
        let ghost pi = pos as int;
        let ghost before = self.pieces();
        let ghost s0 = *self;
        let nb: Vec<u32> = self.pool[id].split_off(half as usize);
        let ghost tail = nb@;
        self.szs[pos as usize] = half;
        proof {
            let ps = before.update(pi, before[pi].take(half as int)).insert(
                pi + 1,
                before[pi].skip(half as int),
            );
            lemma_concat_split_piece(before, pi, half as int);
            assert forall|i: int| 0 <= i < ps.len() implies #[trigger] ps[i].len() > 0 by {
                if i > pi + 1 {
                    assert(before[i - 1].len() > 0);
                } else if i < pi {
                    assert(before[i].len() > 0);
                }
            }
            lemma_concat_count(ps);
            assert(free_list_ok(self.pool@, self.free_ids@));
        }
        let nid: u32 = put_block(&mut self.pool, &mut self.free_ids, nb);
        self.desc.insert(next, nid);
        self.szs.insert(next, s - half);
        proof {
            let ps = before.update(pi, before[pi].take(half as int)).insert(
                pi + 1,
                before[pi].skip(half as int),
            );
            lemma_plain(nid);
            assert(forall|i: int| 0 <= i < s0.desc@.len() ==> slot_of(#[trigger] s0.desc@[i]) != nid);
            assert forall|i: int| 0 <= i < s0.desc@.len() && i != pi implies self.pool@[slot_of(
                #[trigger] s0.desc@[i],
            )] == s0.pool@[slot_of(s0.desc@[i])] by {
                if i < pi {
                    assert(slot_of(s0.desc@[i]) != slot_of(s0.desc@[pi]));
                } else {
                    assert(slot_of(s0.desc@[pi]) != slot_of(s0.desc@[i]));
                }
            }
            assert forall|i: int| 0 <= i < self.desc@.len() implies self.desc@[i] == if i <= pi {
                s0.desc@[i]
            } else if i == pi + 1 {
                nid
            } else {
                s0.desc@[i - 1]
            } by {}
            assert(self.pool@[id as int]@ == s0.pool@[id as int]@.subrange(0, half as int));
            assert(self.pool@[nid as int]@ == tail);
            assert(self.pieces() =~= ps) by {
                assert(before[pi].take(half as int) =~= self.pieces()[pi]);
                assert(before[pi].skip(half as int) =~= self.pieces()[pi + 1]);
            }
            assert forall|i: int| 0 <= i < self.desc@.len() implies {
                &&& slot_of(#[trigger] self.desc@[i]) < self.pool@.len()
                &&& self.szs@[i] == self.pool@[slot_of(self.desc@[i])]@.len()
                &&& self.szs@[i] > 0
            } by {
                if i != pi + 1 {
                    let i0 = if i <= pi {
                        i
                    } else {
                        i - 1
                    };
                    assert(self.desc@[i] == s0.desc@[i0]);
                    assert(slot_of(s0.desc@[i0]) < s0.pool@.len());
                }
            }
            assert forall|i: int, j: int| 0 <= i < j < self.desc@.len() implies slot_of(
                #[trigger] self.desc@[i],
            ) != slot_of(#[trigger] self.desc@[j]) by {
                let i0 = if i <= pi {
                    i
                } else {
                    i - 1
                };
                let j0 = if j <= pi {
                    j
                } else {
                    j - 1
                };
                if i0 < j0 {
                    assert(slot_of(s0.desc@[i0]) != slot_of(s0.desc@[j0]));
                }
            }
            assert(self.pool@.len() == self.desc@.len() + self.free_ids@.len());
            assert(self.linked());
            assert(self.sound());
            assert(self.sized(e, e));
        }
    }

    /// Joins blocks `i` and `i + 1`, which together are short enough.
    #[verifier::rlimit(40)]
    fn join(&mut self, i: u32, Ghost(pos): Ghost<int>, Ghost(e): Ghost<int>)
        requires
            old(self).sound(),
            old(self).sized(pos, e),
            i + 1 < old(self).desc@.len(),
            e < pos,
            pos == i || pos == i + 1,
            old(self).szs@[i as int] + old(self).szs@[i + 1] <= 2 * old(self).b,
        ensures
            final(self).sound(),
            final(self)@ == old(self)@,
            final(self).b == old(self).b,
            final(self).sized(e, e),
            final(self).pieces() == joined(old(self).pieces(), i as int),
            !flagged(final(self).desc@[i as int]),
            final(self).free_ids@ == old(self).free_ids@.push(slot_of(old(self).desc@[i + 1]) as u32),
            final(self).pool@.len() == old(self).pool@.len(),
            rewritten(
                old(self).pool@,
                final(self).pool@,
                slot_of(old(self).desc@[i as int]),
                slot_of(old(self).desc@[i + 1]),
            ),
            slot_of(final(self).desc@[i as int]) == slot_of(old(self).desc@[i as int]),
            forall|k: int| 0 <= k < i ==> #[trigger] final(self).desc@[k] == old(self).desc@[k],
            forall|k: int|
                i < k < final(self).desc@.len() ==> #[trigger] final(self).desc@[k] == old(self).desc@[k + 1],
    {
        let ghost ii = i as int;
        proof {
            self.lemma_lens();
        }
        self.materialize(i);
        self.materialize(i + 1);
        let ghost before = self.pieces();
        let ghost s0 = *self;
        let p: usize = i as usize;
        proof {
            self.lemma_lens();
            lemma_concat_around(before, ii);
            lemma_concat_around(before, ii + 1);
            assert(slot_of(self.desc@[ii]) != slot_of(self.desc@[ii + 1]));
        }
        let idr: u32 = unflagged(self.desc[p + 1]);
        let lid: usize = slot(self.desc[p]);
        let mut rhs: Vec<u32> = take_block(&mut self.pool, &mut self.free_ids, idr);
        self.pool[lid].append(&mut rhs);
        let sz: u32 = self.szs[p] + self.szs[p + 1];
        self.szs[p] = sz;
        self.desc.remove(p + 1);
        self.szs.remove(p + 1);
        proof {
            let ps = joined(before, ii);
            lemma_concat_join_pieces(before, ii);
            assert forall|k: int| 0 <= k < s0.desc@.len() && k != ii && k != ii + 1 implies {
                &&& slot_of(#[trigger] s0.desc@[k]) != lid
                &&& slot_of(s0.desc@[k]) != idr
            } by {
                if k < ii {
                    assert(slot_of(s0.desc@[k]) != slot_of(s0.desc@[ii]));
                    assert(slot_of(s0.desc@[k]) != slot_of(s0.desc@[ii + 1]));
                } else {
                    assert(slot_of(s0.desc@[ii]) != slot_of(s0.desc@[k]));
                    assert(slot_of(s0.desc@[ii + 1]) != slot_of(s0.desc@[k]));
                }
            }
            assert forall|k: int| 0 <= k < self.desc@.len() implies self.desc@[k] == if k <= ii {
                s0.desc@[k]
            } else {
                s0.desc@[k + 1]
            } by {}
            assert(self.pool@[lid as int]@ == s0.pool@[lid as int]@ + s0.pool@[idr as int]@);
            assert(self.pieces() =~= ps);
            assert forall|k: int| 0 <= k < self.desc@.len() implies {
                &&& slot_of(#[trigger] self.desc@[k]) < self.pool@.len()
                &&& self.szs@[k] == self.pool@[slot_of(self.desc@[k])]@.len()
                &&& self.szs@[k] > 0
            } by {
                let k0 = if k <= ii {
                    k
                } else {
                    k + 1
                };
                assert(self.desc@[k] == s0.desc@[k0]);
                assert(slot_of(s0.desc@[k0]) < s0.pool@.len());
                if k != ii {
                    assert(self.szs@[k] == s0.szs@[k0]);
                    assert(self.pool@[slot_of(s0.desc@[k0])] == s0.pool@[slot_of(s0.desc@[k0])]);
                }
            }
            assert forall|k: int, j: int| 0 <= k < j < self.desc@.len() implies slot_of(
                #[trigger] self.desc@[k],
            ) != slot_of(#[trigger] self.desc@[j]) by {
                let k0 = if k <= ii {
                    k
                } else {
                    k + 1
                };
                let j0 = if j <= ii {
                    j
                } else {
                    j + 1
                };
                assert(slot_of(s0.desc@[k0]) != slot_of(s0.desc@[j0]));
            }
            assert(free_list_ok(self.pool@, self.free_ids@));
            assert(self.pool@.len() == self.desc@.len() + self.free_ids@.len());
            assert(self.linked());
            assert(self.sound());
            assert(self.sized(e, e));
        }
    }

    /// Joins block `pos` with a neighbour if it holds less than half the block
    /// length and the two together hold at most twice that length.
    fn merge_small(&mut self, pos: u32, Ghost(e): Ghost<int>)
        requires
            old(self).sound(),
            old(self).sized(pos as int, e),
            e < pos < old(self).desc@.len(),
            old(self).szs@[pos as int] <= 2 * old(self).b,
        ensures
            final(self).sound(),
            final(self)@ == old(self)@,
            final(self).b == old(self).b,
            final(self).sized(e, e),
            final(self).pieces() == merged(
                old(self).pieces(),
                pos as int,
                old(self).b as int / 2,
                2 * old(self).b,
            ),
            ({
                let j = merge_at(old(self).pieces(), pos as int, old(self).b as int / 2, 2 * old(self).b);
                &&& j < 0 ==> *final(self) == *old(self)
                &&& j >= 0 ==> {
                    &&& !flagged(final(self).desc@[j])
                    &&& final(self).free_ids@ == old(self).free_ids@.push(slot_of(old(self).desc@[j + 1]) as u32)
                    &&& final(self).pool@.len() == old(self).pool@.len()
                    &&& rewritten(
                        old(self).pool@,
                        final(self).pool@,
                        slot_of(old(self).desc@[j]),
                        slot_of(old(self).desc@[j + 1]),
                    )
                    &&& slot_of(final(self).desc@[j]) == slot_of(old(self).desc@[j])
                    &&& forall|k: int| 0 <= k < j ==> #[trigger] final(self).desc@[k] == old(self).desc@[k]
                    &&& forall|k: int|
                        j < k < final(self).desc@.len() ==> #[trigger] final(self).desc@[k] == old(
                            self,
                        ).desc@[k + 1]
                }
            }),
    {
        proof {
            self.lemma_lens();
        }
        let s: u32 = self.szs[pos as usize];
        if s >= self.b / 2 {
            return;
        }
        let p: usize = pos as usize;
        if p > 0 && self.szs[p - 1] as u64 + s as u64 <= 2 * (self.b as u64) {
            self.join(pos - 1, Ghost(pos as int), Ghost(e));
            return;
        }
        if self.desc.len() - p > 1 && s as u64 + self.szs[p + 1] as u64 <= 2 * (self.b as u64) {
            self.join(pos, Ghost(pos as int), Ghost(e));
        }
    }

    /// Brings block `pos` back within the length limits.
    fn rebalance(&mut self, pos: u32, Ghost(e): Ghost<int>)
        requires
            old(self).sound(),
            old(self).sized(pos as int, e),
            e < pos < old(self).desc@.len(),
            old(self).szs@[pos as int] > 2 * old(self).b ==> !flagged(old(self).desc@[pos as int])
                && old(self).room(),
        ensures
            final(self).sound(),
            final(self)@ == old(self)@,
            final(self).b == old(self).b,
            final(self).sized(e, e),
            final(self).pool@.len() == vstd::math::max(
                old(self).pool@.len() as int,
                final(self).desc@.len() as int,
            ),
            exists|x: int| #[trigger]
                rewritten(old(self).pool@, final(self).pool@, slot_of(old(self).desc@[pos as int]), x),
            0 <= e ==> slot_of(final(self).desc@[e]) == slot_of(old(self).desc@[e]),
            0 <= e && !flagged(old(self).desc@[e]) ==> !flagged(final(self).desc@[e]),
            final(self).pieces() == rebalanced(old(self).pieces(), pos as int, old(self).b as int),
    {
        proof {
            self.lemma_lens();
        }
        if self.szs[pos as usize] as u64 > 2 * (self.b as u64) {
            self.split_block(pos, Ghost(e));
            assert(rewritten(
                old(self).pool@,
                self.pool@,
                slot_of(old(self).desc@[pos as int]),
                self.desc@[pos + 1] as int,
            ));
        } else {
            self.merge_small(pos, Ghost(e));
            proof {
                let j = merge_at(old(self).pieces(), pos as int, old(self).b as int / 2, 2 * old(self).b);
                let other = if j == pos {
                    slot_of(old(self).desc@[j + 1])
                } else if j >= 0 {
                    slot_of(old(self).desc@[j])
                } else {
                    0
                };
                assert(rewritten(old(self).pool@, self.pool@, slot_of(old(self).desc@[pos as int]), other));
            }
        }
    }

    /// Reverses elements `oi` to `oj`, both included, of block `pos`.
    fn reverse_in_block(&mut self, pos: u32, oi: u32, oj: u32)
        requires
            old(self).wf(),
            pos < old(self).desc@.len(),
            oi <= oj + 1 <= old(self).pieces()[pos as int].len(),
        ensures
            final(self).wf(),
            final(self)@ == reversed(
                old(self)@,
                offset(old(self).pieces(), pos as int) + oi,
                offset(old(self).pieces(), pos as int) + oj + 1,
            ),
            final(self).b == old(self).b,
            final(self).pieces() == old(self).pieces().update(
                pos as int,
                reversed(old(self).pieces()[pos as int], oi as int, oj + 1),
            ),
            final(self).pool@.len() == old(self).pool@.len(),
            rewritten(
                old(self).pool@,
                final(self).pool@,
                slot_of(old(self).desc@[pos as int]),
                slot_of(old(self).desc@[pos as int]),
            ),
    {
        let ghost before = self.pieces();
        self.materialize(pos);
        let ghost s1 = *self;
        let id: usize = slot(self.desc[pos as usize]);
        assert(s1.pieces()[pos as int] == before[pos as int]);
        reverse_avx2(&mut self.pool[id], oi as usize, oj as usize + 1);
        proof {
            let ps = before.update(pos as int, reversed(before[pos as int], oi as int, oj + 1));
            assert forall|k: int| 0 <= k < ps.len() implies self.pieces()[k] == ps[k] by {
                assert(s1.pieces()[k] == before[k]);
                if k < pos {
                    assert(slot_of(s1.desc@[k]) != slot_of(s1.desc@[pos as int]));
                } else if k > pos {
                    assert(slot_of(s1.desc@[pos as int]) != slot_of(s1.desc@[k]));
                }
            }
            assert(self.pieces() =~= ps);
            lemma_reversed_inside(before, pos as int, oi as int, oj + 1);
            assert(self.pool@[id as int]@.len() == s1.pool@[id as int]@.len());
            assert forall|i: int| 0 <= i < self.desc@.len() implies {
                &&& slot_of(#[trigger] self.desc@[i]) < self.pool@.len()
                &&& self.szs@[i] == self.pool@[slot_of(self.desc@[i])]@.len()
                &&& self.szs@[i] > 0
            } by {
                assert(slot_of(s1.desc@[i]) < s1.pool@.len());
            }
            assert(free_list_ok(self.pool@, self.free_ids@)) by {
                assert forall|k: int| 0 <= k < self.free_ids@.len() implies {
                    &&& (#[trigger] self.free_ids@[k]) < self.pool@.len()
                    &&& self.pool@[self.free_ids@[k] as int]@.len() == 0
                } by {
                    assert(s1.pool@[s1.free_ids@[k] as int]@.len() == 0);
                }
            }
            assert(self.linked());
            assert(self.sound());
            assert(self.sized(-1, -1)) by {
                assert forall|i: int| 0 <= i < self.desc@.len() implies (#[trigger] self.szs@[i]) <= 2 * self.b by {
                    assert(old(self).szs@[i] <= 2 * self.b);
                }
            }
        }
    }

    /// Rewrites the end blocks of a reversal that runs from position `oi` of block
    /// `bi` to position `nr`, not included, of block `bj`: each keeps its outer part
    /// and gets the inner part of the other one, reversed.
    fn trade_ends(&mut self, bi: u32, oi: u32, bj: u32, nr: usize)
        requires
            old(self).sound(),
            bi < bj < old(self).desc@.len(),
            oi < old(self).pieces()[bi as int].len(),
            0 < nr <= old(self).pieces()[bj as int].len(),
            oi + nr <= u32::MAX,
            old(self).pieces()[bi as int].len() - oi + old(self).pieces()[bj as int].len() - nr
                <= u32::MAX,
        ensures
            final(self).linked(),
            final(self).b == old(self).b,
            final(self).desc@.len() == old(self).desc@.len(),
            final(self).pool@.len() == old(self).pool@.len(),
            final(self).pieces() == old(self).pieces().update(
                bi as int,
                old(self).pieces()[bi as int].take(oi as int) + old(self).pieces()[bj as int].take(
                    nr as int,
                ).reverse(),
            ).update(
                bj as int,
                old(self).pieces()[bi as int].skip(oi as int).reverse()
                    + old(self).pieces()[bj as int].skip(nr as int),
            ),
            !flagged(final(self).desc@[bi as int]),
            !flagged(final(self).desc@[bj as int]),
            forall|k: int|
                0 <= k < old(self).desc@.len() ==> slot_of(#[trigger] final(self).desc@[k]) == slot_of(
                    old(self).desc@[k],
                ),
            rewritten(
                old(self).pool@,
                final(self).pool@,
                slot_of(old(self).desc@[bi as int]),
                slot_of(old(self).desc@[bj as int]),
            ),
            final(self).szs@ == old(self).szs@.update(bi as int, (oi + nr) as u32).update(
                bj as int,
                (old(self).szs@[bi as int] - oi + old(self).szs@[bj as int] - nr) as u32,
            ),
    {
        let ghost before = self.pieces();
        proof {
            self.lemma_lens();
        }
        self.materialize(bi);
        self.materialize(bj);
        let ghost s1 = *self;
        let ai: usize = slot(self.desc[bi as usize]);
        let di: usize = slot(self.desc[bj as usize]);
        proof {
            assert(slot_of(s1.desc@[bi as int]) != slot_of(s1.desc@[bj as int]));
            assert(s1.pieces()[bi as int] == before[bi as int]);
            assert(s1.pieces()[bj as int] == before[bj as int]);
        }
        let mut rp: Vec<u32> = copy_range(&self.pool[di], 0, nr);
        let rp_len: usize = rp.len();
        reverse_avx2(&mut rp, 0, rp_len);
        let lhs_len: usize = self.pool[ai].len();
        let mut lp: Vec<u32> = copy_range(&self.pool[ai], oi as usize, lhs_len);
        let lp_len: usize = lp.len();
        reverse_avx2(&mut lp, 0, lp_len);
        let rhs_len: usize = self.pool[di].len();
        let tail: Vec<u32> = copy_range(&self.pool[di], nr, rhs_len);
        self.pool[ai].truncate(oi as usize);
        append_slice(&mut self.pool[ai], &rp);
        append_slice(&mut lp, &tail);
        self.pool[di] = lp;
        self.szs[bi as usize] = self.pool[ai].len() as u32;
        self.szs[bj as usize] = self.pool[di].len() as u32;
        proof {
            let ni = before[bi as int].take(oi as int) + before[bj as int].take(nr as int).reverse();
            let nj = before[bi as int].skip(oi as int).reverse() + before[bj as int].skip(nr as int);
            let ps = before.update(bi as int, ni).update(bj as int, nj);
            assert(self.pool@[ai as int]@ =~= ni);
            assert(self.pool@[di as int]@ =~= nj);
            assert forall|k: int| 0 <= k < s1.desc@.len() && k != bi && k != bj implies {
                &&& slot_of(#[trigger] s1.desc@[k]) != ai
                &&& slot_of(s1.desc@[k]) != di
            } by {
                if k < bi {
                    assert(slot_of(s1.desc@[k]) != slot_of(s1.desc@[bi as int]));
                } else {
                    assert(slot_of(s1.desc@[bi as int]) != slot_of(s1.desc@[k]));
                }
                if k < bj {
                    assert(slot_of(s1.desc@[k]) != slot_of(s1.desc@[bj as int]));
                } else {
                    assert(slot_of(s1.desc@[bj as int]) != slot_of(s1.desc@[k]));
                }
            }
            assert forall|k: int| 0 <= k < ps.len() implies self.pieces()[k] == ps[k] by {
                assert(s1.pieces()[k] == before[k]);
                assert(slot_of(s1.desc@[k]) < s1.pool@.len());
            }
            assert(self.pieces() =~= ps);
        }
    }

    /// Puts blocks `bi + 1 .. bj` in the opposite order and turns each of them round.
    fn turn_between(&mut self, bi: u32, bj: u32)
        requires
            old(self).linked(),
            bi < bj < old(self).desc@.len(),
        ensures
            final(self).linked(),
            final(self).b == old(self).b,
            final(self).desc@.len() == old(self).desc@.len(),
            final(self).pool@.len() == old(self).pool@.len(),
            forall|k: int|
                0 <= k < old(self).desc@.len() ==> {
                    &&& #[trigger] final(self).pieces()[k] == if bi < k < bj {
                        old(self).pieces()[bi + bj - k].reverse()
                    } else {
                        old(self).pieces()[k]
                    }
                    &&& final(self).szs@[k] == old(self).szs@[between(k, bi as int, bj as int)]
                    &&& slot_of(final(self).desc@[k]) == slot_of(old(self).desc@[between(k, bi as int, bj as int)])
                    &&& !(bi < k < bj) ==> flagged(final(self).desc@[k]) == flagged(old(self).desc@[k])
                },
            final(self).pool == old(self).pool,
    {
        reverse_avx2(&mut self.desc, bi as usize + 1, bj as usize);
        reverse_avx2(&mut self.szs, bi as usize + 1, bj as usize);
        let ghost s1 = *self;
        self.toggle_range(bi + 1, bj);
        proof {
            let s0 = *old(self);
            assert forall|k: int| 0 <= k < s0.desc@.len() implies {
                let k0 = between(k, bi as int, bj as int);
                &&& slot_of(#[trigger] self.desc@[k]) == slot_of(s0.desc@[k0])
                &&& flagged(self.desc@[k]) == (flagged(s0.desc@[k0]) != (bi < k < bj))
                &&& self.szs@[k] == s0.szs@[k0]
            } by {
                assert(s1.desc@[k] == s0.desc@[between(k, bi as int, bj as int)]);
                assert(s1.szs@[k] == s0.szs@[between(k, bi as int, bj as int)]);
            }
            assert forall|k: int| 0 <= k < s0.desc@.len() implies #[trigger] self.pieces()[k] == if bi
                < k < bj {
                s0.pieces()[bi + bj - k].reverse()
            } else {
                s0.pieces()[k]
            } by {
                let k0 = between(k, bi as int, bj as int);
                assert(slot_of(self.desc@[k]) == slot_of(s0.desc@[k0]));
                lemma_reverse_twice(s0.pool@[slot_of(s0.desc@[k0])]@);
            }
            assert forall|i: int, j: int| 0 <= i < j < self.desc@.len() implies slot_of(
                #[trigger] self.desc@[i],
            ) != slot_of(#[trigger] self.desc@[j]) by {
                let i0 = between(i, bi as int, bj as int);
                let j0 = between(j, bi as int, bj as int);
                if i0 < j0 {
                    assert(slot_of(s0.desc@[i0]) != slot_of(s0.desc@[j0]));
                } else {
                    assert(slot_of(s0.desc@[j0]) != slot_of(s0.desc@[i0]));
                }
            }
        }
    }

    /// Whether a reversal that runs from position `oi` of block `bi` to position `oj` of
    /// the later block `bj` needs a block beyond the largest number of slots, where there
    /// is none left.
    fn runs_over(&self, bi: u32, oi: u32, bj: u32, oj: u32) -> (over: bool)
        requires
            self.wf(),
            self.desc@.len() == MAX_SLOTS,
            bi < bj < self.desc@.len(),
            oi < self.pieces()[bi as int].len(),
            oj < self.pieces()[bj as int].len(),
        ensures
            over == ({
                let t = spliced(self.pieces(), bi as int, oi as int, bj as int, oj + 1);
                let h = rebalanced(t, bj as int, self.b as int);
                h.len() > MAX_SLOTS || rebalanced(h, bi as int, self.b as int).len() > MAX_SLOTS
            }),
    {
        let ghost ps = self.pieces();
        let ghost t = spliced(ps, bi as int, oi as int, bj as int, oj + 1);
        let ghost h = rebalanced(t, bj as int, self.b as int);
        proof {
            self.lemma_lens();
            self.lemma_bounds();
            lemma_traded(ps, self.b as int, bi as int, oi as int, bj as int, oj as int);
            lemma_rebalanced(t, bj as int, self.b as int);
            lemma_rebalanced(h, bi as int, self.b as int);
        }
        let (i, j): (usize, usize) = (bi as usize, bj as usize);
        let many: u64 = 2 * (self.b as u64);
        let ni: u64 = oi as u64 + oj as u64 + 1;
        let nj: u64 = (self.szs[i] - oi) as u64 + (self.szs[j] - oj - 1) as u64;
        assert(t[bi as int].len() == ni && t[bj as int].len() == nj);
        if nj > many {
            return true;
        }
        if nj < (self.b / 2) as u64 {
            let left: u64 = if j - i > 1 {
                self.szs[i + 1] as u64
            } else {
                ni
            };
            assert(t[bj - 1].len() == left);
            if left + nj <= many {
                return false;
            }
            if j + 1 < self.szs.len() {
                assert(t[bj + 1].len() == self.szs@[bj + 1]);
                if nj + self.szs[j + 1] as u64 <= many {
                    return false;
                }
            }
        }
        assert(h == t);
        ni > many
    }

    /// Whether the reversal from `l` to `r` can be carried out: the ends are in order,
    /// and the slot numbers do not run out.
    pub fn can_reverse(&self, l: u32, r: u32) -> (can: bool)
        requires
            self.wf(),
        ensures
            can == (reversible(self.blocks(), l as int, r as int) && most_blocks(
                self.blocks(),
                self.block_size(),
                l as int,
                r as int,
            ) <= MAX_SLOTS),
    {
        let (bi, oi): (u32, u32) = self.find(l);
        let (bj, oj): (u32, u32) = self.find(r);
        if self.desc.len() == 0 || bi > bj || (bi == bj && oi as u64 > oj as u64 + 1) {
            return false;
        }
        proof {
            self.lemma_lens();
            self.lemma_bounds();
            lemma_reversal(self.pieces(), self.b as int, l as int, r as int);
            lemma_found_position(self.pieces(), l as int);
            lemma_found_position(self.pieces(), r as int);
        }
        if bi == bj || self.desc.len() < MAX_SLOTS {
            return true;
        }
        !self.runs_over(bi, oi, bj, oj)
    }

    /// Reverses from position `oi` of block `bi` to position `oj` of the later block `bj`,
    /// without rebalancing.
    fn swap_across(&mut self, bi: u32, oi: u32, bj: u32, oj: u32)
        requires
            old(self).wf(),
            bi < bj < old(self).desc@.len(),
            oi < old(self).pieces()[bi as int].len(),
            oj < old(self).pieces()[bj as int].len(),
        ensures
            final(self).sound(),
            final(self).sized(bj as int, bi as int),
            final(self).b == old(self).b,
            final(self).pieces() == spliced(old(self).pieces(), bi as int, oi as int, bj as int, oj + 1),
            final(self).pool@.len() == old(self).pool@.len(),
            !flagged(final(self).desc@[bi as int]),
            !flagged(final(self).desc@[bj as int]),
            slot_of(final(self).desc@[bi as int]) == slot_of(old(self).desc@[bi as int]),
            slot_of(final(self).desc@[bj as int]) == slot_of(old(self).desc@[bj as int]),
            rewritten(
                old(self).pool@,
                final(self).pool@,
                slot_of(old(self).desc@[bi as int]),
                slot_of(old(self).desc@[bj as int]),
            ),
    {
        let ghost before = self.pieces();
        let ghost s0 = *self;
        let ghost ps = spliced(before, bi as int, oi as int, bj as int, oj + 1);
        proof {
            self.lemma_lens();
            lemma_spliced(before, bi as int, oi as int, bj as int, oj + 1);
            lemma_concat_around(ps, bi as int);
            lemma_concat_around(ps, bj as int);
        }
        self.trade_ends(bi, oi, bj, oj as usize + 1);
        self.turn_between(bi, bj);
        proof {
            assert(self.pieces() =~= ps);
            assert(self.sound());
            assert forall|i: int| 0 <= i < self.desc@.len() implies (#[trigger] self.szs@[i]) <= if i == bi || i == bj {
                4 * self.b
            } else {
                2 * self.b
            } by {
                let i0 = between(i, bi as int, bj as int);
                assert(self.pieces()[i] == ps[i]);
                assert(s0.szs@[i0] <= 2 * self.b);
                assert(s0.szs@[bi as int] <= 2 * self.b);
                assert(s0.szs@[bj as int] <= 2 * self.b);
            }
        }
    }

    /// Reverses from position `oi` of block `bi` to position `oj` of the later block `bj`,
    /// and rebalances the two, the later one first.
    fn reverse_across(&mut self, bi: u32, oi: u32, bj: u32, oj: u32)
        requires
            old(self).wf(),
            bi < bj < old(self).desc@.len(),
            oi < old(self).pieces()[bi as int].len(),
            oj < old(self).pieces()[bj as int].len(),
            ({
                let t = spliced(old(self).pieces(), bi as int, oi as int, bj as int, oj + 1);
                let h = rebalanced(t, bj as int, old(self).b as int);
                concat(old(self).pieces()).len() <= MAX_SLOTS || (h.len() <= MAX_SLOTS && rebalanced(
                    h,
                    bi as int,
                    old(self).b as int,
                ).len() <= MAX_SLOTS)
            }),
        ensures
            final(self).wf(),
            final(self).b == old(self).b,
            ({
                let t = spliced(old(self).pieces(), bi as int, oi as int, bj as int, oj + 1);
                let h = rebalanced(t, bj as int, old(self).b as int);
                &&& final(self).pieces() == rebalanced(h, bi as int, old(self).b as int)
                &&& final(self).pool@.len() == vstd::math::max(
                    old(self).pool@.len() as int,
                    vstd::math::max(h.len() as int, final(self).pieces().len() as int),
                )
            }),
            exists|a: int, b: int, c: int, d: int| #[trigger]
                four_rewritten(slots(old(self).pool@), slots(final(self).pool@), a, b, c, d),
    {
        let ghost before = self.pieces();
        let ghost t = spliced(before, bi as int, oi as int, bj as int, oj + 1);
        let ghost ai = slot_of(self.desc@[bi as int]);
        let ghost di = slot_of(self.desc@[bj as int]);
        proof {
            self.lemma_bounds();
            lemma_spliced(before, bi as int, oi as int, bj as int, oj + 1);
            lemma_traded(before, self.b as int, bi as int, oi as int, bj as int, oj as int);
            lemma_rebalanced(t, bj as int, self.b as int);
        }
        self.swap_across(bi, oi, bj, oj);
        let ghost q0 = self.pool@;
        proof {
            self.lemma_lens();
        }
        self.rebalance(bj, Ghost(bi as int));
        let ghost q1 = self.pool@;
        let ghost x = choose|x: int| #[trigger] rewritten(q0, q1, di, x);
        proof {
            self.lemma_lens();
            lemma_rebalanced(self.pieces(), bi as int, self.b as int);
        }
        self.rebalance(bi, Ghost(-1));
        let ghost y = choose|y: int| #[trigger] rewritten(q1, self.pool@, ai, y);
        proof {
            lemma_four_rewritten(old(self).pool@, q0, q1, self.pool@, ai, di, x, y);
        }
    }

    /// Reverses the elements from `l` to `r`, both included. An end past the last element
    /// stands for the first element.
    pub fn reverse(&mut self, l: u32, r: u32)
        requires
            old(self).wf(),
            l <= r < old(self)@.len() || reversible(old(self).blocks(), l as int, r as int),
            old(self)@.len() <= MAX_SLOTS || most_blocks(
                old(self).blocks(),
                old(self).block_size(),
                l as int,
                r as int,
            ) <= MAX_SLOTS,
        ensures
            final(self).wf(),
            final(self)@ == reversed(
                old(self)@,
                position(l as int, old(self)@.len() as int),
                position(r as int, old(self)@.len() as int) + 1,
            ),
            final(self).block_size() == old(self).block_size(),
            final(self).blocks() == after_reversal(old(self).blocks(), old(self).block_size(), l as int, r as int),
            final(self).arena_len() == vstd::math::max(
                old(self).arena_len() as int,
                most_blocks(old(self).blocks(), old(self).block_size(), l as int, r as int),
            ),
            exists|a: int, b: int, c: int, d: int| #[trigger]
                four_rewritten(old(self).arena(), final(self).arena(), a, b, c, d),
    {
        let (bi, oi): (u32, u32) = self.find(l);
        let (bj, oj): (u32, u32) = self.find(r);
        let ghost before = self.pieces();
        proof {
            self.lemma_lens();
            if l <= r && r < self@.len() {
                lemma_found_order(before, l as int, r as int);
            }
            self.lemma_bounds();
            lemma_reversal(before, self.b as int, l as int, r as int);
            lemma_found_position(before, l as int);
            lemma_found_position(before, r as int);
        }
        if bi == bj {
            let ghost ai = slot_of(self.desc@[bi as int]);
            self.reverse_in_block(bi, oi, oj);
            assert(four_rewritten(old(self).arena(), self.arena(), ai, ai, ai, ai));
        } else {
            self.reverse_across(bi, oi, bj, oj);
            proof {
                let (a, b, c, d) = choose|a: int, b: int, c: int, d: int| #[trigger]
                    four_rewritten(slots(old(self).pool@), slots(self.pool@), a, b, c, d);
                assert(four_rewritten(old(self).arena(), self.arena(), a, b, c, d));
            }
        }
    }

    /// No block is empty or longer than twice the block length.
    proof fn lemma_bounds(&self)
        requires
            self.wf(),
        ensures
            forall|i: int| 0 <= i < self.pieces().len() ==> 0 < (#[trigger] self.pieces()[i]).len() <= 2 * self.b,
    {
        assert forall|i: int| 0 <= i < self.pieces().len() implies 0 < (#[trigger] self.pieces()[i]).len() <= 2
            * self.b by {
            assert(slot_of(self.desc@[i]) < self.pool@.len());
            assert(self.szs@[i] <= 2 * self.b);
        }
    }

    /// Writes the sequence to `out`, replacing what was there.
    pub fn collect(&self, out: &mut Vec<u32>)
        requires
            self.wf(),
        ensures
            final(out)@ == self@,
    {
        out.clear();
        let ghost ps = self.pieces();
        let mut i: usize = 0;
        assert(ps.take(0) =~= Seq::empty());
        while i < self.desc.len()
            invariant
                self.wf(),
                ps == self.pieces(),
                i <= ps.len(),
                out@ == concat(ps.take(i as int)),
            decreases ps.len() - i,
        {
            proof {
                lemma_concat_around(ps, i as int);
            }
            let d: u32 = self.desc[i];
            if is_flagged(d) {
                append_reversed(out, &self.pool[slot(d)]);
            } else {
                append_slice(out, &self.pool[slot(d)]);
            }
            i = i + 1;
        }
        assert(ps.take(ps.len() as int) =~= ps);
    }

    /// Every slot of the arena is either named by one descriptor or listed once as free;
    /// the free slots are empty, and a block is what its slot holds, read backwards where
    /// its flag is set.
    pub proof fn law_slots(&self)
        requires
            self.wf(),
        ensures
            self.arena_len() == self.descriptors().len() + self.free_slots().len(),
            self.descriptors().len() == self.blocks().len(),
            forall|i: int|
                0 <= i < self.descriptors().len() ==> 0 <= slot_of(#[trigger] self.descriptors()[i])
                    < self.arena_len(),
            forall|i: int, j: int|
                0 <= i < j < self.descriptors().len() ==> slot_of(#[trigger] self.descriptors()[i])
                    != slot_of(#[trigger] self.descriptors()[j]),
            forall|i: int, j: int|
                0 <= i < j < self.free_slots().len() ==> (#[trigger] self.free_slots()[i]) != (
                #[trigger] self.free_slots()[j]),
            forall|i: int, j: int|
                0 <= i < self.descriptors().len() && 0 <= j < self.free_slots().len() ==> slot_of(
                    #[trigger] self.descriptors()[i],
                ) != #[trigger] self.free_slots()[j],
            forall|j: int| 0 <= j < self.free_slots().len() ==> (#[trigger] self.free_slots()[j]) < self.arena_len(),
            self.arena().len() == self.arena_len(),
            forall|j: int|
                0 <= j < self.free_slots().len() ==> self.arena()[(#[trigger] self.free_slots()[j]) as int].len() == 0,
            forall|i: int|
                0 <= i < self.blocks().len() ==> #[trigger] self.blocks()[i] == {
                    let stored = self.arena()[slot_of(self.descriptors()[i])];
                    if flagged(self.descriptors()[i]) {
                        stored.reverse()
                    } else {
                        stored
                    }
                },
    {
        assert forall|i: int| 0 <= i < self.blocks().len() implies #[trigger] self.blocks()[i] == {
            let stored = self.arena()[slot_of(self.descriptors()[i])];
            if flagged(self.descriptors()[i]) {
                stored.reverse()
            } else {
                stored
            }
        } by {
            assert(slot_of(self.desc@[i]) < self.pool@.len());
        }
    }

    /// The size recorded for a block is the length of what its slot holds, and lies
    /// between 1 and twice the block length; together the sizes are the number of
    /// elements.
    pub proof fn law_sizes(&self)
        requires
            self.wf(),
        ensures
            self.sizes().len() == self.descriptors().len() == self.blocks().len(),
            forall|i: int|
                0 <= i < self.sizes().len() ==> {
                    &&& 0 < #[trigger] self.sizes()[i] <= 2 * self.block_size()
                    &&& self.sizes()[i] == self.arena()[slot_of(self.descriptors()[i])].len()
                    &&& self.sizes()[i] == self.blocks()[i].len()
                },
            size_sum(self.sizes()) == self@.len(),
    {
        assert forall|i: int| 0 <= i < self.sizes().len() implies {
            &&& 0 < #[trigger] self.sizes()[i] <= 2 * self.block_size()
            &&& self.sizes()[i] == self.arena()[slot_of(self.descriptors()[i])].len()
            &&& self.sizes()[i] == self.blocks()[i].len()
        } by {
            assert(slot_of(self.desc@[i]) < self.pool@.len());
            assert(self.szs@[i] <= 2 * self.b);
        }
        lemma_size_sum(self.sizes(), self.blocks());
    }

    /// No block is empty or holds more than twice the block length, neither the blocks
    /// nor the slots of the arena ever outnumber the elements, and the blocks in order
    /// are the sequence.
    pub proof fn law_blocks(&self)
        requires
            self.wf(),
        ensures
            forall|i: int|
                0 <= i < self.blocks().len() ==> 0 < (#[trigger] self.blocks()[i]).len() <= 2
                    * self.block_size(),
            self.blocks().len() <= self.arena_len() <= self@.len(),
            concat(self.blocks()) == self@,
    {
        let ps = self.pieces();
        assert forall|i: int| 0 <= i < ps.len() implies 0 < (#[trigger] ps[i]).len() <= 2 * self.b by {
            assert(slot_of(self.desc@[i]) < self.pool@.len());
            assert(self.szs@[i] <= 2 * self.b);
        }
    }
}

} // verus!
