//! A block list: the sequence is cut into blocks of bounded length, each with a
//! lazy flag that says its elements stand in the opposite order.
use vstd::prelude::*;

use crate::blocks::{append_reversed, append_slice, choose_block, copy_range};
use crate::brute::{reverse_avx2, reverse_range};

verus! {

use crate::blocks::{
    chunked,
    cut_block,
    is_block_size,
    joined,
    located,
    merge_at,
    merged,
    rebalanced,
    reversed_blocks,
};
use crate::seqs::{
    concat,
    lemma_concat_around,
    lemma_concat_count,
    lemma_concat_join_pieces,
    lemma_concat_split_piece,
    lemma_offset_monotone,
    lemma_reverse_twice,
    lemma_reversed_inside,
    lemma_spliced,
    offset,
    reversed,
    spliced,
};

/// A sequence of `u32` under range reversal, as a list of flagged blocks.
pub struct Sqrt {
    blocks: Vec<(Vec<u32>, bool)>,
    b: u32,
}

/// The elements of one block, in the order they have in the sequence.
spec fn piece(block: (Vec<u32>, bool)) -> Seq<u32> {
    if block.1 {
        block.0@.reverse()
    } else {
        block.0@
    }
}

/// Every list of `q`, but for four of them, is one of `p`.
pub open spec fn four_new(p: Seq<Seq<u32>>, q: Seq<Seq<u32>>, a: int, b: int, c: int, d: int) -> bool {
    forall|k: int|
        0 <= k < q.len() && k != a && k != b && k != c && k != d ==> p.contains(#[trigger] q[k])
}

/// `q` is `p` with block `i`, and perhaps a neighbour, replaced by the blocks from `x`
/// to `y`; the blocks after them have moved up by `w`.
spec fn replaced(p: Seq<(Vec<u32>, bool)>, q: Seq<(Vec<u32>, bool)>, i: int, x: int, y: int, w: int) -> bool {
    &&& i - 1 <= x <= i <= y - w
    &&& x <= y <= x + 1
    &&& q.len() == p.len() + w
    &&& forall|k: int| 0 <= k < x ==> #[trigger] q[k] == p[k]
    &&& forall|k: int| y < k < q.len() ==> #[trigger] q[k] == p[k - w]
}

/// The lists of the blocks, whatever their flags.
spec fn lists(blocks: Seq<(Vec<u32>, bool)>) -> Seq<Seq<u32>> {
    Seq::new(blocks.len(), |i: int| blocks[i].0@)
}

/// Where the block that comes to stand at `k` stood before the blocks between `bi` and
/// `bj` were turned over.
spec fn between(k: int, bi: int, bj: int) -> int {
    if bi < k < bj {
        bi + bj - k
    } else {
        k
    }
}

/// Turning over the blocks between two others and replacing these two leaves at most
/// four new lists.
proof fn lemma_four_new(
    p: Seq<(Vec<u32>, bool)>,
    s0: Seq<(Vec<u32>, bool)>,
    s1: Seq<(Vec<u32>, bool)>,
    s2: Seq<(Vec<u32>, bool)>,
    bi: int,
    bj: int,
)
    requires
        0 <= bi < bj < s0.len() == p.len(),
        forall|k: int|
            0 <= k < s0.len() && k != bi && k != bj ==> (#[trigger] s0[k]).0 == p[between(k, bi, bj)].0,
        exists|x: int, y: int, w: int| #[trigger] replaced(s0, s1, bj, x, y, w),
        exists|x: int, y: int, w: int| #[trigger] replaced(s1, s2, bi, x, y, w),
    ensures
        exists|a: int, b: int, c: int, d: int| #[trigger] four_new(lists(p), lists(s2), a, b, c, d),
{
    let (x1, y1, w1) = choose|x: int, y: int, w: int| #[trigger] replaced(s0, s1, bj, x, y, w);
    let (x2, y2, w2) = choose|x: int, y: int, w: int| #[trigger] replaced(s1, s2, bi, x, y, w);
    assert forall|k: int|
        0 <= k < s2.len() && k != x2 && k != y2 && k != x1 + w2 && k != y1 + w2 implies lists(p).contains(
        #[trigger] lists(s2)[k],
    ) by {
        let k1 = if k < x2 {
            k
        } else {
            k - w2
        };
        assert(s2[k] == s1[k1]);
        let k0 = if k1 < x1 {
            k1
        } else {
            k1 - w1
        };
        assert(s1[k1] == s0[k0]);
        assert(s0[k0].0 == p[between(k0, bi, bj)].0);
        assert(lists(s2)[k] == lists(p)[between(k0, bi, bj)]);
    }
    assert(four_new(lists(p), lists(s2), x2, y2, x1 + w2, y1 + w2));
}

impl Sqrt {
    spec fn pieces(self) -> Seq<Seq<u32>> {
        Seq::new(self.blocks@.len(), |i: int| piece(self.blocks@[i]))
    }

    /// The sequence that the structure holds.
    pub closed spec fn view(&self) -> Seq<u32> {
        concat(self.pieces())
    }

    /// The blocks, in the order of the sequence.
    pub closed spec fn blocks(&self) -> Seq<Seq<u32>> {
        self.pieces()
    }

    /// The lazy flags of the blocks, in the order of the sequence.
    pub closed spec fn flags(&self) -> Seq<bool> {
        Seq::new(self.blocks@.len(), |i: int| self.blocks@[i].1)
    }

    /// The lists in which the blocks are stored, whatever their flags.
    pub closed spec fn stored(&self) -> Seq<Seq<u32>> {
        lists(self.blocks@)
    }

    /// The length that blocks are built with.
    pub closed spec fn block_size(&self) -> int {
        self.b as int
    }

    /// No block is empty, and the positions fit in a `u32`.
    spec fn sound(self) -> bool {
        &&& self.b > 0
        &&& forall|i: int| 0 <= i < self.blocks@.len() ==> (#[trigger] self.blocks@[i]).0@.len() > 0
        &&& concat(self.pieces()).len() <= u32::MAX
    }

    /// Every block holds at most twice the block length, but blocks `x` and `y`
    /// may hold twice that.
    spec fn sized(self, x: int, y: int) -> bool {
        forall|i: int|
            0 <= i < self.blocks@.len() ==> (#[trigger] self.blocks@[i]).0@.len() <= if i == x || i == y {
                4 * self.b
            } else {
                2 * self.b
            }
    }

    /// The structure is well formed: blocks are non-empty, hold at most twice the
    /// block length, and together have a length that fits in a `u32`.
    pub closed spec fn wf(self) -> bool {
        self.sound() && self.sized(-1, -1)
    }

    /// The block list for the elements of `a`.
    pub fn new(a: &[u32], _seed: u64, block_size: u32) -> (s: Sqrt)
        requires
            a@.len() <= u32::MAX,
        ensures
            s.wf(),
            s@ == a@,
            is_block_size(a@.len() as int, block_size as int, s.block_size()),
            chunked(s.blocks(), s.block_size()),
            s.flags() == Seq::new(s.blocks().len(), |i: int| false),
    {
        let b: u32 = choose_block(a.len(), block_size);
        let mut blocks: Vec<(Vec<u32>, bool)> = Vec::new();
        let mut i: usize = 0;
        let ghost mut pieces: Seq<Seq<u32>> = Seq::empty();
        while i < a.len()
            invariant
                i <= a@.len(),
                b > 0,
                blocks@.len() == pieces.len(),
                forall|k: int|
                    0 <= k < blocks@.len() ==> {
                        &&& 0 < (#[trigger] blocks@[k]).0@.len() <= b
                        &&& !blocks@[k].1
                        &&& pieces[k] == blocks@[k].0@
                        &&& pieces[k].len() == b || (i == a@.len() && k + 1 == pieces.len())
                    },
                concat(pieces) == a@.take(i as int),
            decreases a@.len() - i,
        {
            let e: usize = if a.len() - i <= b as usize {
                a.len()
            } else {
                i + b as usize
            };
            let block: Vec<u32> = copy_range(a, i, e);
            assert forall|k: int| 0 <= k < pieces.len() implies (#[trigger] pieces[k]).len() == b by {
                assert(pieces[k] == blocks@[k].0@);
            }
            proof {
                assert(pieces.push(block@).drop_last() =~= pieces);
                pieces = pieces.push(block@);
                assert(a@.take(e as int) =~= a@.take(i as int) + block@);
            }
            blocks.push((block, false));
            i = e;
        }
        let s = Sqrt { blocks, b };
        assert(s.pieces() =~= pieces);
        assert(a@.take(a@.len() as int) =~= a@);
        s
    }

    /// Block and position in it of element `k`; `(0, 0)` past the end.
    fn find(&self, k: u32) -> (at: (u32, u32))
        requires
            self.sound(),
        ensures
            k < self@.len() ==> {
                &&& at.0 < self.blocks@.len()
                &&& at.1 < self.pieces()[at.0 as int].len()
                &&& offset(self.pieces(), at.0 as int) + at.1 == k
            },
            k >= self@.len() ==> at == (0u32, 0u32),
    {
        let ghost ps = self.pieces();
        let mut rest: u32 = k;
        let mut i: usize = 0;
        proof {
            assert(ps.take(0) =~= Seq::empty());
            assert forall|j: int| 0 <= j < ps.len() implies #[trigger] ps[j].len() > 0 by {
                assert(self.blocks@[j].0@.len() > 0);
            }
            lemma_concat_count(ps);
        }
        while i < self.blocks.len()
            invariant
                self.sound(),
                ps == self.pieces(),
                i <= ps.len(),
                ps.len() <= u32::MAX,
                offset(ps, i as int) + rest == k,
            decreases ps.len() - i,
        {
            let ghost ii = i as int;
            proof {
                lemma_concat_around(ps, ii);
                assert(self.blocks@[ii].0@.len() == ps[ii].len());
            }
            let s: u32 = self.blocks[i].0.len() as u32;
            if rest < s {
                return (i as u32, rest);
            }
            rest = rest - s;
            i = i + 1;
        }
        assert(ps.take(ps.len() as int) =~= ps);
        (0, 0)
    }

    /// Puts block `i` into plain order.
    fn materialize(&mut self, i: u32)
        requires
            i < old(self).blocks@.len(),
        ensures
            final(self).pieces() == old(self).pieces(),
            final(self).b == old(self).b,
            final(self).blocks@.len() == old(self).blocks@.len(),
            !final(self).blocks@[i as int].1,
            final(self).blocks@[i as int].0@ == piece(old(self).blocks@[i as int]),
            forall|k: int|
                0 <= k < old(self).blocks@.len() && k != i ==> final(self).blocks@[k] == old(
                    self,
                ).blocks@[k],
    {
        if self.blocks[i as usize].1 {
            let len: usize = self.blocks[i as usize].0.len();
            let ghost v = self.blocks@[i as int].0@;
            reverse_avx2(&mut self.blocks[i as usize].0, 0, len);
            self.blocks[i as usize].1 = false;
            assert(reversed(v, 0, v.len() as int) =~= v.reverse());
        }
        assert(self.pieces() =~= old(self).pieces());
    }

    /// Cuts block `i` in the middle if it holds more than twice the block length.
    fn split_block(&mut self, i: u32, Ghost(e): Ghost<int>)
        requires
            old(self).sound(),
            old(self).sized(i as int, e),
            e < i < old(self).blocks@.len(),
            old(self).blocks@[i as int].0@.len() > 2 * old(self).b ==> !old(self).blocks@[i as int].1,
        ensures
            final(self).sound(),
            final(self)@ == old(self)@,
            final(self).b == old(self).b,
            final(self).sized(e, e),
            old(self).blocks@[i as int].0@.len() <= 2 * old(self).b ==> *final(self) == *old(self),
            old(self).blocks@[i as int].0@.len() > 2 * old(self).b ==> {
                &&& !final(self).blocks@[i as int].1
                &&& !final(self).blocks@[i + 1].1
                &&& forall|k: int|
                    0 <= k < i ==> #[trigger] final(self).blocks@[k] == old(self).blocks@[k]
                &&& forall|k: int|
                    i + 1 < k < final(self).blocks@.len() ==> #[trigger] final(self).blocks@[k] == old(
                        self,
                    ).blocks@[k - 1]
            },
            final(self).pieces() == if old(self).pieces()[i as int].len() > 2 * old(self).b {
                cut_block(old(self).pieces(), i as int, old(self).pieces()[i as int].len() as int / 2)
            } else {
                old(self).pieces()
            },
    {
        let s: usize = self.blocks[i as usize].0.len();
        if s as u64 <= 2 * (self.b as u64) {
            return;
        }
        let half: usize = s / 2;
        assert(i < self.blocks.len());
        let next: usize = i as usize + 1;
        let ghost ii = i as int;
        let ghost before = self.pieces();
        let nb: (Vec<u32>, bool) = (self.blocks[i as usize].0.split_off(half), false);
        self.blocks.insert(next, nb);
        proof {
            assert(self.pieces() =~= cut_block(before, ii, half as int));
            lemma_concat_split_piece(before, ii, half as int);
        }
    }

    /// Joins blocks `i` and `i + 1`, which together are short enough.
    fn join(&mut self, i: usize, Ghost(pos): Ghost<int>, Ghost(e): Ghost<int>)
        requires
            old(self).sound(),
            old(self).sized(pos, e),
            i + 1 < old(self).blocks@.len(),
            e < pos,
            pos == i || pos == i + 1,
            old(self).blocks@[i as int].0@.len() + old(self).blocks@[i + 1].0@.len() <= 2 * old(self).b,
        ensures
            final(self).sound(),
            final(self)@ == old(self)@,
            final(self).b == old(self).b,
            final(self).sized(e, e),
            final(self).pieces() == joined(old(self).pieces(), i as int),
            !final(self).blocks@[i as int].1,
            forall|k: int| 0 <= k < i ==> #[trigger] final(self).blocks@[k] == old(self).blocks@[k],
            forall|k: int|
                i < k < final(self).blocks@.len() ==> #[trigger] final(self).blocks@[k] == old(self).blocks@[k + 1],
    {
        let ghost ii = i as int;
        proof {
            let ps = self.pieces();
            assert forall|j: int| 0 <= j < ps.len() implies #[trigger] ps[j].len() > 0 by {
                assert(self.blocks@[j].0@.len() > 0);
            }
            lemma_concat_count(ps);
        }
        self.materialize(i as u32);
        self.materialize((i + 1) as u32);
        let ghost before = self.pieces();
        let mut rhs: Vec<u32> = self.blocks.remove(i + 1).0;
        self.blocks[i].0.append(&mut rhs);
        self.blocks[i].1 = false;
        proof {
            assert(self.pieces() =~= joined(before, ii));
            lemma_concat_join_pieces(before, ii);
        }
    }

    /// Joins block `i` with a neighbour if it holds less than half the block
    /// length and the two together hold at most twice that length.
    fn merge_small(&mut self, i: u32, Ghost(e): Ghost<int>)
        requires
            old(self).sound(),
            old(self).sized(i as int, e),
            e < i < old(self).blocks@.len(),
            old(self).blocks@[i as int].0@.len() <= 2 * old(self).b,
        ensures
            final(self).sound(),
            final(self)@ == old(self)@,
            final(self).b == old(self).b,
            final(self).sized(e, e),
            final(self).pieces() == merged(
                old(self).pieces(),
                i as int,
                old(self).b as int / 2,
                2 * old(self).b,
            ),
            ({
                let j = merge_at(old(self).pieces(), i as int, old(self).b as int / 2, 2 * old(self).b);
                &&& j < 0 ==> *final(self) == *old(self)
                &&& j >= 0 ==> {
                    &&& !final(self).blocks@[j].1
                    &&& forall|k: int|
                        0 <= k < j ==> #[trigger] final(self).blocks@[k] == old(self).blocks@[k]
                    &&& forall|k: int|
                        j < k < final(self).blocks@.len() ==> #[trigger] final(self).blocks@[k] == old(
                            self,
                        ).blocks@[k + 1]
                }
            }),
    {
        let sz: usize = self.blocks[i as usize].0.len();
        if sz >= self.b as usize / 2 {
            return;
        }
        let ii: usize = i as usize;
        if ii > 0 {
            let left: usize = self.blocks[ii - 1].0.len();
            if left as u64 + sz as u64 <= 2 * (self.b as u64) {
                self.join(ii - 1, Ghost(i as int), Ghost(e));
                return;
            }
        }
        if self.blocks.len() - ii > 1 {
            let right: usize = self.blocks[ii + 1].0.len();
            if sz as u64 + right as u64 <= 2 * (self.b as u64) {
                self.join(ii, Ghost(i as int), Ghost(e));
            }
        }
    }

    /// Brings block `i` back within the length limits.
    fn rebalance(&mut self, i: u32, Ghost(e): Ghost<int>)
        requires
            old(self).sound(),
            old(self).sized(i as int, e),
            e < i < old(self).blocks@.len(),
            old(self).blocks@[i as int].0@.len() > 2 * old(self).b ==> !old(self).blocks@[i as int].1,
        ensures
            final(self).sound(),
            final(self)@ == old(self)@,
            final(self).b == old(self).b,
            final(self).sized(e, e),
            0 <= e && !old(self).blocks@[e].1 ==> !final(self).blocks@[e].1,
            final(self).pieces() == rebalanced(old(self).pieces(), i as int, old(self).b as int),
            exists|x: int, y: int, w: int| #[trigger]
                replaced(old(self).blocks@, final(self).blocks@, i as int, x, y, w),
    {
        if self.blocks[i as usize].0.len() as u64 > 2 * (self.b as u64) {
            self.split_block(i, Ghost(e));
            assert(replaced(old(self).blocks@, self.blocks@, i as int, i as int, i + 1, 1));
        } else {
            self.merge_small(i, Ghost(e));
            proof {
                let j = merge_at(old(self).pieces(), i as int, old(self).b as int / 2, 2 * old(self).b);
                if j < 0 {
                    assert(replaced(old(self).blocks@, self.blocks@, i as int, i as int, i as int, 0));
                } else {
                    assert(self.pieces().len() == old(self).pieces().len() - 1);
                    assert(replaced(old(self).blocks@, self.blocks@, i as int, j, j, -1));
                }
            }
        }
    }

    /// Reverses the elements from `l` to `r`, both included.
    #[verifier::rlimit(40)]
    pub fn reverse(&mut self, l: u32, r: u32)
        requires
            old(self).wf(),
            l <= r < old(self)@.len(),
        ensures
            final(self).wf(),
            final(self)@ == reversed(old(self)@, l as int, r + 1),
            final(self).block_size() == old(self).block_size(),
            exists|a: int, b: int, c: int, d: int| #[trigger]
                four_new(old(self).stored(), final(self).stored(), a, b, c, d),
            exists|bi: int, oi: int, bj: int, oj: int|
                #[trigger] located(old(self).blocks(), bi, oi, l as int) && #[trigger] located(
                    old(self).blocks(),
                    bj,
                    oj,
                    r as int,
                ) && final(self).blocks() == reversed_blocks(
                    old(self).blocks(),
                    old(self).block_size(),
                    bi,
                    oi,
                    bj,
                    oj,
                ),
    {
        let (bi, oi): (u32, u32) = self.find(l);
        let (bj, oj): (u32, u32) = self.find(r);
        let ghost before = self.pieces();
        proof {
            assert(located(old(self).blocks(), bi as int, oi as int, l as int));
            assert(located(old(self).blocks(), bj as int, oj as int, r as int));
        }
        if bi == bj {
            self.materialize(bi);
            reverse_avx2(&mut self.blocks[bi as usize].0, oi as usize, oj as usize + 1);
            proof {
                let ps = before.update(bi as int, reversed(before[bi as int], oi as int, oj + 1));
                assert(self.pieces() =~= ps);
                lemma_reversed_inside(before, bi as int, oi as int, oj + 1);
                let p = old(self).stored();
                let q = self.stored();
                assert forall|k: int| 0 <= k < q.len() && k != bi implies p.contains(#[trigger] q[k]) by {
                    assert(q[k] == p[k]);
                }
                assert(four_new(p, q, bi as int, bi as int, bi as int, bi as int));
                assert(self.blocks() == reversed_blocks(
                    old(self).blocks(),
                    old(self).block_size(),
                    bi as int,
                    oi as int,
                    bj as int,
                    oj as int,
                ));
            }
            return;
        }
        proof {
            if bj < bi {
                lemma_offset_monotone(before, bj + 1, bi as int);
                lemma_concat_around(before, bj as int);
            }
            lemma_spliced(before, bi as int, oi as int, bj as int, oj + 1);
        }
        self.materialize(bi);
        self.materialize(bj);
        let nr: usize = oj as usize + 1;
        let mut rp: Vec<u32> = copy_range(&self.blocks[bj as usize].0, 0, nr);
        let rp_len: usize = rp.len();
        reverse_avx2(&mut rp, 0, rp_len);
        let lhs_len: usize = self.blocks[bi as usize].0.len();
        let mut lp: Vec<u32> = copy_range(&self.blocks[bi as usize].0, oi as usize, lhs_len);
        let lp_len: usize = lp.len();
        reverse_avx2(&mut lp, 0, lp_len);
        let rhs_len: usize = self.blocks[bj as usize].0.len();
        let tail: Vec<u32> = copy_range(&self.blocks[bj as usize].0, nr, rhs_len);
        self.blocks[bi as usize].0.truncate(oi as usize);
        append_slice(&mut self.blocks[bi as usize].0, &rp);
        append_slice(&mut lp, &tail);
        self.blocks[bj as usize].0 = lp;
        let ghost ends = self.blocks@;
        reverse_range(&mut self.blocks, bi as usize + 1, bj as usize);
        let ghost turned = self.blocks@;
        let mut i: u32 = bi + 1;
        while i < bj
            invariant
                bi < i <= bj < turned.len(),
                self.blocks@.len() == turned.len(),
                self.b == old(self).b,
                forall|k: int|
                    0 <= k < turned.len() ==> {
                        &&& (#[trigger] self.blocks@[k]).0 == turned[k].0
                        &&& self.blocks@[k].1 == if bi < k < i {
                            !turned[k].1
                        } else {
                            turned[k].1
                        }
                    },
            decreases bj - i,
        {
            let rev: bool = self.blocks[i as usize].1;
            self.blocks[i as usize].1 = !rev;
            i = i + 1;
        }
        proof {
            let ps = spliced(before, bi as int, oi as int, bj as int, oj + 1);
            assert forall|k: int| 0 <= k < ps.len() implies self.pieces()[k] == ps[k] by {
                if bi < k < bj {
                    assert(turned[k] == ends[bi + bj - k]);
                    lemma_reverse_twice(ends[bi + bj - k].0@);
                    assert(self.pieces()[k] =~= ps[k]);
                } else {
                    assert(turned[k] == ends[k]);
                    assert(self.pieces()[k] =~= ps[k]);
                }
            }
            assert(self.pieces() =~= ps);
            assert(self.sound());
            assert(self.sized(bj as int, bi as int));
        }
        let ghost s0 = self.blocks@;
        self.rebalance(bj, Ghost(bi as int));
        let ghost s1 = self.blocks@;
        self.rebalance(bi, Ghost(-1));
        proof {
            assert forall|k: int| 0 <= k < s0.len() && k != bi && k != bj implies (#[trigger] s0[k]).0 == old(
                self,
            ).blocks@[between(k, bi as int, bj as int)].0 by {
                assert(turned[k] == ends[between(k, bi as int, bj as int)]);
            }
            lemma_four_new(old(self).blocks@, s0, s1, self.blocks@, bi as int, bj as int);
            let (a, b, c, d) = choose|a: int, b: int, c: int, d: int| #[trigger]
                four_new(lists(old(self).blocks@), lists(self.blocks@), a, b, c, d);
            assert(four_new(old(self).stored(), self.stored(), a, b, c, d));
        }
        assert(self.blocks() == reversed_blocks(
            old(self).blocks(),
            old(self).block_size(),
            bi as int,
            oi as int,
            bj as int,
            oj as int,
        ));
    }

    /// Writes the sequence to `out`, replacing what was there.
    pub fn collect(&self, out: &mut Vec<u32>)
        ensures
            final(out)@ == self@,
    {
        out.clear();
        let ghost ps = self.pieces();
        let mut i: usize = 0;
        assert(ps.take(0) =~= Seq::empty());
        while i < self.blocks.len()
            invariant
                ps == self.pieces(),
                i <= ps.len(),
                out@ == concat(ps.take(i as int)),
            decreases ps.len() - i,
        {
            proof {
                lemma_concat_around(ps, i as int);
            }
            if self.blocks[i].1 {
                append_reversed(out, &self.blocks[i].0);
            } else {
                append_slice(out, &self.blocks[i].0);
            }
            i = i + 1;
        }
        assert(ps.take(ps.len() as int) =~= ps);
    }

    /// No block is empty or holds more than twice the block length, there are no more
    /// blocks than elements, and the blocks in order are the sequence.
    pub proof fn law_blocks(&self)
        requires
            self.wf(),
        ensures
            forall|i: int|
                0 <= i < self.blocks().len() ==> 0 < (#[trigger] self.blocks()[i]).len() <= 2
                    * self.block_size(),
            self.blocks().len() <= self@.len(),
            concat(self.blocks()) == self@,
    {
        let ps = self.pieces();
        assert forall|i: int| 0 <= i < ps.len() implies 0 < (#[trigger] ps[i]).len() <= 2 * self.b by {
            assert(self.blocks@[i].0@.len() > 0);
        }
        lemma_concat_count(ps);
    }
}

} // verus!
