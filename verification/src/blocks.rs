//! What the block structures share: the choice of a block length and the copying
//! of stretches of a vector.
use vstd::prelude::*;

verus! {

use crate::seqs::{concat, offset, reversed, spliced};
use crate::seqs::{
    lemma_concat_add,
    lemma_concat_around,
    lemma_concat_count,
    lemma_concat_join_pieces,
    lemma_concat_one,
    lemma_concat_split_piece,
    lemma_locate_unique,
    lemma_offset_monotone,
    lemma_reversed_inside,
    lemma_spliced,
};

/// `b` is twice the square root of `n`, rounded down, and kept within 64 and 1024.
pub open spec fn is_auto_block(n: int, b: int) -> bool {
    &&& 64 <= b <= 1024
    &&& b > 64 ==> b * b <= 4 * n
    &&& b < 1024 ==> 4 * n < (b + 1) * (b + 1)
}

/// `b` is the block length for `n` elements when `requested` is asked for and
/// zero leaves the choice open.
pub open spec fn is_block_size(n: int, requested: int, b: int) -> bool {
    if requested != 0 {
        b == requested
    } else {
        is_auto_block(n, b)
    }
}

/// Block `i` is cut in two before its element `at`.
pub open spec fn cut_block<T>(ps: Seq<Seq<T>>, i: int, at: int) -> Seq<Seq<T>> {
    ps.update(i, ps[i].take(at)).insert(i + 1, ps[i].skip(at))
}

/// Block `i + 1` is appended to block `i`.
pub open spec fn joined<T>(ps: Seq<Seq<T>>, i: int) -> Seq<Seq<T>> {
    ps.update(i, ps[i] + ps[i + 1]).remove(i + 1)
}

/// Which block the next one is to be appended to, so that block `i`, which has fewer
/// than `few` elements, is joined with the block before it or else the block after
/// it, where the two have no more than `many`; -1 if there is none.
pub open spec fn merge_at<T>(ps: Seq<Seq<T>>, i: int, few: int, many: int) -> int {
    if ps[i].len() >= few {
        -1
    } else if i > 0 && ps[i - 1].len() + ps[i].len() <= many {
        i - 1
    } else if i + 1 < ps.len() && ps[i].len() + ps[i + 1].len() <= many {
        i
    } else {
        -1
    }
}

/// Block `i` is merged with a neighbour if it has fewer than `few` elements and the
/// two have no more than `many`.
pub open spec fn merged<T>(ps: Seq<Seq<T>>, i: int, few: int, many: int) -> Seq<Seq<T>> {
    let j = merge_at(ps, i, few, many);
    if j < 0 {
        ps
    } else {
        joined(ps, j)
    }
}

/// Block `i` is cut in half if it has more than twice the block length `b`, and merged
/// with a neighbour if it has less than half of it.
pub open spec fn rebalanced<T>(ps: Seq<Seq<T>>, i: int, b: int) -> Seq<Seq<T>> {
    if ps[i].len() > 2 * b {
        cut_block(ps, i, ps[i].len() as int / 2)
    } else {
        merged(ps, i, b / 2, 2 * b)
    }
}

/// Element `k` of the sequence is element `off` of block `i`.
pub open spec fn located<T>(ps: Seq<Seq<T>>, i: int, off: int, k: int) -> bool {
    &&& 0 <= i < ps.len()
    &&& 0 <= off < ps[i].len()
    &&& offset(ps, i) + off == k
}

/// The blocks after reversing from element `oi` of block `bi` to element `oj` of block
/// `bj`. Within a block, the elements are reversed. Otherwise the end blocks trade
/// their inner parts, the blocks between them are turned over, and both end blocks
/// are rebalanced, the later one first.
pub open spec fn reversed_blocks<T>(ps: Seq<Seq<T>>, b: int, bi: int, oi: int, bj: int, oj: int) -> Seq<Seq<T>> {
    if bi == bj {
        ps.update(bi, reversed(ps[bi], oi, oj + 1))
    } else {
        rebalanced(rebalanced(spliced(ps, bi, oi, bj, oj + 1), bj, b), bi, b)
    }
}

/// The block of element `k` and its position there; the first position of the first
/// block for a `k` past the end.
pub open spec fn found<T>(ps: Seq<Seq<T>>, k: int) -> (int, int) {
    if 0 <= k < concat(ps).len() {
        choose|at: (int, int)| #[trigger] located(ps, at.0, at.1, k)
    } else {
        (0, 0)
    }
}

/// The position that `k` stands for among `n` elements: the first one if `k` is past
/// the end.
pub open spec fn position(k: int, n: int) -> int {
    if k < n {
        k
    } else {
        0
    }
}

/// A reversal from `l` to `r` can be carried out on the blocks: the end that is found
/// for `r` is not before that for `l`, unless right before it in the same block, where
/// nothing is reversed.
pub open spec fn reversible<T>(ps: Seq<Seq<T>>, l: int, r: int) -> bool {
    let (bi, oi) = found(ps, l);
    let (bj, oj) = found(ps, r);
    ps.len() > 0 && (bi < bj || (bi == bj && oi <= oj + 1))
}

/// The blocks after a reversal from `l` to `r`.
pub open spec fn after_reversal<T>(ps: Seq<Seq<T>>, b: int, l: int, r: int) -> Seq<Seq<T>> {
    let (bi, oi) = found(ps, l);
    let (bj, oj) = found(ps, r);
    reversed_blocks(ps, b, bi, oi, bj, oj)
}

/// The largest number of blocks while a reversal from `l` to `r` is carried out.
pub open spec fn most_blocks<T>(ps: Seq<Seq<T>>, b: int, l: int, r: int) -> int {
    let (bi, oi) = found(ps, l);
    let (bj, oj) = found(ps, r);
    if bi == bj {
        ps.len() as int
    } else {
        let traded = spliced(ps, bi, oi, bj, oj + 1);
        let half = rebalanced(traded, bj, b);
        let full = rebalanced(half, bi, b);
        vstd::math::max(ps.len() as int, vstd::math::max(half.len() as int, full.len() as int))
    }
}

/// The elements are cut into blocks of `b`, of which the last one may be shorter.
pub open spec fn chunked<T>(ps: Seq<Seq<T>>, b: int) -> bool {
    forall|i: int|
        0 <= i < ps.len() ==> 0 < (#[trigger] ps[i]).len() <= b && (i + 1 < ps.len() ==> ps[i].len() == b)
}

/// An element is in one place only.
pub proof fn lemma_found<T>(ps: Seq<Seq<T>>, i: int, off: int, k: int)
    requires
        located(ps, i, off, k),
    ensures
        found(ps, k) == (i, off),
        0 <= k < concat(ps).len(),
{
    lemma_concat_around(ps, i);
    lemma_offset_monotone(ps, 0, i);
    assert(located(ps, (i, off).0, (i, off).1, k));
    let at = found(ps, k);
    assert(located(ps, at.0, at.1, k));
    lemma_locate_unique(ps, i, off, at.0, at.1);
}

/// Every element is somewhere.
pub proof fn lemma_located<T>(ps: Seq<Seq<T>>, k: int)
    requires
        0 <= k < concat(ps).len(),
    ensures
        located(ps, found(ps, k).0, found(ps, k).1, k),
    decreases ps.len(),
{
    let n = ps.len() - 1;
    let q = ps.drop_last();
    lemma_concat_around(ps, n);
    assert(ps.take(n) =~= q);
    assert(ps.skip(n + 1) =~= Seq::empty());
    if k < concat(q).len() {
        lemma_located(q, k);
        let (i, off) = found(q, k);
        assert(ps.take(i) =~= q.take(i));
        lemma_found(ps, i, off, k);
    } else {
        lemma_found(ps, n, k - concat(q).len(), k);
    }
}

/// A position past the end is found at the first element.
pub proof fn lemma_found_position<T>(ps: Seq<Seq<T>>, k: int)
    requires
        ps.len() > 0,
        forall|i: int| 0 <= i < ps.len() ==> (#[trigger] ps[i]).len() > 0,
        0 <= k,
    ensures
        found(ps, k) == found(ps, position(k, concat(ps).len() as int)),
        located(ps, found(ps, k).0, found(ps, k).1, position(k, concat(ps).len() as int)),
{
    lemma_concat_count(ps);
    let p = position(k, concat(ps).len() as int);
    lemma_located(ps, p);
    if p != k {
        assert(ps[0].len() > 0);
        assert(ps.take(0) =~= Seq::empty());
        lemma_found(ps, 0, 0, 0);
    }
}

/// Places in the order of the elements.
pub proof fn lemma_found_order<T>(ps: Seq<Seq<T>>, l: int, r: int)
    requires
        0 <= l <= r < concat(ps).len(),
    ensures
        found(ps, l).0 < found(ps, r).0 || (found(ps, l).0 == found(ps, r).0 && found(ps, l).1 <= found(ps, r).1),
        reversible(ps, l, r),
{
    lemma_located(ps, l);
    lemma_located(ps, r);
    let (bi, bj) = (found(ps, l).0, found(ps, r).0);
    if bj < bi {
        lemma_offset_monotone(ps, bj + 1, bi);
        lemma_concat_around(ps, bj);
    }
}

/// Rebalancing a block keeps the elements, adds one block at most, and leaves no block
/// empty.
pub proof fn lemma_rebalanced<T>(ps: Seq<Seq<T>>, i: int, b: int)
    requires
        0 <= i < ps.len(),
        b > 0,
        forall|k: int| 0 <= k < ps.len() ==> (#[trigger] ps[k]).len() > 0,
    ensures
        concat(rebalanced(ps, i, b)) == concat(ps),
        ps.len() - 1 <= rebalanced(ps, i, b).len() <= ps.len() + 1,
        rebalanced(ps, i, b).len() == ps.len() + 1 <==> ps[i].len() > 2 * b,
        forall|k: int| 0 <= k < rebalanced(ps, i, b).len() ==> (#[trigger] rebalanced(ps, i, b)[k]).len() > 0,
{
    let n = rebalanced(ps, i, b);
    if ps[i].len() > 2 * b {
        lemma_concat_split_piece(ps, i, ps[i].len() as int / 2);
        assert forall|k: int| 0 <= k < n.len() implies (#[trigger] n[k]).len() > 0 by {
            if k < i {
                assert(n[k] == ps[k]);
            } else if k > i + 1 {
                assert(n[k] == ps[k - 1]);
            }
        }
    } else {
        let j = merge_at(ps, i, b / 2, 2 * b);
        if j >= 0 {
            lemma_concat_join_pieces(ps, j);
            assert forall|k: int| 0 <= k < n.len() implies (#[trigger] n[k]).len() > 0 by {
                if k < j {
                    assert(n[k] == ps[k]);
                } else if k > j {
                    assert(n[k] == ps[k + 1]);
                } else {
                    assert(ps[j].len() > 0);
                }
            }
        }
    }
}

/// The blocks in the middle of a reversal: none is empty, and block `bi` stays where it
/// is, but may have become longer, while the later end block is rebalanced.
pub proof fn lemma_traded<T>(ps: Seq<Seq<T>>, b: int, bi: int, oi: int, bj: int, oj: int)
    requires
        b > 0,
        0 <= bi < bj < ps.len(),
        0 <= oi < ps[bi].len(),
        0 <= oj < ps[bj].len(),
        forall|k: int| 0 <= k < ps.len() ==> (#[trigger] ps[k]).len() > 0,
    ensures
        ({
            let t = spliced(ps, bi, oi, bj, oj + 1);
            let h = rebalanced(t, bj, b);
            &&& forall|k: int| 0 <= k < t.len() ==> (#[trigger] t[k]).len() > 0
            &&& t.len() == ps.len()
            &&& t[bi].len() == oi + oj + 1
            &&& t[bj].len() == ps[bi].len() - oi + ps[bj].len() - oj - 1
            &&& bi < h.len()
            &&& h.len() >= ps.len() ==> h[bi] == t[bi]
        }),
{
    let t = spliced(ps, bi, oi, bj, oj + 1);
    assert(ps[bi].len() > 0 && ps[bj].len() > 0);
    assert forall|k: int| 0 <= k < t.len() implies (#[trigger] t[k]).len() > 0 by {
        if bi < k < bj {
            assert(ps[bi + bj - k].len() > 0);
        } else if k != bi && k != bj {
            assert(ps[k].len() > 0);
        }
    }
    lemma_rebalanced(t, bj, b);
}

/// What a reversal does to the elements, and how many blocks it takes.
pub proof fn lemma_reversal<T>(ps: Seq<Seq<T>>, b: int, l: int, r: int)
    requires
        b > 0,
        0 <= l,
        0 <= r,
        reversible(ps, l, r),
        forall|i: int| 0 <= i < ps.len() ==> 0 < (#[trigger] ps[i]).len(),
    ensures
        ({
            let n = concat(ps).len() as int;
            &&& concat(after_reversal(ps, b, l, r)) == reversed(concat(ps), position(l, n), position(r, n) + 1)
            &&& position(l, n) <= position(r, n) + 1 <= n
        }),
        forall|i: int|
            0 <= i < after_reversal(ps, b, l, r).len() ==> (#[trigger] after_reversal(ps, b, l, r)[i]).len() > 0,
        most_blocks(ps, b, l, r) <= concat(ps).len(),
        (forall|i: int| 0 <= i < ps.len() ==> (#[trigger] ps[i]).len() <= 2 * b) ==> most_blocks(ps, b, l, r)
            <= ps.len() + 1,
{
    let n = concat(ps).len() as int;
    let (bi, oi) = found(ps, l);
    let (bj, oj) = found(ps, r);
    assert forall|i: int| 0 <= i < ps.len() implies #[trigger] ps[i].len() > 0 by {}
    lemma_found_position(ps, l);
    lemma_found_position(ps, r);
    lemma_concat_count(ps);
    if bi == bj {
        lemma_reversed_inside(ps, bi, oi, oj + 1);
        lemma_concat_around(ps, bi);
    } else {
        let t = spliced(ps, bi, oi, bj, oj + 1);
        let h = rebalanced(t, bj, b);
        let f = rebalanced(h, bi, b);
        lemma_traded(ps, b, bi, oi, bj, oj);
        lemma_spliced(ps, bi, oi, bj, oj + 1);
        lemma_rebalanced(t, bj, b);
        lemma_rebalanced(h, bi, b);
        assert forall|i: int| 0 <= i < h.len() implies #[trigger] h[i].len() > 0 by {}
        assert forall|i: int| 0 <= i < f.len() implies #[trigger] f[i].len() > 0 by {}
        lemma_concat_count(h);
        lemma_concat_count(f);
        if forall|i: int| 0 <= i < ps.len() ==> (#[trigger] ps[i]).len() <= 2 * b {
            assert(ps[bi].len() <= 2 * b && ps[bj].len() <= 2 * b);
        }
    }
}

/// The elements of `s` cut into blocks of `b`, of which the last one may be shorter.
pub open spec fn chunks<T>(s: Seq<T>, b: int) -> Seq<Seq<T>>
    decreases s.len(),
{
    if s.len() == 0 || b <= 0 {
        Seq::empty()
    } else if s.len() <= b {
        seq![s]
    } else {
        seq![s.take(b)] + chunks(s.skip(b), b)
    }
}

pub proof fn lemma_chunks<T>(s: Seq<T>, b: int)
    requires
        b > 0,
    ensures
        chunked(chunks(s, b), b),
        concat(chunks(s, b)) == s,
    decreases s.len(),
{
    let ps = chunks(s, b);
    if s.len() == 0 {
        assert(concat(ps) =~= s);
    } else if s.len() <= b {
        lemma_concat_one(s);
    } else {
        let rest = chunks(s.skip(b), b);
        lemma_chunks(s.skip(b), b);
        lemma_concat_add(seq![s.take(b)], rest);
        lemma_concat_one(s.take(b));
        assert(concat(ps) =~= s);
        assert forall|i: int| 0 <= i < ps.len() implies 0 < (#[trigger] ps[i]).len() <= b && (i + 1 < ps.len()
            ==> ps[i].len() == b) by {
            if i > 0 {
                assert(ps[i] == rest[i - 1]);
            }
        }
    }
}

/// There is a block length for every number of elements.
pub proof fn lemma_auto_block(n: int, b: int) -> (c: int)
    requires
        64 <= b <= 1024,
        b > 64 ==> b * b <= 4 * n,
    ensures
        is_auto_block(n, c),
    decreases 1024 - b,
{
    if b < 1024 && (b + 1) * (b + 1) <= 4 * n {
        lemma_auto_block(n, b + 1)
    } else {
        b
    }
}

/// Cutting a sequence into blocks of `b` gives one list only.
pub proof fn lemma_chunked_once<T>(ps: Seq<Seq<T>>, qs: Seq<Seq<T>>, b: int)
    requires
        chunked(ps, b),
        chunked(qs, b),
        concat(ps) == concat(qs),
    ensures
        ps == qs,
    decreases ps.len(),
{
    if ps.len() == 0 {
        if qs.len() > 0 {
            assert(qs[0].len() > 0);
            lemma_concat_around(qs, 0);
        }
        assert(ps =~= qs);
    } else {
        assert(ps[0].len() > 0);
        lemma_concat_around(ps, 0);
        if qs.len() > 0 {
            assert(qs[0].len() > 0);
            lemma_concat_around(qs, 0);
        }
        if qs.len() > 1 {
            assert(qs[1].len() > 0);
            lemma_concat_around(qs, 1);
        }
        if ps.len() > 1 {
            assert(ps[1].len() > 0);
            lemma_concat_around(ps, 1);
        }
        assert(ps.take(0) =~= Seq::empty());
        assert(qs.take(0) =~= Seq::empty());
        let (p1, q1) = (ps.skip(1), qs.skip(1));
        let s = concat(ps);
        assert(s == ps[0] + concat(p1)) by {
            assert(concat(ps.take(0)) + ps[0] =~= ps[0]);
        }
        assert(s == qs[0] + concat(q1)) by {
            assert(concat(qs.take(0)) + qs[0] =~= qs[0]);
        }
        assert(ps[0].len() == qs[0].len());
        assert(ps[0] =~= s.take(ps[0].len() as int));
        assert(qs[0] =~= s.take(qs[0].len() as int));
        assert(concat(p1) =~= s.skip(ps[0].len() as int));
        assert(concat(q1) =~= s.skip(qs[0].len() as int));
        assert(chunked(p1, b)) by {
            assert forall|i: int| 0 <= i < p1.len() implies 0 < (#[trigger] p1[i]).len() <= b && (i + 1 < p1.len()
                ==> p1[i].len() == b) by {
                assert(p1[i] == ps[i + 1]);
            }
        }
        assert(chunked(q1, b)) by {
            assert forall|i: int| 0 <= i < q1.len() implies 0 < (#[trigger] q1[i]).len() <= b && (i + 1 < q1.len()
                ==> q1[i].len() == b) by {
                assert(q1[i] == qs[i + 1]);
            }
        }
        lemma_chunked_once(p1, q1, b);
        assert(ps =~= seq![ps[0]] + p1);
        assert(qs =~= seq![qs[0]] + q1);
    }
}

/// The block length that suits `n` elements.
pub fn auto_block(n: usize) -> (b: u32)
    ensures
        is_auto_block(n as int, b as int),
{
    let four: u128 = 4 * (n as u128);
    let mut b: u32 = 64;
    let mut next: u128 = 65 * 65;
    while b < 1024 && next <= four
        invariant
            64 <= b <= 1024,
            four == 4 * n,
            b > 64 ==> b * b <= 4 * n,
            next == (b + 1) * (b + 1),
        decreases 1024 - b,
    {
        assert((b + 2) * (b + 2) == (b + 1) * (b + 1) + 2 * b + 3) by (nonlinear_arith);
        assert((b + 1) * (b + 1) <= 1025 * 1025) by (nonlinear_arith)
            requires
                b < 1024,
        ;
        next = next + 2 * (b as u128) + 3;
        b = b + 1;
    }
    b
}

/// The block length for `n` elements: `requested`, or the fitting one when
/// `requested` is zero.
pub fn choose_block(n: usize, requested: u32) -> (b: u32)
    ensures
        is_block_size(n as int, requested as int, b as int),
        b > 0,
{
    if requested != 0 {
        requested
    } else {
        auto_block(n)
    }
}

/// Appends the elements of `s` to `v`.
pub fn append_slice(v: &mut Vec<u32>, s: &[u32])
    ensures
        final(v)@ == old(v)@ + s@,
{
    v.extend_from_slice(s);
    assert(v@ =~= old(v)@ + s@);
}

/// Appends the elements of `s` to `v`, last one first.
pub fn append_reversed(v: &mut Vec<u32>, s: &[u32])
    ensures
        final(v)@ == old(v)@ + s@.reverse(),
{
    let mut i: usize = s.len();
    while i > 0
        invariant
            i <= s@.len(),
            v@ == old(v)@ + s@.reverse().take(s@.len() - i),
        decreases i,
    {
        i = i - 1;
        v.push(s[i]);
        assert(s@.reverse().take(s@.len() - i) =~= s@.reverse().take(s@.len() - i - 1).push(s@[i as int]));
    }
    assert(s@.reverse().take(s@.len() as int) =~= s@.reverse());
}

/// A copy of `s[l..r]`.
pub fn copy_range(s: &[u32], l: usize, r: usize) -> (v: Vec<u32>)
    requires
        l <= r <= s@.len(),
    ensures
        v@ == s@.subrange(l as int, r as int),
{
    vstd::slice::slice_to_vec(vstd::slice::slice_subrange(s, l, r))
}

} // verus!
