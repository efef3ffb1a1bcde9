//! Mathematical vocabulary shared by all the range-reversal structures: what a
//! range reversal is, and how it acts on a sequence that is stored in pieces.
use vstd::prelude::*;

verus! {

/// The sequence `s` with the elements of the half-open range `[l, r)` in the
/// opposite order and every other element where it was.
pub open spec fn reversed<T>(s: Seq<T>, l: int, r: int) -> Seq<T> {
    Seq::new(
        s.len(),
        |i: int|
            if l <= i < r {
                s[l + r - 1 - i]
            } else {
                s[i]
            },
    )
}

/// The pieces of `ss`, one after the other.
pub open spec fn concat<T>(ss: Seq<Seq<T>>) -> Seq<T>
    decreases ss.len(),
{
    if ss.len() == 0 {
        Seq::empty()
    } else {
        concat(ss.drop_last()) + ss.last()
    }
}

/// Where piece `i` starts in `concat(ss)`.
pub open spec fn offset<T>(ss: Seq<Seq<T>>, i: int) -> int {
    concat(ss.take(i)).len() as int
}

/// The pieces in the opposite order, each of them reversed.
pub open spec fn flip<T>(ss: Seq<Seq<T>>) -> Seq<Seq<T>> {
    Seq::new(ss.len(), |k: int| ss[ss.len() - 1 - k].reverse())
}

/// The pieces after reversing everything from position `oi` of piece `bi` up to
/// (not including) position `oj` of the later piece `bj`, piece by piece: the two
/// end pieces trade their inner parts and the pieces between them are flipped.
pub open spec fn spliced<T>(ss: Seq<Seq<T>>, bi: int, oi: int, bj: int, oj: int) -> Seq<Seq<T>> {
    Seq::new(
        ss.len(),
        |k: int|
            if k == bi {
                ss[bi].take(oi) + ss[bj].take(oj).reverse()
            } else if k == bj {
                ss[bi].skip(oi).reverse() + ss[bj].skip(oj)
            } else if bi < k < bj {
                ss[bi + bj - k].reverse()
            } else {
                ss[k]
            },
    )
}

pub proof fn lemma_reverse_twice<T>(s: Seq<T>)
    ensures
        s.reverse().reverse() == s,
{
    assert(s.reverse().reverse() =~= s);
}

pub proof fn lemma_reverse_add<T>(a: Seq<T>, b: Seq<T>)
    ensures
        (a + b).reverse() == b.reverse() + a.reverse(),
{
    assert((a + b).reverse() =~= b.reverse() + a.reverse());
}

pub proof fn lemma_reversed_middle<T>(x: Seq<T>, y: Seq<T>, z: Seq<T>)
    ensures
        reversed(x + y + z, x.len() as int, (x.len() + y.len()) as int) == x + y.reverse() + z,
{
    assert(reversed(x + y + z, x.len() as int, (x.len() + y.len()) as int) =~= x + y.reverse() + z);
}

pub proof fn lemma_concat_one<T>(x: Seq<T>)
    ensures
        concat(seq![x]) == x,
{
    assert(seq![x].drop_last() =~= Seq::<Seq<T>>::empty());
    assert(concat(seq![x]) == concat(Seq::<Seq<T>>::empty()) + x);
    assert(concat(seq![x]) =~= x);
}

pub proof fn lemma_concat_add<T>(a: Seq<Seq<T>>, b: Seq<Seq<T>>)
    ensures
        concat(a + b) == concat(a) + concat(b),
    decreases b.len(),
{
    if b.len() == 0 {
        assert(a + b =~= a);
        assert(concat(a) + concat(b) =~= concat(a));
    } else {
        assert((a + b).drop_last() =~= a + b.drop_last());
        lemma_concat_add(a, b.drop_last());
        assert(concat(a + b) =~= concat(a) + concat(b));
    }
}

/// Cutting the pieces around piece `i`.
pub proof fn lemma_concat_around<T>(ss: Seq<Seq<T>>, i: int)
    requires
        0 <= i < ss.len(),
    ensures
        concat(ss) == concat(ss.take(i)) + ss[i] + concat(ss.skip(i + 1)),
        offset(ss, i + 1) == offset(ss, i) + ss[i].len(),
        offset(ss, i) + ss[i].len() <= concat(ss).len(),
        concat(ss.take(i + 1)) == concat(ss.take(i)) + ss[i],
{
    assert(ss =~= ss.take(i + 1) + ss.skip(i + 1));
    lemma_concat_add(ss.take(i + 1), ss.skip(i + 1));
    assert(ss.take(i + 1).drop_last() =~= ss.take(i));
}

pub proof fn lemma_concat_cut<T>(ss: Seq<Seq<T>>, i: int)
    requires
        0 <= i <= ss.len(),
    ensures
        concat(ss) == concat(ss.take(i)) + concat(ss.skip(i)),
        offset(ss, i) <= concat(ss).len(),
{
    assert(ss =~= ss.take(i) + ss.skip(i));
    lemma_concat_add(ss.take(i), ss.skip(i));
}

pub proof fn lemma_offset_monotone<T>(ss: Seq<Seq<T>>, i: int, j: int)
    requires
        0 <= i <= j <= ss.len(),
    ensures
        offset(ss, i) <= offset(ss, j) <= concat(ss).len(),
    decreases j - i,
{
    lemma_concat_cut(ss, j);
    if i < j {
        lemma_concat_around(ss, j - 1);
        lemma_offset_monotone(ss, i, j - 1);
    }
}

pub proof fn lemma_concat_flip<T>(ss: Seq<Seq<T>>)
    ensures
        concat(flip(ss)) == concat(ss).reverse(),
    decreases ss.len(),
{
    if ss.len() == 0 {
        assert(flip(ss) =~= Seq::empty());
        assert(concat(ss).reverse() =~= Seq::empty());
    } else {
        let front = ss.drop_last();
        lemma_concat_flip(front);
        assert(flip(ss) =~= seq![ss.last().reverse()] + flip(front));
        lemma_concat_add(seq![ss.last().reverse()], flip(front));
        lemma_concat_one(ss.last().reverse());
        lemma_reverse_add(concat(front), ss.last());
    }
}

/// Non-empty pieces are no more numerous than the elements they hold.
pub proof fn lemma_concat_count<T>(ss: Seq<Seq<T>>)
    requires
        forall|i: int| 0 <= i < ss.len() ==> #[trigger] ss[i].len() > 0,
    ensures
        ss.len() <= concat(ss).len(),
    decreases ss.len(),
{
    if ss.len() > 0 {
        assert forall|i: int| 0 <= i < ss.drop_last().len() implies #[trigger] ss.drop_last()[i].len() > 0 by {
            assert(ss[i].len() > 0);
        }
        lemma_concat_count(ss.drop_last());
        assert(ss[ss.len() - 1].len() > 0);
    }
}

/// Reversing piecewise reverses the range of the whole sequence.
#[verifier::rlimit(40)]
pub proof fn lemma_spliced<T>(ss: Seq<Seq<T>>, bi: int, oi: int, bj: int, oj: int)
    requires
        0 <= bi < bj < ss.len(),
        0 <= oi <= ss[bi].len(),
        0 <= oj <= ss[bj].len(),
    ensures
        concat(spliced(ss, bi, oi, bj, oj)) == reversed(
            concat(ss),
            offset(ss, bi) + oi,
            offset(ss, bj) + oj,
        ),
        offset(ss, bi) + oi <= offset(ss, bj) + oj <= concat(ss).len(),
{
    let a = ss.take(bi);
    let p = ss[bi].take(oi);
    let l = ss[bi].skip(oi);
    let m = ss.subrange(bi + 1, bj);
    let r = ss[bj].take(oj);
    let t = ss[bj].skip(oj);
    let z = ss.skip(bj + 1);
    let (ca, cm, cz) = (concat(a), concat(m), concat(z));
    // the old pieces
    assert(ss[bi] =~= p + l);
    assert(ss[bj] =~= r + t);
    assert(ss =~= a + seq![p + l] + m + seq![r + t] + z);
    lemma_concat_add(a, seq![p + l]);
    lemma_concat_add(a + seq![p + l], m);
    lemma_concat_add(a + seq![p + l] + m, seq![r + t]);
    lemma_concat_add(a + seq![p + l] + m + seq![r + t], z);
    lemma_concat_one(p + l);
    lemma_concat_one(r + t);
    assert(concat(ss) == ca + (p + l) + cm + (r + t) + cz);
    let x = ca + p;
    let y = l + cm + r;
    let w = t + cz;
    assert(concat(ss) =~= x + y + w);
    // the two offsets
    assert(ss.take(bj) =~= a + seq![p + l] + m);
    assert(offset(ss, bj) == ca.len() + p.len() + l.len() + cm.len());
    // the new pieces
    let n = spliced(ss, bi, oi, bj, oj);
    let ni = p + r.reverse();
    let nj = l.reverse() + t;
    assert(n =~= a + seq![ni] + flip(m) + seq![nj] + z) by {
        let q = a + seq![ni] + flip(m) + seq![nj] + z;
        assert(n.len() == q.len());
        assert forall|k: int| 0 <= k < n.len() implies n[k] == q[k] by {
            if bi < k < bj {
                assert(q[k] == flip(m)[k - bi - 1]);
                assert(m[m.len() - 1 - (k - bi - 1)] == ss[bi + bj - k]);
            }
        }
    }
    lemma_concat_add(a, seq![ni]);
    lemma_concat_add(a + seq![ni], flip(m));
    lemma_concat_add(a + seq![ni] + flip(m), seq![nj]);
    lemma_concat_add(a + seq![ni] + flip(m) + seq![nj], z);
    lemma_concat_one(ni);
    lemma_concat_one(nj);
    lemma_concat_flip(m);
    assert(concat(n) == ca + ni + cm.reverse() + nj + cz);
    lemma_reverse_add(l + cm, r);
    lemma_reverse_add(l, cm);
    assert(concat(n) =~= x + y.reverse() + w);
    lemma_reversed_middle(x, y, w);
}

/// Replacing one piece by another with a reversed stretch inside it reverses
/// that stretch of the whole.
pub proof fn lemma_reversed_inside<T>(ss: Seq<Seq<T>>, i: int, l: int, r: int)
    requires
        0 <= i < ss.len(),
        0 <= l <= r <= ss[i].len(),
    ensures
        concat(ss.update(i, reversed(ss[i], l, r))) == reversed(
            concat(ss),
            offset(ss, i) + l,
            offset(ss, i) + r,
        ),
{
    let n = ss.update(i, reversed(ss[i], l, r));
    lemma_concat_around(ss, i);
    lemma_concat_around(n, i);
    assert(n.take(i) =~= ss.take(i));
    assert(n.skip(i + 1) =~= ss.skip(i + 1));
    assert(concat(n) =~= reversed(concat(ss), offset(ss, i) + l, offset(ss, i) + r));
}

/// Cutting piece `i` in two changes nothing of the whole.
pub proof fn lemma_concat_split_piece<T>(ss: Seq<Seq<T>>, i: int, at: int)
    requires
        0 <= i < ss.len(),
        0 <= at <= ss[i].len(),
    ensures
        concat(ss.update(i, ss[i].take(at)).insert(i + 1, ss[i].skip(at))) == concat(ss),
{
    let n = ss.update(i, ss[i].take(at)).insert(i + 1, ss[i].skip(at));
    lemma_concat_around(ss, i);
    lemma_concat_around(n, i + 1);
    lemma_concat_around(n, i);
    assert(n.take(i) =~= ss.take(i));
    assert(n.skip(i + 2) =~= ss.skip(i + 1));
    assert(ss[i] =~= ss[i].take(at) + ss[i].skip(at));
    assert(concat(n) =~= concat(ss));
}

/// Joining pieces `i` and `i + 1` changes nothing of the whole.
pub proof fn lemma_concat_join_pieces<T>(ss: Seq<Seq<T>>, i: int)
    requires
        0 <= i,
        i + 1 < ss.len(),
    ensures
        concat(ss.update(i, ss[i] + ss[i + 1]).remove(i + 1)) == concat(ss),
{
    let n = ss.update(i, ss[i] + ss[i + 1]).remove(i + 1);
    lemma_concat_around(ss, i + 1);
    lemma_concat_around(ss, i);
    lemma_concat_around(n, i);
    assert(n.take(i) =~= ss.take(i));
    assert(n.skip(i + 1) =~= ss.skip(i + 2));
    assert(concat(n) =~= concat(ss));
}

/// Each element of a concatenation has only one place in the pieces.
pub proof fn lemma_locate_unique<T>(ss: Seq<Seq<T>>, i: int, a: int, j: int, b: int)
    requires
        0 <= i < ss.len(),
        0 <= a < ss[i].len(),
        0 <= j < ss.len(),
        0 <= b < ss[j].len(),
        offset(ss, i) + a == offset(ss, j) + b,
    ensures
        i == j,
        a == b,
{
    if i < j {
        lemma_offset_monotone(ss, i + 1, j);
        lemma_concat_around(ss, i);
    } else if j < i {
        lemma_offset_monotone(ss, j + 1, i);
        lemma_concat_around(ss, j);
    }
}

/// The concatenation of each piece of a list of lists of pieces.
pub open spec fn concat_each<T>(gs: Seq<Seq<Seq<T>>>) -> Seq<Seq<T>> {
    Seq::new(gs.len(), |o: int| concat(gs[o]))
}

/// Pieces of the same lengths have together the same length.
pub proof fn lemma_concat_lens<T>(ss: Seq<Seq<T>>, tt: Seq<Seq<T>>)
    requires
        ss.len() == tt.len(),
        forall|i: int| 0 <= i < ss.len() ==> (#[trigger] ss[i]).len() == tt[i].len(),
    ensures
        concat(ss).len() == concat(tt).len(),
    decreases ss.len(),
{
    if ss.len() > 0 {
        lemma_concat_lens(ss.drop_last(), tt.drop_last());
        assert(ss[ss.len() - 1].len() == tt[ss.len() - 1].len());
    }
}

/// Joining the lists first or the pieces first makes no difference.
pub proof fn lemma_concat_concat<T>(gs: Seq<Seq<Seq<T>>>)
    ensures
        concat(concat(gs)) == concat(concat_each(gs)),
    decreases gs.len(),
{
    if gs.len() > 0 {
        lemma_concat_concat(gs.drop_last());
        lemma_concat_add(concat(gs.drop_last()), gs.last());
        assert(concat_each(gs).drop_last() =~= concat_each(gs.drop_last()));
    }
}

/// Where piece `q` of list `o` starts, counted in lists or in pieces.
pub proof fn lemma_offset_two_levels<T>(gs: Seq<Seq<Seq<T>>>, o: int, q: int)
    requires
        0 <= o < gs.len(),
        0 <= q <= gs[o].len(),
    ensures
        0 <= offset(gs, o) + q <= concat(gs).len(),
        q < gs[o].len() ==> offset(gs, o) + q < concat(gs).len() && concat(gs)[offset(gs, o) + q]
            == gs[o][q],
        offset(concat(gs), offset(gs, o) + q) == offset(concat_each(gs), o) + offset(gs[o], q),
{
    let flat = concat(gs);
    lemma_concat_around(gs, o);
    let x = concat(gs.take(o));
    let i = offset(gs, o) + q;
    assert(flat.take(i) =~= x + gs[o].take(q));
    lemma_concat_add(x, gs[o].take(q));
    lemma_concat_concat(gs.take(o));
    assert(concat_each(gs.take(o)) =~= concat_each(gs).take(o));
}

} // verus!
