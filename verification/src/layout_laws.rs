//! What holds of the small parts that the structures are made of: descriptors, words of
//! bytes and bits, block lengths, and the places of elements in blocks.
use vstd::arithmetic::power2::pow2;
use vstd::prelude::*;

verus! {

use crate::blocks::{
    after_reversal,
    chunked,
    found,
    is_auto_block,
    is_block_size,
    merged,
    most_blocks,
    position,
    rebalanced,
    reversible,
};
use crate::blocks::{lemma_found_position, lemma_located, lemma_reversal};
use crate::arena::{four_rewritten, kept};
use crate::desc::{contents_turned, flagged, order_turned, sid_of, slot_of, XMASK};
use crate::lanes::{bit, nibbles};
use crate::seqs::concat;
use crate::seqs::{lemma_concat_around, lemma_offset_monotone};
use crate::splay::balanced;
use crate::sqrt::four_new;
use crate::superblock::{MAX_LEN, W};
use crate::swar::bytes_of;
use crate::tree::Tree;

/// A block descriptor is its slot number and the flag above it.
pub proof fn law_block_descriptor(d: u32)
    ensures
        0 <= slot_of(d) < 0x8000_0000,
        d == slot_of(d) + if flagged(d) {
            0x8000_0000int
        } else {
            0
        },
{
    assert(d & 0x7fff_ffff < 0x8000_0000 && d == (d & 0x7fff_ffff) + (if d & 0x8000_0000 != 0 {
        0x8000_0000u32
    } else {
        0
    })) by (bit_vector);
}

/// A superblock descriptor is its number and the two flags above it.
pub proof fn law_superblock_descriptor(d: u32)
    ensures
        0 <= sid_of(d) < 0x4000_0000,
        d == sid_of(d) + (if order_turned(d) {
            0x4000_0000int
        } else {
            0
        }) + if contents_turned(d) {
            0x8000_0000int
        } else {
            0
        },
{
    assert(d & 0x3fff_ffff < 0x4000_0000 && d == (d & 0x3fff_ffff) + (if d & 0x4000_0000 != 0 {
        0x4000_0000u32
    } else {
        0
    }) + (if d & 0x8000_0000 != 0 {
        0x8000_0000u32
    } else {
        0
    })) by (bit_vector);
}

/// A superblock is made of 64 blocks, and superblock numbers have 30 bits.
pub proof fn law_superblock_width()
    ensures
        W == 64,
        MAX_LEN == 1 + XMASK,
{
}

/// Where only four slots of an arena are rewritten, any five slots hold at least one that
/// was there before and is what it was; and where only four lists are new, any five lists
/// hold at least one of the lists before.
pub proof fn law_four_of_five(
    p: Seq<Seq<u32>>,
    q: Seq<Seq<u32>>,
    a: int,
    b: int,
    c: int,
    d: int,
    five: Seq<int>,
)
    requires
        five.len() == 5,
        five.no_duplicates(),
        forall|i: int| 0 <= i < 5 ==> 0 <= #[trigger] five[i] < q.len(),
    ensures
        four_rewritten(p, q, a, b, c, d) ==> exists|i: int|
            0 <= i < 5 && #[trigger] five[i] < p.len() && q[five[i]] == p[five[i]],
        four_new(p, q, a, b, c, d) ==> exists|i: int| 0 <= i < 5 && p.contains(q[#[trigger] five[i]]),
        four_rewritten(p, q, a, b, c, d) ==> p.len() <= q.len() <= p.len() + 4,
{
    let free = |x: int| x != a && x != b && x != c && x != d;
    let i = lemma_fifth(five, a, b, c, d);
    let x = five[i];
    assert(free(x));
    if four_rewritten(p, q, a, b, c, d) {
        assert(kept(p, q, x));
        if q.len() > p.len() + 4 {
            let n = p.len() as int;
            let ends = seq![n, n + 1, n + 2, n + 3, n + 4];
            let j = lemma_fifth(ends, a, b, c, d);
            assert(kept(p, q, ends[j]));
        }
    }
}

/// Five different numbers hold one that is none of four.
proof fn lemma_fifth(five: Seq<int>, a: int, b: int, c: int, d: int) -> (i: int)
    requires
        five.len() == 5,
        five.no_duplicates(),
    ensures
        0 <= i < 5,
        five[i] != a && five[i] != b && five[i] != c && five[i] != d,
{
    let other = |i: int| five[i] != a && five[i] != b && five[i] != c && five[i] != d;
    if other(0) {
        0
    } else if other(1) {
        1
    } else if other(2) {
        2
    } else if other(3) {
        3
    } else {
        4
    }
}

/// The bits of a word are its binary digits.
pub proof fn law_bits_are_digits(m: u32, j: int)
    requires
        0 <= j < 32,
    ensures
        bit(m, j) == ((m as int / pow2(j as nat) as int) % 2 == 1),
{
    let k = j as u32;
    vstd::bits::lemma_u32_shr_is_div(m, k);
    let h = m >> k;
    assert((h & 1 == 1) == (h % 2 == 1)) by (bit_vector);
}

/// The low half of a byte is its remainder by sixteen.
pub proof fn law_nibbles_are_remainders(s: Seq<u8>, i: int)
    requires
        0 <= i < s.len(),
    ensures
        nibbles(s).len() == s.len(),
        nibbles(s)[i] == s[i] as int % 16,
{
    let c = s[i];
    assert(c & 15 == c % 16) by (bit_vector);
}

/// The bytes of a word are its digits to the base 256, the lowest one first.
pub proof fn law_bytes_are_digits(v: u64)
    ensures
        ({
            let b = bytes_of(v);
            &&& b.len() == 8
            &&& v == b[0] + 0x100 * b[1] + 0x1_0000 * b[2] + 0x100_0000 * b[3] + 0x1_0000_0000 * b[4]
                + 0x100_0000_0000 * b[5] + 0x1_0000_0000_0000 * b[6] + 0x100_0000_0000_0000 * b[7]
        }),
{
    assert(v == ((v & 0xff) as u8) + 0x100 * (((v >> 8) & 0xff) as u8) + 0x1_0000 * (((v >> 16) & 0xff) as u8)
        + 0x100_0000 * (((v >> 24) & 0xff) as u8) + 0x1_0000_0000 * (((v >> 32) & 0xff) as u8) + 0x100_0000_0000 * ((
    (v >> 40) & 0xff) as u8) + 0x1_0000_0000_0000 * (((v >> 48) & 0xff) as u8) + 0x100_0000_0000_0000 * (((v >> 56)
        & 0xff) as u8)) by (bit_vector);
}

/// The block length is twice the square root of the number of elements, rounded down,
/// wherever that is between 64 and 1024, and otherwise the nearer one of these; and it is
/// the length that is asked for, if one is.
pub proof fn law_block_length(n: int, b: int, asked: int)
    requires
        0 <= n,
    ensures
        is_auto_block(n, b) <==> {
            ||| b == 64 && 4 * n < 65 * 65
            ||| 64 < b < 1024 && b * b <= 4 * n < (b + 1) * (b + 1)
            ||| b == 1024 && 1024 * 1024 <= 4 * n
        },
        asked != 0 ==> (is_block_size(n, asked, b) <==> b == asked),
        asked == 0 ==> (is_block_size(n, asked, b) <==> is_auto_block(n, b)),
{
}

/// Cut into blocks of `b`, all blocks but the last have `b` elements, so that there are as
/// many blocks as it takes and none more.
pub proof fn law_number_of_blocks<T>(ps: Seq<Seq<T>>, b: int)
    requires
        chunked(ps, b),
        ps.len() > 0,
        b > 0,
    ensures
        forall|i: int| 0 <= i < ps.len() - 1 ==> (#[trigger] ps[i]).len() == b,
        (ps.len() - 1) * b < concat(ps).len() <= ps.len() * b,
{
    let n = ps.len() - 1;
    assert(0 < ps[n].len() <= b);
    let q = ps.drop_last();
    assert forall|i: int| 0 <= i < q.len() implies (#[trigger] q[i]).len() == b by {
        assert(ps[i].len() == b);
    }
    lemma_equal_blocks(q, b);
    assert(ps.len() * b == n * b + b) by (nonlinear_arith)
        requires
            ps.len() == n + 1,
    ;
}

proof fn lemma_equal_blocks<T>(q: Seq<Seq<T>>, b: int)
    requires
        forall|i: int| 0 <= i < q.len() ==> (#[trigger] q[i]).len() == b,
    ensures
        concat(q).len() == q.len() * b,
    decreases q.len(),
{
    if q.len() > 0 {
        let n = q.len() - 1;
        assert(q[n].len() == b);
        lemma_equal_blocks(q.drop_last(), b);
        assert(q.len() * b == n * b + b) by (nonlinear_arith)
            requires
                q.len() == n + 1,
        ;
    } else {
        assert(0 * b == 0);
    }
}

/// An element is found in the block, and at the place there, where it stands; past the
/// end the first element is found.
pub proof fn law_found_where_it_stands<T>(ps: Seq<Seq<T>>, k: int)
    requires
        ps.len() > 0,
        forall|i: int| 0 <= i < ps.len() ==> (#[trigger] ps[i]).len() > 0,
        0 <= k,
    ensures
        ({
            let n = concat(ps).len() as int;
            let (i, off) = found(ps, k);
            &&& 0 <= i < ps.len()
            &&& 0 <= off < ps[i].len()
            &&& k < n ==> concat(ps.take(i)).len() + off == k && ps[i][off] == concat(ps)[k]
            &&& k >= n ==> i == 0 && off == 0
            &&& k < n ==> position(k, n) == k
            &&& k >= n ==> position(k, n) == 0
        }),
{
    let n = concat(ps).len() as int;
    lemma_found_position(ps, k);
    if k < n {
        lemma_located(ps, k);
        lemma_concat_around(ps, found(ps, k).0);
    }
}

/// A reversal can be carried out if its ends are in order; if the last end is right before
/// the first one, both must be in the same block; and otherwise it cannot be.
pub proof fn law_when_a_reversal_is_carried_out<T>(ps: Seq<Seq<T>>, l: int, r: int)
    requires
        ps.len() > 0,
        forall|i: int| 0 <= i < ps.len() ==> (#[trigger] ps[i]).len() > 0,
        0 <= l < concat(ps).len(),
        0 <= r < concat(ps).len(),
    ensures
        l <= r ==> reversible(ps, l, r),
        l == r + 1 ==> (reversible(ps, l, r) <==> found(ps, l).0 == found(ps, r).0),
        l > r + 1 ==> !reversible(ps, l, r),
{
    lemma_located(ps, l);
    lemma_located(ps, r);
    let (bi, oi) = found(ps, l);
    let (bj, oj) = found(ps, r);
    if bj < bi {
        lemma_offset_monotone(ps, bj + 1, bi);
        lemma_concat_around(ps, bj);
    } else if bi < bj {
        lemma_offset_monotone(ps, bi + 1, bj);
        lemma_concat_around(ps, bi);
    }
}

/// While a reversal is carried out, there are never more blocks than elements, and no fewer
/// than before or after it at the peak.
pub proof fn law_blocks_on_the_way<T>(ps: Seq<Seq<T>>, b: int, l: int, r: int)
    requires
        b > 0,
        0 <= l,
        0 <= r,
        reversible(ps, l, r),
        forall|i: int| 0 <= i < ps.len() ==> (#[trigger] ps[i]).len() > 0,
    ensures
        ps.len() <= most_blocks(ps, b, l, r) <= concat(ps).len(),
        after_reversal(ps, b, l, r).len() <= most_blocks(ps, b, l, r),
        (forall|i: int| 0 <= i < ps.len() ==> (#[trigger] ps[i]).len() <= 2 * b) ==> most_blocks(ps, b, l, r)
            <= ps.len() + 1,
{
    lemma_reversal(ps, b, l, r);
    lemma_found_position(ps, l);
    lemma_found_position(ps, r);
}

/// A block is joined with a neighbour exactly if it has fewer than `few` elements and the
/// two have no more than `many`, with the one before it if that will do; a block of more
/// than twice the block length is halved.
pub proof fn law_small_and_large_blocks<T>(ps: Seq<Seq<T>>, i: int, few: int, many: int, b: int)
    requires
        0 <= i < ps.len(),
        b > 0,
    ensures
        ({
            let small = ps[i].len() < few;
            let left = i > 0 && ps[i - 1].len() + ps[i].len() <= many;
            let right = i + 1 < ps.len() && ps[i].len() + ps[i + 1].len() <= many;
            let n = merged(ps, i, few, many);
            &&& !small || !(left || right) ==> n == ps
            &&& small && left ==> n.len() == ps.len() - 1 && n[i - 1] == ps[i - 1] + ps[i]
            &&& small && !left && right ==> n.len() == ps.len() - 1 && n[i] == ps[i] + ps[i + 1]
        }),
        ({
            let n = rebalanced(ps, i, b);
            &&& ps[i].len() > 2 * b ==> n.len() == ps.len() + 1 && n[i] + n[i + 1] == ps[i] && n[i].len()
                == ps[i].len() / 2
            &&& ps[i].len() <= 2 * b ==> n == merged(ps, i, b / 2, 2 * b)
        }),
{
    if ps[i].len() > 2 * b {
        let n = rebalanced(ps, i, b);
        assert(n[i] + n[i + 1] =~= ps[i]);
    }
}

/// The balanced tree of the nodes from `l` to `r` has the middle one at its root, and as
/// many nodes on the left as on the right, or one more on the right.
pub proof fn law_balanced(l: int, r: int)
    requires
        0 <= l,
        r <= u32::MAX,
    ensures
        l > r ==> balanced(l, r) == Tree::Leaf,
        l <= r ==> {
            let t = balanced(l, r);
            &&& t.root() == (l + r) / 2
            &&& t.left() == balanced(l, t.root() - 1)
            &&& t.right() == balanced(t.root() + 1, r)
            &&& 0 <= t.right().content().len() - t.left().content().len() <= 1
        },
        balanced(l, r).content() == Seq::new(
            (if l <= r {
                r - l + 1
            } else {
                0
            }) as nat,
            |k: int| (l + k) as u32,
        ),
    decreases r + 1 - l,
{
    let t = balanced(l, r);
    if l <= r {
        let m = (l + r) / 2;
        law_balanced(l, m - 1);
        law_balanced(m + 1, r);
        assert(t.content() =~= Seq::new((r - l + 1) as nat, |k: int| (l + k) as u32));
    } else {
        assert(t.content() =~= Seq::new(0, |k: int| (l + k) as u32));
    }
}

} // verus!
