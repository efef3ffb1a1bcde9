//! What holds of the library as a whole.
use vstd::prelude::*;

verus! {

use crate::blocks::{after_reversal, is_auto_block, position, reversible};
use crate::blocks::{lemma_auto_block, lemma_chunks, lemma_found_order, lemma_found_position, lemma_reversal};
use crate::digits::{
    decimal,
    is_digit,
    is_space,
    pow10,
    signed_decimal,
    skip_spaces,
    value,
};
use crate::digits::{
    lemma_decimal,
    lemma_digit_run_is,
    lemma_pow10_positive,
    lemma_skip_spaces_over,
    lemma_value_add,
    lemma_value_one,
};
use crate::fast_in::{int_end, int_value, Decimal};
use crate::fast_out::{fixed_text, flush_next, padded, sign, FlushStep, Rounded};
use crate::seqs::{concat, reversed};
use crate::solve::{after_queries, answer, block_length, counting, first_blocks, from_zero, read_u32, spaced};
use crate::sqrt_bitset::MAX_SLOTS;
use crate::workload::{batch_run, drawn_range, elements, length_run};
use crate::wrap::{m32, m64, msize, wrap_signed};

/// Reversing a range twice restores the sequence.
pub proof fn law_reversing_twice<T>(s: Seq<T>, l: int, r: int)
    requires
        0 <= l <= r <= s.len(),
    ensures
        reversed(reversed(s, l, r), l, r) == s,
{
    assert(reversed(reversed(s, l, r), l, r) =~= s);
}

/// Reversing the whole range reads the sequence backwards.
pub proof fn law_reversing_all<T>(s: Seq<T>)
    ensures
        reversed(s, 0, s.len() as int) == s.reverse(),
{
    assert(reversed(s, 0, s.len() as int) =~= s.reverse());
}

/// Reversals of ranges without a common element can trade places.
pub proof fn law_disjoint_reversals<T>(s: Seq<T>, a: int, b: int, c: int, d: int)
    requires
        0 <= a <= b <= c <= d <= s.len(),
    ensures
        reversed(reversed(s, a, b), c, d) == reversed(reversed(s, c, d), a, b),
{
    assert(reversed(reversed(s, a, b), c, d) =~= reversed(reversed(s, c, d), a, b));
}

/// Reversing a range rearranges the elements: none is lost and none is added.
pub proof fn law_reversing_rearranges<T>(s: Seq<T>, l: int, r: int)
    requires
        0 <= l <= r <= s.len(),
    ensures
        reversed(s, l, r).to_multiset() == s.to_multiset(),
    decreases r - l,
{
    broadcast use vstd::seq_lib::group_to_multiset_ensures;

    if r - l < 2 {
        assert(reversed(s, l, r) =~= s);
    } else {
        let t = reversed(s, l + 1, r - 1);
        law_reversing_rearranges(s, l + 1, r - 1);
        let u = t.update(l, t[r - 1]).update(r - 1, t[l]);
        assert(u =~= reversed(s, l, r));
        lemma_swap_rearranges(t, l, r - 1);
    }
}

/// Swapping two elements rearranges.
proof fn lemma_swap_rearranges<T>(t: Seq<T>, i: int, j: int)
    requires
        0 <= i < j < t.len(),
    ensures
        t.update(i, t[j]).update(j, t[i]).to_multiset() == t.to_multiset(),
{
    broadcast use vstd::seq_lib::group_to_multiset_ensures;

    let u = t.update(i, t[j]).update(j, t[i]);
    let rest = t.remove(j).remove(i);
    assert(u.remove(j).remove(i) =~= rest);
    assert(t.to_multiset() =~= rest.to_multiset().insert(t[i]).insert(t[j])) by {
        assert(t.remove(j)[i] == t[i]);
        assert(t.to_multiset().count(t[j]) > 0) by {
            assert(t.contains(t[j]));
        }
        assert(t.remove(j).to_multiset().count(t[i]) > 0) by {
            assert(t.remove(j).contains(t[i]));
        }
    }
    assert(u.to_multiset() =~= rest.to_multiset().insert(u[i]).insert(u[j])) by {
        assert(u.remove(j)[i] == u[i]);
        assert(u.to_multiset().count(u[j]) > 0) by {
            assert(u.contains(u[j]));
        }
        assert(u.remove(j).to_multiset().count(u[i]) > 0) by {
            assert(u.remove(j).contains(u[i]));
        }
    }
    assert(u.to_multiset() =~= t.to_multiset());
}

/// The sum of the elements.
pub open spec fn sum(s: Seq<u32>) -> int
    decreases s.len(),
{
    if s.len() == 0 {
        0
    } else {
        sum(s.drop_last()) + s.last()
    }
}

proof fn lemma_sum_update(s: Seq<u32>, i: int, v: u32)
    requires
        0 <= i < s.len(),
    ensures
        sum(s.update(i, v)) == sum(s) - s[i] + v,
    decreases s.len(),
{
    let n = s.update(i, v);
    if i == s.len() - 1 {
        assert(n.drop_last() =~= s.drop_last());
    } else {
        assert(n.drop_last() =~= s.drop_last().update(i, v));
        lemma_sum_update(s.drop_last(), i, v);
    }
}

/// The plain sum of the elements does not tell whether a range has been reversed.
pub proof fn law_sum_is_blind(s: Seq<u32>, l: int, r: int)
    requires
        0 <= l <= r <= s.len(),
    ensures
        sum(reversed(s, l, r)) == sum(s),
    decreases r - l,
{
    if r - l < 2 {
        assert(reversed(s, l, r) =~= s);
    } else {
        let t = reversed(s, l + 1, r - 1);
        law_sum_is_blind(s, l + 1, r - 1);
        let u = t.update(l, t[r - 1]);
        lemma_sum_update(t, l, t[r - 1]);
        lemma_sum_update(u, r - 1, t[l]);
        assert(u.update(r - 1, t[l]) =~= reversed(s, l, r));
    }
}

/// The plain sum is the same before and after any run of a workload by length.
pub proof fn law_sum_blind_to_lengths(s: Seq<u32>, x: u64, l: int, q: nat)
    requires
        1 <= l <= s.len() <= u32::MAX,
    ensures
        sum(length_run(s, x, l, q)) == sum(s),
    decreases q,
{
    if q > 0 {
        let t = length_run(s, x, l, (q - 1) as nat);
        law_sum_blind_to_lengths(s, x, l, (q - 1) as nat);
        crate::workload::lemma_length_run_len(s, x, l, (q - 1) as nat);
        let st = crate::rng::below(crate::rng::state_after(x, q), (s.len() - l + 1) as u32);
        law_sum_is_blind(t, st as int, st + l);
    }
}

/// The plain sum is the same before and after any run of a workload by size.
pub proof fn law_sum_blind_to_batches(s: Seq<u32>, x: u64, q: nat)
    requires
        0 < s.len() <= u32::MAX,
    ensures
        sum(batch_run(s, x, q)) == sum(s),
    decreases q,
{
    if q > 0 {
        let t = batch_run(s, x, (q - 1) as nat);
        law_sum_blind_to_batches(s, x, (q - 1) as nat);
        crate::workload::lemma_batch_run_len(s, x, (q - 1) as nat);
        let (l, r) = drawn_range(
            crate::rng::state_after(x, (2 * (q - 1)) as nat),
            s.len() as u32,
        );
        law_sum_is_blind(t, l as int, r + 1);
    }
}

/// Drawn elements are below 65536.
pub proof fn law_elements_are_small(x: u64, n: nat, i: int)
    requires
        0 <= i < n,
    ensures
        elements(x, n)[i] < 65536,
{
    let z = crate::rng::scrambled(crate::rng::state_after(x, (i + 1) as nat));
    assert(z & 0xffff <= 0xffff) by (bit_vector);
}

/// There is only one block length for a number of elements.
pub proof fn law_one_auto_block(n: int, b: int, c: int)
    requires
        is_auto_block(n, b),
        is_auto_block(n, c),
    ensures
        b == c,
{
    if b < c {
        assert((b + 1) * (b + 1) <= c * c) by (nonlinear_arith)
            requires
                0 <= b,
                b + 1 <= c,
        ;
    } else if c < b {
        assert((c + 1) * (c + 1) <= b * b) by (nonlinear_arith)
            requires
                0 <= c,
                c + 1 <= b,
        ;
    }
}

/// A number that has been written is read back, whatever separators stand before it
/// and whatever follows, unless that is a digit.
pub proof fn law_number_reads_back(s: Seq<u8>, p: int, q: int, v: int)
    requires
        0 <= p <= q,
        forall|i: int| p <= i < q ==> is_space(#[trigger] s[i]),
        q + signed_decimal(v).len() <= s.len(),
        s.subrange(q, q + signed_decimal(v).len()) == signed_decimal(v),
        q + signed_decimal(v).len() < s.len() ==> !is_digit(s[q + signed_decimal(v).len()]),
    ensures
        int_value(s, p) == v,
        int_end(s, p) == q + signed_decimal(v).len(),
{
    let text = signed_decimal(v);
    let m: nat = if v < 0 {
        (-v) as nat
    } else {
        v as nat
    };
    let d = decimal(m);
    let at = q + text.len() - d.len();
    lemma_decimal(m);
    assert(s[q] == text[0]) by {
        assert(s.subrange(q, q + text.len())[0] == s[q]);
    }
    assert forall|i: int| at <= i < at + d.len() implies is_digit(#[trigger] s[i]) by {
        assert(s.subrange(q, q + text.len())[i - q] == s[i]);
        assert(text[i - q] == d[i - at]);
        assert(is_digit(d[i - at]));
    }
    assert(d[0] == text[text.len() - d.len()]);
    assert(is_digit(d[0]));
    lemma_skip_spaces_over(s, p, q);
    assert(!is_space(s[q]));
    assert(skip_spaces(s, q) == q);
    assert((s[q] == 45) == (v < 0));
    lemma_digit_run_is(s, at, d.len() as int);
    assert(s.subrange(at, at + d.len()) =~= d) by {
        assert forall|i: int| 0 <= i < d.len() implies s[at + i] == #[trigger] d[i] by {
            assert(s.subrange(q, q + text.len())[at + i - q] == s[at + i]);
        }
    }
}

/// The numbers of every type come back as they were: reducing them to the type they
/// are read as changes nothing.
pub proof fn law_types_keep_their_numbers(a: u64, b: u32, c: i64, d: i32, e: usize, f: isize)
    ensures
        a as int % m64() == a,
        b as int % m32() == b,
        wrap_signed(c as int, m64()) == c,
        wrap_signed(d as int, m32()) == d,
        e as int % msize() == e,
        wrap_signed(f as int, msize()) == f,
{
    if usize::BITS == 64 {
        assert(msize() == m64());
    } else {
        assert(msize() == m32());
    }
}

/// The text up to number `k` of a list, the number, and what follows.
proof fn lemma_spaced_at(t: Seq<u32>, k: int)
    requires
        0 <= k < t.len(),
    ensures
        ({
            let gap: Seq<u8> = if k > 0 {
                seq![32u8]
            } else {
                Seq::empty()
            };
            let head = spaced(t.take(k)) + gap + decimal(t[k] as nat);
            &&& head == spaced(t.take(k + 1))
            &&& head.len() <= spaced(t).len()
            &&& spaced(t).take(head.len() as int) == head
            &&& head.len() < spaced(t).len() ==> spaced(t)[head.len() as int] == 32
        }),
    decreases t.len(),
{
    let gap: Seq<u8> = if k > 0 {
        seq![32u8]
    } else {
        Seq::empty()
    };
    let head = spaced(t.take(k)) + gap + decimal(t[k] as nat);
    let u = t.take(k + 1);
    assert(u.drop_last() =~= t.take(k));
    assert(head =~= spaced(u));
    if k == t.len() - 1 {
        assert(u =~= t);
        assert(spaced(t).take(head.len() as int) =~= head);
    } else {
        let w = t.drop_last();
        lemma_spaced_at(w, k);
        assert(w.take(k) =~= t.take(k));
        assert(w.take(k + 1) =~= t.take(k + 1));
        assert(spaced(t) == spaced(w).push(32) + decimal(t.last() as nat));
        assert(spaced(t).take(head.len() as int) =~= spaced(w).take(head.len() as int));
    }
}

/// `n` numbers read one after the other.
pub open spec fn read_many(s: Seq<u8>, p: int, n: nat) -> Seq<u32>
    decreases n,
{
    if n == 0 {
        Seq::empty()
    } else {
        seq![read_u32(s, p)] + read_many(s, int_end(s, p), (n - 1) as nat)
    }
}

/// A line of numbers separated by spaces is read back number by number.
pub proof fn law_line_reads_back(t: Seq<u32>)
    ensures
        read_many(spaced(t).push(10), 0, t.len()) == t,
{
    assert(t.take(0) =~= Seq::empty());
    lemma_line_from(t, 0);
    assert(t.skip(0) =~= t);
}

proof fn lemma_line_from(t: Seq<u32>, k: int)
    requires
        0 <= k <= t.len(),
    ensures
        read_many(spaced(t).push(10), spaced(t.take(k)).len() as int, (t.len() - k) as nat) == t.skip(k),
    decreases t.len() - k,
{
    if k < t.len() {
        lemma_number_in_line(t, k);
        lemma_line_from(t, k + 1);
        assert(t.skip(k) =~= seq![t[k]] + t.skip(k + 1));
    } else {
        assert(t.skip(k) =~= Seq::empty());
    }
}

/// `t` after the `m` reversals that are read from position `p` on, each given by its
/// first and last position, counted from 1; nothing if one of them is not a range of
/// `t`.
pub open spec fn after_ranges(s: Seq<u8>, p: int, m: nat, t: Seq<u32>) -> Option<Seq<u32>>
    decreases m,
{
    if m == 0 {
        Some(t)
    } else {
        let l = read_u32(s, p);
        let p1 = int_end(s, p);
        let r = read_u32(s, p1);
        if 1 <= l <= r <= t.len() {
            after_ranges(s, int_end(s, p1), (m - 1) as nat, reversed(t, l - 1, r as int))
        } else {
            None
        }
    }
}

/// Where every query is a range, the result of a program run is that of reversing the
/// ranges one after the other in the numbers from 1 to `n`; and there is a result
/// unless `n` is greater than the number of slots.
pub proof fn law_ranges_are_reversed(s: Seq<u8>, p: int)
    requires
        ({
            let p1 = int_end(s, p);
            after_ranges(s, int_end(s, p1), read_u32(s, p1) as nat, counting(read_u32(s, p) as int)) is Some
        }),
    ensures
        ({
            let p1 = int_end(s, p);
            let t = after_ranges(s, int_end(s, p1), read_u32(s, p1) as nat, counting(read_u32(s, p) as int));
            &&& answer(s, p) is Some ==> answer(s, p) == t
            &&& read_u32(s, p) <= MAX_SLOTS ==> answer(s, p) is Some
        }),
{
    let p1 = int_end(s, p);
    lemma_ranges(s, int_end(s, p1), read_u32(s, p1) as nat, counting(read_u32(s, p) as int));
    law_answer_follows_queries(s, p);
}

/// `t` after the `m` reversals that are read from position `p` on, where an end past the
/// last element stands for the first one.
pub open spec fn after_positions(s: Seq<u8>, p: int, m: nat, t: Seq<u32>) -> Seq<u32>
    decreases m,
{
    if m == 0 {
        t
    } else {
        let n = t.len() as int;
        let l = position(from_zero(read_u32(s, p)), n);
        let p1 = int_end(s, p);
        let r = position(from_zero(read_u32(s, p1)), n);
        after_positions(s, int_end(s, p1), (m - 1) as nat, reversed(t, l, r + 1))
    }
}

/// None of the `m` reversals that are read from position `p` on has its last position
/// before its first one, where there are `n` elements.
pub open spec fn ends_in_order(s: Seq<u8>, p: int, m: nat, n: int) -> bool
    decreases m,
{
    m > 0 ==> {
        let p1 = int_end(s, p);
        &&& n > 0
        &&& position(from_zero(read_u32(s, p)), n) <= position(from_zero(read_u32(s, p1)), n)
        &&& ends_in_order(s, int_end(s, p1), (m - 1) as nat, n)
    }
}

/// The result of a program run, where there is one, is that of carrying out the queries
/// one after the other in the numbers from 1 to `n`; and where the ends of every query
/// are in order, there is a result unless `n` is greater than the number of slots.
pub proof fn law_answer_follows_queries(s: Seq<u8>, p: int)
    ensures
        ({
            let n = read_u32(s, p) as int;
            let p1 = int_end(s, p);
            let m = read_u32(s, p1) as nat;
            &&& answer(s, p) is Some ==> answer(s, p)->0 == after_positions(s, int_end(s, p1), m, counting(n))
            &&& n <= MAX_SLOTS && ends_in_order(s, int_end(s, p1), m, n) ==> answer(s, p) is Some
        }),
{
    let n = read_u32(s, p) as int;
    let p1 = int_end(s, p);
    lemma_first(n);
    lemma_follows(s, int_end(s, p1), read_u32(s, p1) as nat, first_blocks(n), block_length(n));
}

proof fn lemma_follows(s: Seq<u8>, p: int, m: nat, ps: Seq<Seq<u32>>, b: int)
    requires
        b > 0,
        forall|i: int| 0 <= i < ps.len() ==> (#[trigger] ps[i]).len() > 0,
    ensures
        ({
            let x = after_queries(s, p, m, ps, b);
            let n = concat(ps).len() as int;
            &&& x is Some ==> concat(x->0) == after_positions(s, p, m, concat(ps))
            &&& n <= MAX_SLOTS && ends_in_order(s, p, m, n) ==> x is Some
        }),
    decreases m,
{
    if m > 0 {
        let n = concat(ps).len() as int;
        let l = from_zero(read_u32(s, p));
        let p1 = int_end(s, p);
        let r = from_zero(read_u32(s, p1));
        if n > 0 && position(l, n) <= position(r, n) {
            lemma_found_order(ps, position(l, n), position(r, n));
            lemma_found_position(ps, l);
            lemma_found_position(ps, r);
            assert(reversible(ps, l, r));
        }
        if reversible(ps, l, r) {
            lemma_reversal(ps, b, l, r);
            lemma_follows(s, int_end(s, p1), (m - 1) as nat, after_reversal(ps, b, l, r), b);
        }
    }
}

/// The numbers from 1 to `n` in their first blocks.
proof fn lemma_first(n: int)
    requires
        0 <= n,
    ensures
        block_length(n) > 0,
        concat(first_blocks(n)) == counting(n),
        forall|i: int| 0 <= i < first_blocks(n).len() ==> (#[trigger] first_blocks(n)[i]).len() > 0,
{
    let b = lemma_auto_block(n, 64);
    law_one_auto_block(n, b, block_length(n));
    lemma_chunks(counting(n), b);
}

/// A range has its ends in order.
proof fn lemma_ranges(s: Seq<u8>, p: int, m: nat, t: Seq<u32>)
    requires
        after_ranges(s, p, m, t) is Some,
    ensures
        ends_in_order(s, p, m, t.len() as int),
        after_ranges(s, p, m, t) == Some(after_positions(s, p, m, t)),
    decreases m,
{
    if m > 0 {
        let l = read_u32(s, p);
        let p1 = int_end(s, p);
        let r = read_u32(s, p1);
        assert(from_zero(l) == l - 1 && from_zero(r) == r - 1);
        lemma_ranges(s, int_end(s, p1), (m - 1) as nat, reversed(t, l - 1, r as int));
    }
}

/// The result of a program run is a rearrangement of the numbers from 1 to `n`.
pub proof fn law_answer_rearranges(s: Seq<u8>, p: int)
    requires
        answer(s, p) is Some,
    ensures
        answer(s, p)->0.to_multiset() == counting(read_u32(s, p) as int).to_multiset(),
{
    let n = read_u32(s, p) as int;
    let p1 = int_end(s, p);
    lemma_first(n);
    lemma_queries_rearrange(s, int_end(s, p1), read_u32(s, p1) as nat, first_blocks(n), block_length(n));
}

proof fn lemma_queries_rearrange(s: Seq<u8>, p: int, m: nat, ps: Seq<Seq<u32>>, b: int)
    requires
        b > 0,
        forall|i: int| 0 <= i < ps.len() ==> (#[trigger] ps[i]).len() > 0,
        after_queries(s, p, m, ps, b) is Some,
    ensures
        concat(after_queries(s, p, m, ps, b)->0).to_multiset() == concat(ps).to_multiset(),
    decreases m,
{
    if m > 0 {
        let l = from_zero(read_u32(s, p));
        let p1 = int_end(s, p);
        let r = from_zero(read_u32(s, p1));
        let n = concat(ps).len() as int;
        lemma_reversal(ps, b, l, r);
        law_reversing_rearranges(concat(ps), position(l, n), position(r, n) + 1);
        lemma_queries_rearrange(s, int_end(s, p1), (m - 1) as nat, after_reversal(ps, b, l, r), b);
    }
}

/// Position `i` of the initial sequence of a program run holds `i + 1`.
pub proof fn law_initial_sequence(n: int)
    requires
        0 <= n <= u32::MAX,
    ensures
        counting(n).len() == n,
        forall|i: int| 0 <= i < n ==> #[trigger] counting(n)[i] == i + 1,
        concat(first_blocks(n)).len() == n,
        forall|i: int| 0 <= i < n ==> #[trigger] concat(first_blocks(n))[i] == i + 1,
{
    lemma_first(n);
}

/// The step from the sequence `t` to the sequence `u` mirrors the positions from `l` to
/// `r`, counted from 1, and nothing else.
pub open spec fn mirrored(t: Seq<u32>, u: Seq<u32>, l: int, r: int) -> bool {
    &&& u.len() == t.len()
    &&& forall|i: int|
        0 <= i < t.len() ==> #[trigger] u[i] == if l <= i + 1 <= r {
            t[l + r - 2 - i]
        } else {
            t[i]
        }
}

/// The position from 1 to `n` that a number in a query stands for: any other number
/// stands for the first one.
pub open spec fn meant(k: u32, n: int) -> int {
    if 1 <= k <= n {
        k as int
    } else {
        1
    }
}

/// Step `k` of a run: the ends of the range are read from `at[2 * k]` and `at[2 * k + 1]`,
/// and the range is mirrored from `ts[k]` to `ts[k + 1]`. It may be empty, but its last
/// end is not further before the first one.
pub open spec fn carried_out(s: Seq<u8>, at: Seq<int>, ts: Seq<Seq<u32>>, n: int, k: int) -> bool {
    let (l, r) = (meant(read_u32(s, at[2 * k]), n), meant(read_u32(s, at[2 * k + 1]), n));
    n > 0 && l <= r + 1 && mirrored(ts[k], ts[k + 1], l, r)
}

/// The range of step `k` of a run is not empty.
pub open spec fn in_order(s: Seq<u8>, at: Seq<int>, n: int, k: int) -> bool {
    meant(read_u32(s, at[2 * k]), n) <= meant(read_u32(s, at[2 * k + 1]), n)
}

/// What a program run computes, step by step: `at` are the places in the text from which
/// the ends of the ranges are read, one after the other, and `ts` are the sequences
/// before the first range, after it, and so on. The first of these holds 1, 2, and so on
/// up to `n`, each range is mirrored in its turn, and the last one is the answer. There
/// is one if no range is empty and `n` is not greater than 2 to the power of 31.
pub proof fn law_answer_step_by_step(s: Seq<u8>, p: int, at: Seq<int>, ts: Seq<Seq<u32>>)
    requires
        ({
            let n = read_u32(s, p) as int;
            let m = read_u32(s, int_end(s, p)) as int;
            &&& at.len() == 2 * m + 1
            &&& at[0] == int_end(s, int_end(s, p))
            &&& forall|k: int| 0 <= k < 2 * m ==> #[trigger] at[k + 1] == int_end(s, at[k])
            &&& ts.len() == m + 1
            &&& ts[0].len() == n
            &&& forall|i: int| 0 <= i < n ==> #[trigger] ts[0][i] == i + 1
            &&& forall|k: int| 0 <= k < m ==> #[trigger] carried_out(s, at, ts, n, k)
        }),
    ensures
        answer(s, p) is Some ==> answer(s, p)->0 == ts.last(),
        ({
            let n = read_u32(s, p) as int;
            let m = read_u32(s, int_end(s, p)) as int;
            n <= 0x8000_0000 && (forall|k: int| 0 <= k < m ==> #[trigger] in_order(s, at, n, k)) ==> answer(s, p)
                == Some(ts.last())
        }),
{
    let n = read_u32(s, p) as int;
    let p1 = int_end(s, p);
    let m = read_u32(s, p1) as int;
    assert(ts[0] =~= counting(n));
    lemma_steps_from(s, at, ts, n, m, 0);
    law_answer_follows_queries(s, p);
}

proof fn lemma_steps_from(s: Seq<u8>, at: Seq<int>, ts: Seq<Seq<u32>>, n: int, m: int, k: int)
    requires
        0 <= k <= m,
        at.len() == 2 * m + 1,
        forall|j: int| 0 <= j < 2 * m ==> #[trigger] at[j + 1] == int_end(s, at[j]),
        ts.len() == m + 1,
        ts[k].len() == n,
        n <= u32::MAX,
        forall|j: int| 0 <= j < m ==> #[trigger] carried_out(s, at, ts, n, j),
    ensures
        after_positions(s, at[2 * k], (m - k) as nat, ts[k]) == ts[m],
        (forall|j: int| 0 <= j < m ==> #[trigger] in_order(s, at, n, j)) ==> ends_in_order(
            s,
            at[2 * k],
            (m - k) as nat,
            n,
        ),
    decreases m - k,
{
    if k < m {
        let (a, b) = (read_u32(s, at[2 * k]), read_u32(s, at[2 * k + 1]));
        let (l, r) = (meant(a, n), meant(b, n));
        assert(carried_out(s, at, ts, n, k));
        assert(at[2 * k + 1] == int_end(s, at[2 * k]));
        assert(at[2 * k + 1 + 1] == int_end(s, at[2 * k + 1]));
        assert(2 * k + 1 + 1 == 2 * (k + 1));
        assert(a == 0 ==> from_zero(a) == u32::MAX);
        assert(b == 0 ==> from_zero(b) == u32::MAX);
        assert(position(from_zero(a), n) == l - 1 && position(from_zero(b), n) == r - 1);
        assert(ts[k + 1] =~= reversed(ts[k], l - 1, r));
        if forall|j: int| 0 <= j < m ==> #[trigger] in_order(s, at, n, j) {
            assert(in_order(s, at, n, k));
        }
        assert((m - k - 1) as nat == (m - (k + 1)) as nat);
        lemma_steps_from(s, at, ts, n, m, k + 1);
    }
}

/// The same from numbers to numbers: of the text that lists `n`, the number of ranges and
/// their ends, separated by spaces, the answer is the last of the sequences that start
/// with 1, 2, and so on up to `n` and of which each is the one before it with the next
/// range mirrored.
pub proof fn law_answer_to_a_list(nums: Seq<u32>, ts: Seq<Seq<u32>>)
    requires
        nums.len() >= 2,
        nums[0] <= 0x8000_0000,
        nums.len() == 2 * nums[1] + 2,
        ts.len() == nums[1] + 1,
        ts[0].len() == nums[0],
        forall|i: int| 0 <= i < nums[0] ==> #[trigger] ts[0][i] == i + 1,
        forall|k: int|
            0 <= k < nums[1] ==> 1 <= nums[2 * k + 2] <= nums[2 * k + 3] <= nums[0] && #[trigger] mirrored(
                ts[k],
                ts[k + 1],
                nums[2 * k + 2] as int,
                nums[2 * k + 3] as int,
            ),
    ensures
        answer(spaced(nums).push(10), 0) == Some(ts.last()),
{
    let s = spaced(nums).push(10);
    let m = nums[1] as int;
    let at = Seq::new((2 * m + 1) as nat, |k: int| spaced(nums.take(k + 2)).len() as int);
    assert(spaced(nums.take(0)) =~= Seq::empty());
    lemma_number_in_line(nums, 0);
    lemma_number_in_line(nums, 1);
    assert forall|k: int| 0 <= k < 2 * m implies #[trigger] at[k + 1] == int_end(s, at[k]) && read_u32(s, at[k])
        == nums[k + 2] by {
        lemma_number_in_line(nums, k + 2);
        assert(k + 1 + 2 == k + 2 + 1);
    }
    let n = nums[0] as int;
    assert forall|k: int| 0 <= k < m implies #[trigger] carried_out(s, at, ts, n, k) && in_order(s, at, n, k) by {
        assert(mirrored(ts[k], ts[k + 1], nums[2 * k + 2] as int, nums[2 * k + 3] as int));
        assert(at[2 * k + 1] == int_end(s, at[2 * k]));
        assert(at[2 * k + 1 + 1] == int_end(s, at[2 * k + 1]));
        assert(2 * k + 1 + 2 == 2 * k + 3);
    }
    assert forall|k: int| 0 <= k < m implies #[trigger] in_order(s, at, n, k) by {
        assert(carried_out(s, at, ts, n, k));
    }
    law_answer_step_by_step(s, 0, at, ts);
}

/// Number `k` of a line is read from where the numbers before it end.
proof fn lemma_number_in_line(t: Seq<u32>, k: int)
    requires
        0 <= k < t.len(),
    ensures
        ({
            let s = spaced(t).push(10);
            let p = spaced(t.take(k)).len() as int;
            &&& read_u32(s, p) == t[k]
            &&& int_end(s, p) == spaced(t.take(k + 1)).len()
        }),
{
    let s = spaced(t).push(10);
    let p = spaced(t.take(k)).len() as int;
    let v = t[k] as int;
    let q = if k > 0 {
        p + 1
    } else {
        p
    };
    lemma_spaced_at(t, k);
    let e = spaced(t.take(k + 1)).len() as int;
    assert(spaced(t.take(0)) =~= Seq::empty()) by {
        assert(t.take(0) =~= Seq::empty());
    }
    assert(e == q + decimal(v as nat).len());
    assert(spaced(t).take(e) =~= spaced(t.take(k + 1)));
    assert(s.subrange(q, e) =~= decimal(v as nat)) by {
        assert forall|i: int| 0 <= i < decimal(v as nat).len() implies s[q + i] == #[trigger] decimal(v as nat)[i] by {
            assert(spaced(t).take(e)[q + i] == spaced(t)[q + i]);
        }
    }
    if k > 0 {
        assert(spaced(t).take(e)[p] == spaced(t)[p]);
        assert(s[p] == 32);
    }
    law_number_reads_back(s, p, q, v);
}

/// Every result of a program run holds each number from 1 to `n` exactly once.
pub proof fn law_answer_has_each_number_once(s: Seq<u8>, p: int)
    requires
        answer(s, p) is Some,
    ensures
        ({
            let n = read_u32(s, p) as int;
            let t = answer(s, p)->0;
            &&& t.len() == n
            &&& forall|i: int| 0 <= i < n ==> 1 <= #[trigger] t[i] <= n
            &&& forall|i: int, j: int| 0 <= i < j < n ==> t[i] != t[j]
            &&& forall|v: u32| 1 <= v <= n ==> #[trigger] t.contains(v)
        }),
{
    let n = read_u32(s, p) as int;
    let p1 = int_end(s, p);
    law_answer_follows_queries(s, p);
    assert forall|v: u32| 1 <= v <= n implies #[trigger] counting(n).contains(v) by {
        assert(counting(n)[v - 1] == v);
    }
    lemma_each_once(s, int_end(s, p1), read_u32(s, p1) as nat, counting(n), n);
}

proof fn lemma_each_once(s: Seq<u8>, p: int, m: nat, t: Seq<u32>, n: int)
    requires
        t.len() == n,
        forall|i: int| 0 <= i < n ==> 1 <= #[trigger] t[i] <= n,
        forall|i: int, j: int| 0 <= i < j < n ==> t[i] != t[j],
        forall|v: u32| 1 <= v <= n ==> #[trigger] t.contains(v),
    ensures
        ({
            let u = after_positions(s, p, m, t);
            &&& u.len() == n
            &&& forall|i: int| 0 <= i < n ==> 1 <= #[trigger] u[i] <= n
            &&& forall|i: int, j: int| 0 <= i < j < n ==> u[i] != u[j]
            &&& forall|v: u32| 1 <= v <= n ==> #[trigger] u.contains(v)
        }),
    decreases m,
{
    if m > 0 {
        let l = position(from_zero(read_u32(s, p)), n);
        let p1 = int_end(s, p);
        let r = position(from_zero(read_u32(s, p1)), n);
        let u = reversed(t, l, r + 1);
        let from = |i: int|
            if l <= i <= r {
                l + r - i
            } else {
                i
            };
        assert forall|i: int| 0 <= i < n implies u[i] == t[from(i)] && 0 <= from(i) < n && from(from(i)) == i by {}
        assert forall|v: u32| 1 <= v <= n implies #[trigger] u.contains(v) by {
            let i = choose|i: int| 0 <= i < n && t[i] == v;
            assert(t.contains(v));
            assert(u[from(i)] == v);
        }
        assert forall|i: int, j: int| 0 <= i < j < n implies u[i] != u[j] by {
            let (a, b) = (from(i), from(j));
            assert(a != b);
            assert(t[a] != t[b]);
        }
        lemma_each_once(s, int_end(s, p1), (m - 1) as nat, u, n);
    }
}

/// A program run has a result only if there are elements wherever a range is asked for,
/// and no range has its last end more than one position before its first one.
pub proof fn law_answer_needs_order(s: Seq<u8>, p: int, at: Seq<int>, k: int)
    requires
        answer(s, p) is Some,
        0 <= k < read_u32(s, int_end(s, p)),
        at.len() == 2 * k + 2,
        at[0] == int_end(s, int_end(s, p)),
        forall|j: int| 0 <= j < 2 * k + 1 ==> #[trigger] at[j + 1] == int_end(s, at[j]),
    ensures
        ({
            let n = read_u32(s, p) as int;
            let (l, r) = (read_u32(s, at[2 * k]) as int, read_u32(s, at[2 * k + 1]) as int);
            let first = if 1 <= l <= n {
                l
            } else {
                1
            };
            let last = if 1 <= r <= n {
                r
            } else {
                1
            };
            n > 0 && first <= last + 1
        }),
{
    let n = read_u32(s, p) as int;
    let p1 = int_end(s, p);
    lemma_first(n);
    lemma_needs_order(s, int_end(s, p1), read_u32(s, p1) as nat, first_blocks(n), block_length(n), at, k);
}

proof fn lemma_needs_order(s: Seq<u8>, p: int, m: nat, ps: Seq<Seq<u32>>, b: int, at: Seq<int>, k: int)
    requires
        b > 0,
        concat(ps).len() <= u32::MAX,
        forall|i: int| 0 <= i < ps.len() ==> (#[trigger] ps[i]).len() > 0,
        after_queries(s, p, m, ps, b) is Some,
        0 <= k < m,
        at.len() == 2 * k + 2,
        at[0] == p,
        forall|j: int| 0 <= j < 2 * k + 1 ==> #[trigger] at[j + 1] == int_end(s, at[j]),
    ensures
        ({
            let n = concat(ps).len() as int;
            let (l, r) = (read_u32(s, at[2 * k]) as int, read_u32(s, at[2 * k + 1]) as int);
            let first = if 1 <= l <= n {
                l
            } else {
                1
            };
            let last = if 1 <= r <= n {
                r
            } else {
                1
            };
            n > 0 && first <= last + 1
        }),
    decreases m,
{
    let n = concat(ps).len() as int;
    let (x, y) = (read_u32(s, p), read_u32(s, int_end(s, p)));
    let (l, r) = (from_zero(x), from_zero(y));
    lemma_reversal(ps, b, l, r);
    assert(x == 0 ==> l == u32::MAX);
    assert(y == 0 ==> r == u32::MAX);
    assert(x > 0 ==> l == x - 1);
    assert(y > 0 ==> r == y - 1);
    assert(ps.len() > 0);
    lemma_found_position(ps, l);
    assert(at[0int + 1] == int_end(s, at[0]));
    if k > 0 {
        let rest = at.skip(2);
        assert(at[1int + 1] == int_end(s, at[1]));
        assert forall|j: int| 0 <= j < 2 * (k - 1) + 1 implies #[trigger] rest[j + 1] == int_end(s, rest[j]) by {
            assert(rest[j + 1] == at[j + 2 + 1]);
            assert(rest[j] == at[j + 2]);
        }
        assert(rest[2 * (k - 1)] == at[2 * k] && rest[2 * (k - 1) + 1] == at[2 * k + 1]);
        lemma_needs_order(
            s,
            int_end(s, int_end(s, p)),
            (m - 1) as nat,
            after_reversal(ps, b, l, r),
            b,
            rest,
            k - 1,
        );
    }
}

/// The bytes that have been handed on and the next step, when writes of `buf` from
/// `from` on have returned `ns`.
pub open spec fn flush_run(buf: Seq<u8>, from: usize, ns: Seq<i64>) -> (Seq<u8>, FlushStep)
    decreases ns.len(),
{
    if ns.len() == 0 {
        (Seq::empty(), FlushStep::Write { from })
    } else {
        match flush_next(buf.len(), from, ns[0]) {
            FlushStep::Write { from: next } => {
                let (rest, step) = flush_run(buf, next, ns.skip(1));
                (buf.subrange(from as int, next as int) + rest, step)
            },
            FlushStep::Done => (buf.subrange(from as int, from + ns[0]), FlushStep::Done),
            FlushStep::Fail { errno } => (Seq::empty(), FlushStep::Fail { errno }),
        }
    }
}

/// No write returns more than the number of bytes that it was given.
pub open spec fn honest(buf: Seq<u8>, from: usize, ns: Seq<i64>) -> bool
    decreases ns.len(),
{
    ns.len() > 0 ==> {
        &&& ns[0] <= buf.len() - from
        &&& match flush_next(buf.len(), from, ns[0]) {
            FlushStep::Write { from: next } => honest(buf, next, ns.skip(1)),
            _ => true,
        }
    }
}

/// However the writes are cut into pieces, and however often they are interrupted,
/// the bytes that are handed on are the text from the start, without a gap and without
/// a repetition, and all of it once it is done.
pub proof fn law_flush_writes_the_text(buf: Seq<u8>, from: usize, ns: Seq<i64>)
    requires
        from <= buf.len() <= usize::MAX,
        honest(buf, from, ns),
    ensures
        ({
            let (out, step) = flush_run(buf, from, ns);
            &&& from + out.len() <= buf.len()
            &&& out == buf.subrange(from as int, from + out.len())
            &&& step is Done ==> out == buf.skip(from as int)
        }),
    decreases ns.len(),
{
    if ns.len() == 0 {
        assert(buf.subrange(from as int, from as int) =~= Seq::empty());
    } else {
        match flush_next(buf.len(), from, ns[0]) {
            FlushStep::Write { from: next } => {
                law_flush_writes_the_text(buf, next, ns.skip(1));
                let (rest, step) = flush_run(buf, next, ns.skip(1));
                let out = buf.subrange(from as int, next as int) + rest;
                assert(out =~= buf.subrange(from as int, from + out.len()));
                if step is Done {
                    assert(out =~= buf.skip(from as int));
                }
            },
            FlushStep::Done => {
                assert(buf.subrange(from as int, from + ns[0]) =~= buf.skip(from as int));
            },
            FlushStep::Fail { .. } => {
                assert(buf.subrange(from as int, from as int) =~= Seq::empty());
            },
        }
    }
}

/// What happens to a writer: text is added to it, or it writes out what it holds and
/// the single writes return `returned`.
pub enum Event {
    Append { text: Seq<u8> },
    Flush { returned: Seq<i64> },
}

/// The bytes that a writer has handed on, and those that it holds, after `events`.
pub open spec fn after_events(events: Seq<Event>) -> (Seq<u8>, Seq<u8>)
    decreases events.len(),
{
    if events.len() == 0 {
        (Seq::empty(), Seq::empty())
    } else {
        let (out, buf) = after_events(events.drop_last());
        match events.last() {
            Event::Append { text } => (out, buf + text),
            Event::Flush { returned } => if buf.len() == 0 {
                (out, buf)
            } else {
                let (now, step) = flush_run(buf, 0, returned);
                (
                    out + now,
                    if step is Done {
                        Seq::empty()
                    } else {
                        buf
                    },
                )
            },
        }
    }
}

/// Everything that has been added, in order.
pub open spec fn appended(events: Seq<Event>) -> Seq<u8>
    decreases events.len(),
{
    if events.len() == 0 {
        Seq::empty()
    } else {
        match events.last() {
            Event::Append { text } => appended(events.drop_last()) + text,
            Event::Flush { .. } => appended(events.drop_last()),
        }
    }
}

/// The last of `events` is not a flush that has stopped before the end.
pub open spec fn finished(events: Seq<Event>) -> bool {
    events.len() > 0 ==> match events.last() {
        Event::Append { .. } => true,
        Event::Flush { returned } => {
            let buf = after_events(events.drop_last()).1;
            buf.len() == 0 || flush_run(buf, 0, returned).1 is Done
        },
    }
}

/// No write returns more than it was given, and nothing follows a flush that has
/// stopped before the end.
pub open spec fn orderly(events: Seq<Event>) -> bool
    decreases events.len(),
{
    events.len() > 0 ==> {
        &&& orderly(events.drop_last())
        &&& finished(events.drop_last())
        &&& match events.last() {
            Event::Append { .. } => true,
            Event::Flush { returned } => honest(after_events(events.drop_last()).1, 0, returned),
        }
    }
}

/// Over the whole life of a writer, the bytes that it has handed on and those that it
/// holds are together all bytes ever added to it, in order; and where a flush has
/// stopped before the end, the bytes handed on are the first of them.
pub proof fn law_nothing_is_lost(events: Seq<Event>)
    requires
        orderly(events),
        appended(events).len() <= usize::MAX,
    ensures
        ({
            let (out, buf) = after_events(events);
            &&& finished(events) ==> out + buf == appended(events)
            &&& out.is_prefix_of(appended(events))
        }),
    decreases events.len(),
{
    let all = appended(events);
    let (out1, buf1) = after_events(events);
    if events.len() == 0 {
        assert(out1 + buf1 =~= all);
    } else {
        law_nothing_is_lost(events.drop_last());
        let (out, buf) = after_events(events.drop_last());
        match events.last() {
            Event::Append { text } => {
                assert(out1 + buf1 =~= all);
            },
            Event::Flush { returned } => {
                if buf.len() > 0 {
                    law_flush_writes_the_text(buf, 0, returned);
                    let (now, step) = flush_run(buf, 0, returned);
                    assert(all == out + buf);
                    if step is Done {
                        assert(buf.skip(0) =~= buf);
                        assert(out1 + buf1 =~= all);
                    }
                    assert(out1 =~= all.take(out1.len() as int));
                }
            },
        }
    }
    assert(out1 =~= all.take(out1.len() as int));
}

/// A writer that ends with a finished flush has handed on all bytes ever added to it,
/// in order, and nothing else.
pub proof fn law_all_is_written(events: Seq<Event>, returned: Seq<i64>)
    requires
        orderly(events.push(Event::Flush { returned })),
        finished(events.push(Event::Flush { returned })),
        appended(events).len() <= usize::MAX,
    ensures
        after_events(events.push(Event::Flush { returned })) == (appended(events), Seq::<u8>::empty()),
{
    let all = events.push(Event::Flush { returned });
    assert(all.drop_last() =~= events);
    law_nothing_is_lost(all);
    let (out, buf) = after_events(all);
    assert(buf =~= Seq::empty());
    assert(out =~= appended(events));
}

/// The last `n` places are digits, and spell what is left of the number by them.
proof fn lemma_padded(v: nat, n: nat)
    ensures
        padded(v, n).len() == n,
        forall|i: int| 0 <= i < n ==> is_digit(#[trigger] padded(v, n)[i]),
        v < pow10(n) ==> value(padded(v, n)) == v,
    decreases n,
{
    if n > 0 {
        lemma_padded(v / 10, (n - 1) as nat);
        let c = (48 + v % 10) as u8;
        let a = padded(v / 10, (n - 1) as nat);
        assert(padded(v, n) =~= a + seq![c]);
        lemma_value_add(a, seq![c]);
        lemma_value_one(c);
        assert(pow10(1) == 10) by {
            assert(pow10(0) == 1);
        }
        assert(seq![c].len() == 1);
    } else {
        assert(padded(v, 0) =~= Seq::empty());
        assert(crate::digits::digit_values(padded(v, 0)) =~= Seq::empty());
    }
}

/// A decimal fraction that has been written is read back digit by digit: the sign, as
/// many places as there were, and no exponent.
pub proof fn law_fraction_reads_back(neg: bool, scaled: u64, prec: nat, d: Decimal)
    requires
        d.reads(fixed_text(Rounded::Finite { neg, scaled }, prec)),
    ensures
        d.neg == neg,
        d.frac_digits@.len() == prec,
        value(d.int_digits@) * pow10(prec) + value(d.frac_digits@) == scaled,
        d.exp is None,
{
    let t = fixed_text(Rounded::Finite { neg, scaled }, prec);
    lemma_pow10_positive(prec);
    let w = (scaled as int / pow10(prec)) as nat;
    let f = (scaled as int % pow10(prec)) as nat;
    assert(scaled as int / pow10(prec) >= 0) by (nonlinear_arith)
        requires
            pow10(prec) > 0,
            scaled >= 0,
    ;
    vstd::arithmetic::div_mod::lemma_mod_bound(scaled as int, pow10(prec));
    vstd::arithmetic::div_mod::lemma_fundamental_div_mod(scaled as int, pow10(prec));
    lemma_decimal(w);
    lemma_padded(f, prec);
    let sg = sign(neg);
    let wt = decimal(w);
    let a = sg.len() as int;
    let whole = sg + wt;
    assert(is_digit(wt[0]));
    assert forall|i: int| a <= i < a + wt.len() implies is_digit(#[trigger] t[i]) by {
        assert(t[i] == wt[i - a]);
        assert(is_digit(wt[i - a]));
    }
    assert(t[0] == if neg {
        45
    } else {
        wt[0]
    });
    if prec > 0 {
        let b = a + wt.len() + 1;
        assert(t[b - 1] == 46);
        lemma_digit_run_is(t, a, wt.len() as int);
        assert forall|i: int| b <= i < b + prec implies is_digit(#[trigger] t[i]) by {
            assert(t[i] == padded(f, prec)[i - b]);
            assert(is_digit(padded(f, prec)[i - b]));
        }
        lemma_digit_run_is(t, b, prec as int);
        assert(t.subrange(a, a + wt.len()) =~= wt);
        assert(t.subrange(b, b + prec) =~= padded(f, prec));
    } else {
        lemma_digit_run_is(t, a, wt.len() as int);
        assert(t.subrange(a, a + wt.len()) =~= wt);
        assert(t.subrange(a + wt.len(), a + wt.len()) =~= Seq::empty());
        assert(crate::digits::digit_values(d.frac_digits@) =~= Seq::empty());
    }
    assert(value(d.int_digits@) * pow10(prec) == pow10(prec) * (scaled as int / pow10(prec)))
        by (nonlinear_arith)
        requires
            value(d.int_digits@) == scaled as int / pow10(prec),
    ;
}

} // verus!
