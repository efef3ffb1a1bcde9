//! What holds of drawn numbers, of the runs of reversals that are drawn from them, and of
//! the checksum that tells whether the reversals were carried out.
use vstd::prelude::*;

verus! {

use crate::ds::{capacity, weighted_sum, DS};
use crate::rng::{below, next_state, scrambled, state_after};
use crate::seqs::reversed;
use crate::treap::drawn_priorities;
use crate::workload::{
    batch_run,
    batch_trial_seed,
    drawn_range,
    drawn_weights,
    elements,
    length_run,
    length_trial_seed,
};

/// Element number `i` of a reversal of the positions from `l` up to `r`, not included: a
/// position in the range holds what its mirror image held, any other what it held.
pub proof fn law_reversed_by_position<T>(s: Seq<T>, l: int, r: int)
    requires
        0 <= l <= r <= s.len(),
    ensures
        reversed(s, l, r).len() == s.len(),
        forall|k: int| 0 <= k < r - l ==> #[trigger] reversed(s, l, r)[l + k] == s[r - 1 - k],
        forall|i: int| 0 <= i < l ==> #[trigger] reversed(s, l, r)[i] == s[i],
        forall|i: int| r <= i < s.len() ==> #[trigger] reversed(s, l, r)[i] == s[i],
{
}

/// Drawing `k` numbers adds `k` times the same odd constant to the state, modulo 2 to the
/// power of 64.
pub proof fn law_state_is_linear(x: u64, k: nat)
    ensures
        state_after(x, k) == (x + k * 0x9e37_79b9_7f4a_7c15) % 0x1_0000_0000_0000_0000,
        next_state(state_after(x, k)) == state_after(x, k + 1),
    decreases k,
{
    if k == 0 {
        assert(0 * 0x9e37_79b9_7f4a_7c15 == 0);
        vstd::arithmetic::div_mod::lemma_small_mod(x as nat, 0x1_0000_0000_0000_0000);
    } else {
        law_state_is_linear(x, (k - 1) as nat);
        let c: int = 0x9e37_79b9_7f4a_7c15;
        let m: int = 0x1_0000_0000_0000_0000;
        let y = x + (k - 1) * c;
        assert(x + k * c == y + c) by (nonlinear_arith)
            requires
                y == x + (k - 1) * c,
        ;
        let z = y % m + c;
        assert((y + c) % m == z % m) by {
            vstd::arithmetic::div_mod::lemma_add_mod_noop_right(c, y, m);
        }
        if z >= m {
            vstd::arithmetic::div_mod::lemma_fundamental_div_mod_converse(z, m, 1, z - m);
        } else {
            vstd::arithmetic::div_mod::lemma_small_mod(z as nat, m as nat);
        }
    }
}

/// Multiplying by an odd constant is undone by multiplying by its inverse.
proof fn lemma_odd_product(a: u64, c: u64, d: u64)
    requires
        c * d % 0x1_0000_0000_0000_0000 == 1,
    ensures
        a.wrapping_mul(c).wrapping_mul(d) == a,
{
    let m: int = 0x1_0000_0000_0000_0000;
    let p = a * c;
    vstd::arithmetic::div_mod::lemma_mul_mod_noop_left(p, d as int, m);
    assert(p * d == a * (c * d)) by (nonlinear_arith)
        requires
            p == a * c,
    ;
    vstd::arithmetic::div_mod::lemma_mul_mod_noop_right(a as int, c * d, m);
    vstd::arithmetic::div_mod::lemma_small_mod(a as nat, m as nat);
}

/// A drawn number tells the state that it was drawn in: undoing the three shifts and the
/// two products, last one first, gives the state back. So different states draw different
/// numbers.
pub proof fn law_draw_tells_state(x: u64)
    ensures
        ({
            let z = scrambled(x);
            let b = z ^ (z >> 31) ^ (z >> 62);
            let y = b.wrapping_mul(0x3196_42b2_d24d_8ec3);
            let a = y ^ (y >> 27) ^ (y >> 54);
            let w = a.wrapping_mul(0x96de_1b17_3f11_9089);
            w ^ (w >> 30) ^ (w >> 60) == x
        }),
{
    reveal(scrambled);
    let p = x ^ (x >> 30);
    let a = p.wrapping_mul(0xbf58_476d_1ce4_e5b9);
    let q = a ^ (a >> 27);
    let b = q.wrapping_mul(0x94d0_49bb_1331_11eb);
    let z = b ^ (b >> 31);
    assert(z ^ (z >> 31) ^ (z >> 62) == b) by (bit_vector)
        requires
            z == b ^ (b >> 31),
    ;
    lemma_odd_product(q, 0x94d0_49bb_1331_11eb, 0x3196_42b2_d24d_8ec3);
    assert(q ^ (q >> 27) ^ (q >> 54) == a) by (bit_vector)
        requires
            q == a ^ (a >> 27),
    ;
    lemma_odd_product(p, 0xbf58_476d_1ce4_e5b9, 0x96de_1b17_3f11_9089);
    assert(p ^ (p >> 30) ^ (p >> 60) == x) by (bit_vector)
        requires
            p == x ^ (x >> 30),
    ;
}

/// A number drawn below a bound is the remainder of the upper half of the draw.
pub proof fn law_below_is_a_remainder(x: u64, modu: u32)
    requires
        modu > 0,
    ensures
        below(x, modu) < modu,
        below(x, modu) == (scrambled(x) as int / 0x1_0000_0000) % (modu as int),
{
    let z = scrambled(x);
    assert(z >> 32 == z / 0x1_0000_0000) by (bit_vector);
}

/// The two ends of a drawn range are the next two numbers below `n`, the smaller one
/// first.
pub proof fn law_drawn_range(x: u64, n: u32)
    requires
        n > 0,
    ensures
        ({
            let (l, r) = drawn_range(x, n);
            let a = (scrambled(state_after(x, 1)) as int / 0x1_0000_0000) % (n as int);
            let b = (scrambled(state_after(x, 2)) as int / 0x1_0000_0000) % (n as int);
            &&& l <= r < n
            &&& l + r == a + b
            &&& l == a || l == b
        }),
{
    law_below_is_a_remainder(next_state(x), n);
    law_below_is_a_remainder(next_state(next_state(x)), n);
    assert(state_after(x, 0) == x);
    assert(state_after(x, 1) == next_state(x));
    assert(state_after(x, 2) == next_state(next_state(x)));
}

/// Drawn elements are the lower sixteen bits of the draws, in order, drawn weights the
/// draws themselves, and the priorities their upper halves.
pub proof fn law_draws_in_order(x: u64, n: nat, i: int)
    requires
        0 <= i < n,
    ensures
        ({
            let z = scrambled(((x + (i + 1) * 0x9e37_79b9_7f4a_7c15) % 0x1_0000_0000_0000_0000) as u64);
            &&& elements(x, n).len() == n
            &&& elements(x, n)[i] == z as int % 0x1_0000
            &&& drawn_weights(x, n).len() == n
            &&& drawn_weights(x, n)[i] == z
            &&& drawn_priorities(x, n).len() == n
            &&& drawn_priorities(x, n)[i] == z as int / 0x1_0000_0000
        }),
{
    law_state_is_linear(x, (i + 1) as nat);
    let z = scrambled(state_after(x, (i + 1) as nat));
    assert(z & 0xffff == z % 0x1_0000 && z >> 32 == z / 0x1_0000_0000) by (bit_vector);
}

/// Every operation of a run by size reverses the range that is drawn in it: the sequence
/// after `q + 1` operations is that after `q`, mirrored between the two drawn positions.
pub proof fn law_batch_step(s: Seq<u32>, x: u64, q: nat)
    requires
        0 < s.len() <= u32::MAX,
    ensures
        ({
            let n = s.len() as int;
            let (t, u) = (batch_run(s, x, q), batch_run(s, x, q + 1));
            let a = (scrambled(state_after(x, 2 * q + 1)) as int / 0x1_0000_0000) % n;
            let b = (scrambled(state_after(x, 2 * q + 2)) as int / 0x1_0000_0000) % n;
            &&& 0 <= a < n
            &&& 0 <= b < n
            &&& t.len() == n
            &&& u.len() == n
            &&& forall|i: int|
                0 <= i < n ==> #[trigger] u[i] == if a <= i <= b || b <= i <= a {
                    t[a + b - i]
                } else {
                    t[i]
                }
        }),
        batch_run(s, x, 0) == s,
{
    let n = s.len() as u32;
    let y = state_after(x, 2 * q);
    crate::workload::lemma_batch_run_len(s, x, q);
    assert(state_after(x, 2 * q + 1) == next_state(y));
    assert(state_after(x, 2 * q + 2) == next_state(next_state(y)));
    law_below_is_a_remainder(next_state(y), n);
    law_below_is_a_remainder(next_state(next_state(y)), n);
    assert((2 * (q + 1 - 1)) as nat == 2 * q);
}

/// Mirroring a run by size again, last operation first, restores the sequence: `us` are
/// the sequences on the way back.
pub proof fn law_batch_is_undone(s: Seq<u32>, x: u64, q: nat, us: Seq<Seq<u32>>)
    requires
        0 < s.len() <= u32::MAX,
        us.len() == q + 1,
        us[q as int] == batch_run(s, x, q),
        forall|k: int| #![trigger us[k]] 0 <= k < q ==> {
            let n = s.len() as int;
            let a = (scrambled(state_after(x, (2 * k + 1) as nat)) as int / 0x1_0000_0000) % n;
            let b = (scrambled(state_after(x, (2 * k + 2) as nat)) as int / 0x1_0000_0000) % n;
            &&& us[k].len() == n
            &&& forall|i: int|
                0 <= i < n ==> #[trigger] us[k][i] == if a <= i <= b || b <= i <= a {
                    us[k + 1][a + b - i]
                } else {
                    us[k + 1][i]
                }
        },
    ensures
        us[0] == s,
    decreases q,
{
    if q > 0 {
        let k = (q - 1) as nat;
        law_batch_step(s, x, k);
        let t = batch_run(s, x, k);
        assert(us[k as int] =~= t) by {
            assert(us[q as int] == batch_run(s, x, k + 1));
            assert((2 * k + 1) as nat == 2 * k + 1 && (2 * k + 2) as nat == 2 * k + 2);
        }
        let rest = us.take(q as int);
        assert(rest[k as int] == us[k as int]);
        assert forall|j: int| #![trigger rest[j]] 0 <= j < k implies {
            let n = s.len() as int;
            let a = (scrambled(state_after(x, (2 * j + 1) as nat)) as int / 0x1_0000_0000) % n;
            let b = (scrambled(state_after(x, (2 * j + 2) as nat)) as int / 0x1_0000_0000) % n;
            &&& rest[j].len() == n
            &&& forall|i: int|
                0 <= i < n ==> #[trigger] rest[j][i] == if a <= i <= b || b <= i <= a {
                    rest[j + 1][a + b - i]
                } else {
                    rest[j + 1][i]
                }
        } by {
            assert(rest[j] == us[j] && rest[j + 1] == us[j + 1]);
        }
        law_batch_is_undone(s, x, k, rest);
    }
}

/// Every operation of a run by length mirrors the `l` elements from the drawn position
/// on, whatever the length, and leaves the others where they are.
pub proof fn law_length_step(s: Seq<u32>, x: u64, l: int, q: nat)
    requires
        1 <= l <= s.len() <= u32::MAX,
    ensures
        ({
            let n = s.len() as int;
            let (t, u) = (length_run(s, x, l, q), length_run(s, x, l, q + 1));
            let st = (scrambled(state_after(x, q + 1)) as int / 0x1_0000_0000) % (n - l + 1);
            &&& 0 <= st <= n - l
            &&& t.len() == n
            &&& u.len() == n
            &&& forall|k: int| 0 <= k < l ==> #[trigger] u[st + k] == t[st + l - 1 - k]
            &&& forall|i: int| 0 <= i < st || st + l <= i < n ==> #[trigger] u[i] == t[i]
        }),
        length_run(s, x, l, 0) == s,
{
    crate::workload::lemma_length_run_len(s, x, l, q);
    law_below_is_a_remainder(state_after(x, q + 1), (s.len() - l + 1) as u32);
}

/// One operation of a run by length changes a sequence of different elements, if the
/// ranges have more than one element.
pub proof fn law_length_step_is_seen(s: Seq<u32>, x: u64, l: int)
    requires
        1 < l <= s.len() <= u32::MAX,
        s.no_duplicates(),
    ensures
        length_run(s, x, l, 1) != s,
{
    law_length_step(s, x, l, 0);
    let u = length_run(s, x, l, 1);
    let st = (scrambled(state_after(x, 1)) as int / 0x1_0000_0000) % (s.len() - l + 1);
    assert(u[st + 0] == s[st + l - 1]);
    assert(s[st] != s[st + l - 1]);
}

/// The seeds of two trials differ exactly where their parameters do, bit by bit.
pub proof fn law_trial_seeds(m: usize, a: u32)
    ensures
        length_trial_seed(m as int, a) ^ (a as u64) == 0x9e37_79b9_7f4a_7c15u64 ^ (m as u64),
        batch_trial_seed(m as int, a) ^ (a as u64) == 0xabcd_ef01_2345_6789u64 ^ (m as u64),
{
    let (b, c): (u64, u64) = (m as u64, a as u64);
    assert((0x9e37_79b9_7f4a_7c15u64 ^ c ^ b) ^ c == 0x9e37_79b9_7f4a_7c15u64 ^ b && (0xabcd_ef01_2345_6789u64 ^ b
        ^ c) ^ c == 0xabcd_ef01_2345_6789u64 ^ b) by (bit_vector);
}

/// The checksum is linear in every element, with the weight of its position: changing
/// element `i` by some amount changes it by that amount times the weight, and not at all
/// where there is no weight. Elements that are all zero give zero.
pub proof fn law_checksum_is_linear(s: Seq<u32>, w: Seq<u64>, i: int, v: u32)
    requires
        0 <= i < s.len(),
    ensures
        weighted_sum(s.update(i, v), w) == weighted_sum(s, w) + if i < w.len() {
            (v - s[i]) * w[i]
        } else {
            0
        },
    decreases s.len(),
{
    let n = s.update(i, v);
    let e = s.len() - 1;
    if i == e {
        assert(n.drop_last() =~= s.drop_last());
        if i < w.len() {
            assert(v * w[i] == s[i] * w[i] + (v - s[i]) * w[i]) by (nonlinear_arith);
        }
    } else {
        assert(n.drop_last() =~= s.drop_last().update(i, v));
        law_checksum_is_linear(s.drop_last(), w, i, v);
    }
}

/// A sequence of zeros has the checksum zero.
pub proof fn law_checksum_of_zeros(s: Seq<u32>, w: Seq<u64>)
    requires
        forall|i: int| 0 <= i < s.len() ==> #[trigger] s[i] == 0,
    ensures
        weighted_sum(s, w) == 0,
    decreases s.len(),
{
    if s.len() > 0 {
        let e = s.len() - 1;
        assert(s[e] == 0);
        assert(s[e] * w[e] == 0) by (nonlinear_arith)
            requires
                s[e] == 0,
        ;
        law_checksum_of_zeros(s.drop_last(), w);
    }
}

/// The checksum is linear in every weight too.
pub proof fn law_checksum_is_linear_in_weights(s: Seq<u32>, w: Seq<u64>, i: int, v: u64)
    requires
        0 <= i < w.len(),
    ensures
        weighted_sum(s, w.update(i, v)) == weighted_sum(s, w) + if i < s.len() {
            s[i] * (v - w[i])
        } else {
            0
        },
    decreases s.len(),
{
    if s.len() > 0 {
        let n = w.update(i, v);
        let e = s.len() - 1;
        law_checksum_is_linear_in_weights(s.drop_last(), w, i, v);
        if i == e {
            assert(s[i] * v == s[i] * w[i] + s[i] * (v - w[i])) by (nonlinear_arith);
        } else if e < w.len() {
            assert(n[e] == w[e]);
        }
    }
}

/// Swapping two elements is seen by the checksum, unless they or their weights are equal.
pub proof fn law_checksum_sees_a_swap(s: Seq<u32>, w: Seq<u64>, i: int, j: int)
    requires
        0 <= i < s.len(),
        0 <= j < s.len(),
        i < w.len(),
        j < w.len(),
    ensures
        weighted_sum(s.update(i, s[j]).update(j, s[i]), w) == weighted_sum(s, w) + (s[j] - s[i]) * (w[i] - w[j]),
{
    law_checksum_is_linear(s, w, i, s[j]);
    law_checksum_is_linear(s.update(i, s[j]), w, j, s[i]);
    let (a, b): (int, int) = (s[i] as int, s[j] as int);
    let (x, y): (int, int) = (w[i] as int, w[j] as int);
    assert((b - a) * x + (a - b) * y == (b - a) * (x - y)) by (nonlinear_arith);
    if i == j {
        assert((a - a) * x == 0 && (b - a) * (x - y) == 0) by (nonlinear_arith)
            requires
                a == b,
        ;
    }
}

/// Every structure has the number of its method and the sequence that it holds.
pub proof fn law_methods(ds: DS)
    ensures
        match ds {
            DS::Array { a, kind } => ds.method() == kind && ds@ == a@,
            DS::Treap(t) => ds.method() == 3 && ds@ == t@,
            DS::Splay(t) => ds.method() == 4 && ds@ == t@,
            DS::Sqrt(t) => ds.method() == 5 && ds@ == t@,
            DS::SqrtBitset(t) => ds.method() == 6 && ds@ == t@,
            DS::SqrtBitset2(t) => ds.method() == 7 && ds@ == t@,
        },
{
}

/// Every method holds at least 2 to the power of 30 elements, and all but three as many
/// as 32-bit positions tell apart.
pub proof fn law_capacities(m: int)
    requires
        0 <= m < 8,
    ensures
        m < 4 || m == 5 ==> capacity(m) == u32::MAX,
        m == 4 ==> capacity(m) == 0x7fff_fffd,
        m == 6 ==> capacity(m) == 0x8000_0000,
        m == 7 ==> capacity(m) == 0x4000_0000,
{
}

} // verus!
