//! The workloads on which the methods are compared: what is drawn, which ranges are
//! reversed, that the result is right, and how many operations to time.
use vstd::prelude::*;

use crate::blocks::append_slice;
use crate::brute::reverse_scalar;
use crate::ds::{DS, METHOD_COUNT};
use crate::rng::{rnd, splitmix64};

verus! {

use crate::ds::capacity;
use crate::rng::{below, next_state, scrambled, state_after};
use crate::seqs::reversed;

/// How often each measurement is repeated.
pub const ROUNDS: usize = 9;

/// The largest number of operations in one measurement by length.
pub const Q_CAP: u64 = 8_000_000;

/// The number of operations in one measurement by size.
pub const OPS: u32 = 5000;

/// The number of elements in a measurement by length.
pub const LEN_N: u32 = 0x10_0000;

proof fn lemma_two_draws(x: u64, k: nat)
    ensures
        state_after(x, 2 * (k + 1)) == next_state(next_state(state_after(x, 2 * k))),
{
    assert(state_after(x, (2 * k + 1) as nat) == next_state(state_after(x, 2 * k)));
    assert(state_after(x, (2 * k + 2) as nat) == next_state(state_after(x, (2 * k + 1) as nat)));
}

/// `n` drawn elements below 65536.
pub open spec fn elements(x: u64, n: nat) -> Seq<u32> {
    Seq::new(n, |i: int| (scrambled(state_after(x, (i + 1) as nat)) & 0xffff) as u32)
}

/// `n` drawn weights.
pub open spec fn drawn_weights(x: u64, n: nat) -> Seq<u64> {
    Seq::new(n, |i: int| scrambled(state_after(x, (i + 1) as nat)))
}

/// Draws the elements of a sequence of length `n`.
pub fn template(n: u32, seed: &mut u64) -> (v: Vec<u32>)
    ensures
        v@ == elements(*old(seed), n as nat),
        *final(seed) == state_after(*old(seed), n as nat),
{
    let mut v: Vec<u32> = Vec::new();
    let mut i: u32 = 0;
    while i < n
        invariant
            i <= n,
            v@ == elements(*old(seed), i as nat),
            *seed == state_after(*old(seed), i as nat),
        decreases n - i,
    {
        let z: u64 = splitmix64(seed);
        assert(z & 0xffff <= 0xffff) by (bit_vector);
        v.push((z & 0xffff) as u32);
        i = i + 1;
        assert(v@ =~= elements(*old(seed), i as nat));
    }
    v
}

/// Draws a weight for each of `n` positions.
pub fn weights(n: u32, seed: &mut u64) -> (v: Vec<u64>)
    ensures
        v@ == drawn_weights(*old(seed), n as nat),
        *final(seed) == state_after(*old(seed), n as nat),
{
    let mut v: Vec<u64> = Vec::new();
    let mut i: u32 = 0;
    while i < n
        invariant
            i <= n,
            v@ == drawn_weights(*old(seed), i as nat),
            *seed == state_after(*old(seed), i as nat),
        decreases n - i,
    {
        v.push(splitmix64(seed));
        i = i + 1;
        assert(v@ =~= drawn_weights(*old(seed), i as nat));
    }
    v
}

/// `s` after `q` reversals of ranges of length `l` at drawn positions.
pub open spec fn length_run(s: Seq<u32>, x: u64, l: int, q: nat) -> Seq<u32>
    decreases q,
{
    if q == 0 {
        s
    } else {
        let t = length_run(s, x, l, (q - 1) as nat);
        let st = below(state_after(x, q), (s.len() - l + 1) as u32);
        reversed(t, st as int, st + l)
    }
}

pub proof fn lemma_length_run_len(s: Seq<u32>, x: u64, l: int, q: nat)
    ensures
        length_run(s, x, l, q).len() == s.len(),
    decreases q,
{
    if q > 0 {
        lemma_length_run_len(s, x, l, (q - 1) as nat);
    }
}

/// Reverses `q` ranges of length `l` at drawn positions.
pub fn length_ops(ds: &mut DS, s: &mut u64, n: u32, l: u32, q: u64)
    requires
        old(ds).wf(),
        old(ds)@.len() == n,
        1 <= l <= n,
    ensures
        final(ds).wf(),
        final(ds).method() == old(ds).method(),
        final(ds)@ == length_run(old(ds)@, *old(s), l as int, q as nat),
        *final(s) == state_after(*old(s), q as nat),
{
    let mut i: u64 = 0;
    while i < q
        invariant
            i <= q,
            ds.wf(),
            ds.method() == old(ds).method(),
            old(ds)@.len() == n,
            1 <= l <= n,
            ds@ == length_run(old(ds)@, *old(s), l as int, i as nat),
            *s == state_after(*old(s), i as nat),
        decreases q - i,
    {
        proof {
            lemma_length_run_len(old(ds)@, *old(s), l as int, i as nat);
        }
        let st: u32 = rnd(s, n - l + 1);
        ds.reverse(st, st + (l - 1));
        i = i + 1;
    }
}

/// The lower and the upper of the two positions below `n` drawn from state `x` on.
pub open spec fn drawn_range(x: u64, n: u32) -> (u32, u32) {
    let a = below(next_state(x), n);
    let b = below(next_state(next_state(x)), n);
    if a > b {
        (b, a)
    } else {
        (a, b)
    }
}

/// `s` after `q` reversals of drawn ranges.
pub open spec fn batch_run(s: Seq<u32>, x: u64, q: nat) -> Seq<u32>
    decreases q,
{
    if q == 0 {
        s
    } else {
        let t = batch_run(s, x, (q - 1) as nat);
        let (l, r) = drawn_range(state_after(x, (2 * (q - 1)) as nat), s.len() as u32);
        reversed(t, l as int, r + 1)
    }
}

pub proof fn lemma_batch_run_len(s: Seq<u32>, x: u64, q: nat)
    ensures
        batch_run(s, x, q).len() == s.len(),
    decreases q,
{
    if q > 0 {
        lemma_batch_run_len(s, x, (q - 1) as nat);
    }
}

/// Draws a range of positions below `n`.
pub fn draw_range(s: &mut u64, n: u32) -> (lr: (u32, u32))
    requires
        n > 0,
    ensures
        lr == drawn_range(*old(s), n),
        lr.0 <= lr.1 < n,
        *final(s) == next_state(next_state(*old(s))),
{
    let l: u32 = rnd(s, n);
    let r: u32 = rnd(s, n);
    if l > r {
        (r, l)
    } else {
        (l, r)
    }
}

/// Reverses `q` drawn ranges.
pub fn batch_ops(ds: &mut DS, s: &mut u64, n: u32, q: u32)
    requires
        old(ds).wf(),
        old(ds)@.len() == n,
        n > 0,
    ensures
        final(ds).wf(),
        final(ds).method() == old(ds).method(),
        final(ds)@ == batch_run(old(ds)@, *old(s), q as nat),
        *final(s) == state_after(*old(s), 2 * q as nat),
{
    let mut i: u32 = 0;
    while i < q
        invariant
            i <= q,
            ds.wf(),
            ds.method() == old(ds).method(),
            old(ds)@.len() == n,
            n > 0,
            ds@ == batch_run(old(ds)@, *old(s), i as nat),
            *s == state_after(*old(s), 2 * i as nat),
        decreases q - i,
    {
        proof {
            lemma_batch_run_len(old(ds)@, *old(s), i as nat);
            lemma_two_draws(*old(s), i as nat);
        }
        let (l, r): (u32, u32) = draw_range(s, n);
        ds.reverse(l, r);
        i = i + 1;
    }
}

/// A copy of `s`.
fn copied(s: &[u32]) -> (v: Vec<u32>)
    ensures
        v@ == s@,
{
    let mut v: Vec<u32> = Vec::new();
    append_slice(&mut v, s);
    assert(v@ =~= s@);
    v
}

/// Whether two sequences are equal.
pub fn same(a: &[u32], b: &[u32]) -> (r: bool)
    ensures
        r == (a@ == b@),
{
    if a.len() != b.len() {
        return false;
    }
    let mut i: usize = 0;
    while i < a.len()
        invariant
            i <= a@.len() == b@.len(),
            forall|k: int| 0 <= k < i ==> a@[k] == b@[k],
        decreases a@.len() - i,
    {
        if a[i] != b[i] {
            return false;
        }
        i = i + 1;
    }
    assert(a@ =~= b@);
    true
}

/// The state from which the elements of a trial by length are drawn.
pub open spec fn length_trial_seed(m: int, l: u32) -> u64 {
    (0x9e37_79b9_7f4a_7c15u64 ^ (l as u64)) ^ (m as u64)
}

/// The number of reversals in a trial by length.
pub const LENGTH_TRIALS: u64 = 8;

/// Tries method `m` on `n` elements and ranges of length `l`: reverses
/// `LENGTH_TRIALS` drawn ranges, each on a fresh structure, and compares with plain
/// reversal after each. Returns the elements in the end, or nothing if there was a
/// difference. Method 0 is the plain reversal, so there is nothing to try.
pub fn verify_length(m: usize, n: u32, l: u32) -> (end: Option<Vec<u32>>)
    requires
        m < METHOD_COUNT,
        1 <= l <= n <= capacity(m as int),
    ensures
        end is Some,
        ({
            let x = length_trial_seed(m as int, l);
            let s = elements(x, n as nat);
            end->0@ == if m == 0 {
                s
            } else {
                length_run(s, state_after(x, n as nat) ^ 0x1234_5678_9abc_def0, l as int, LENGTH_TRIALS as nat)
            }
        }),
{
    let mut seed: u64 = (0x9e37_79b9_7f4a_7c15u64 ^ (l as u64)) ^ (m as u64);
    let mut a: Vec<u32> = template(n, &mut seed);
    if m == 0 {
        return Some(a);
    }
    let ghost first = a@;
    let mut b: Vec<u32> = copied(&a);
    let mut s: u64 = seed ^ 0x1234_5678_9abc_def0;
    let ghost s0 = s;
    let mut got: Vec<u32> = Vec::new();
    let mut i: u64 = 0;
    while i < LENGTH_TRIALS
        invariant
            i <= LENGTH_TRIALS,
            m < METHOD_COUNT,
            1 <= l <= n <= capacity(m as int),
            first.len() == n,
            a@ == length_run(first, s0, l as int, i as nat),
            b@ == a@,
            s == state_after(s0, i as nat),
        decreases LENGTH_TRIALS - i,
    {
        proof {
            lemma_length_run_len(first, s0, l as int, i as nat);
        }
        let st: u32 = rnd(&mut s, n - l + 1);
        let r: u32 = st + l;
        reverse_scalar(&mut a, st as usize, r as usize);
        let mut ds: DS = DS::new(m, &b, seed, 0);
        ds.reverse(st, r - 1);
        ds.collect(&mut got);
        if !same(&got, &a) {
            return None;
        }
        b = copied(&a);
        i = i + 1;
    }
    Some(a)
}

/// The state from which the ranges of a trial by size are drawn.
pub open spec fn batch_trial_seed(m: int, n: u32) -> u64 {
    (0xabcd_ef01_2345_6789u64 ^ (m as u64)) ^ (n as u64)
}

/// The number of reversals in a trial by size.
pub const BATCH_TRIALS: u32 = 200;

/// Tries method `m` on the `n` elements `tmpl`: reverses `BATCH_TRIALS` drawn ranges
/// and compares with plain reversal in the end. Returns the elements then, or nothing
/// if there was a difference. Method 0 is the plain reversal, so there is nothing to
/// try.
pub fn verify_batch(m: usize, n: u32, tmpl: &[u32], block_size: u32) -> (end: Option<Vec<u32>>)
    requires
        m < METHOD_COUNT,
        0 < n == tmpl@.len() <= capacity(m as int),
    ensures
        end is Some,
        end->0@ == if m == 0 {
            tmpl@
        } else {
            batch_run(tmpl@, batch_trial_seed(m as int, n), BATCH_TRIALS as nat)
        },
{
    let mut a: Vec<u32> = copied(tmpl);
    if m == 0 {
        return Some(a);
    }
    let mut ds: DS = DS::new(m, tmpl, (0xdead_beefu64 ^ (m as u64)) ^ (n as u64), block_size);
    let mut s: u64 = (0xabcd_ef01_2345_6789u64 ^ (m as u64)) ^ (n as u64);
    let ghost s0 = s;
    let mut i: u32 = 0;
    while i < BATCH_TRIALS
        invariant
            i <= BATCH_TRIALS,
            0 < n == tmpl@.len(),
            ds.wf(),
            ds@ == a@,
            a@ == batch_run(tmpl@, s0, i as nat),
            s == state_after(s0, 2 * i as nat),
        decreases BATCH_TRIALS - i,
    {
        proof {
            lemma_batch_run_len(tmpl@, s0, i as nat);
            lemma_two_draws(s0, i as nat);
        }
        let (l, r): (u32, u32) = draw_range(&mut s, n);
        assert(r < a.len());
        reverse_scalar(&mut a, l as usize, r as usize + 1);
        ds.reverse(l, r);
        i = i + 1;
    }
    let mut got: Vec<u32> = Vec::new();
    ds.collect(&mut got);
    if !same(&got, &a) {
        return None;
    }
    Some(a)
}

/// What to do after a measurement of some number of operations.
pub enum Calibration {
    /// Measure this many operations next.
    Measure { q: u64 },
    /// This many operations take long enough, or as long as they may.
    Settled { q: u64 },
}

/// The number of operations to go on with after `q` of them have been measured:
/// `q` itself if they took long enough, otherwise twice as many, but at most `Q_CAP`.
pub fn calibrate(q: u64, long_enough: bool) -> (step: Calibration)
    ensures
        step == if q > Q_CAP {
            Calibration::Settled { q: Q_CAP }
        } else if long_enough {
            Calibration::Settled { q }
        } else if 2 * q > Q_CAP {
            Calibration::Settled { q: Q_CAP }
        } else {
            Calibration::Measure { q: (2 * q) as u64 }
        },
{
    if q > Q_CAP {
        Calibration::Settled { q: Q_CAP }
    } else if long_enough {
        Calibration::Settled { q }
    } else if 2 * q > Q_CAP {
        Calibration::Settled { q: Q_CAP }
    } else {
        Calibration::Measure { q: 2 * q }
    }
}

/// The state from which round `r` of a measurement of method `m` starts; `base` and
/// the parameters `x` and `y` tell the measurements apart.
pub fn round_seed(base: u64, m: usize, x: u32, y: u32, r: usize) -> (seed: u64)
    ensures
        seed == base ^ (m as u64) ^ (x as u64) ^ (y as u64) ^ ((r as u64) << 32),
{
    base ^ (m as u64) ^ (x as u64) ^ (y as u64) ^ ((r as u64) << 32)
}

} // verus!
