//! Reversing a stretch of an array in place.
use vstd::prelude::*;

use crate::seqs::reversed;

verus! {

/// Reverses `a[l..r]` by swapping from both ends; does nothing when `l >= r`.
pub fn reverse_scalar(a: &mut [u32], l: usize, r: usize)
    requires
        l < r ==> r <= old(a)@.len(),
    ensures
        final(a)@ == reversed(old(a)@, l as int, r as int),
{
    let ghost s = a@;
    let mut l1: usize = l;
    let mut r1: usize = r;
    while l1 < r1
        invariant
            s == old(a)@,
            a@.len() == s.len(),
            l <= l1,
            r1 <= r,
            l < r ==> r <= s.len(),
            l1 - l == r - r1,
            l < r ==> l1 <= r1 + 1,
            l >= r ==> l1 == l,
            forall|i: int|
                0 <= i < s.len() ==> a@[i] == if l <= i < l1 || r1 <= i < r {
                    s[l + r - 1 - i]
                } else {
                    s[i]
                },
        decreases r1,
    {
        r1 = r1 - 1;
        let x: u32 = a[l1];
        let y: u32 = a[r1];
        a[l1] = y;
        a[r1] = x;
        l1 = l1 + 1;
    }
    assert(a@ =~= reversed(s, l as int, r as int));
}

/// Reverses `a[l..r]`, whatever the elements are, by exchanging them pairwise.
pub fn reverse_range<T>(a: &mut [T], l: usize, r: usize)
    requires
        l <= r <= old(a)@.len(),
    ensures
        final(a)@ == reversed(old(a)@, l as int, r as int),
{
    let ghost s = a@;
    let half: usize = (r - l) / 2;
    let mut k: usize = 0;
    while k < half
        invariant
            s == old(a)@,
            a@.len() == s.len(),
            l <= r <= s.len(),
            half == (r - l) / 2,
            k <= half,
            forall|i: int|
                0 <= i < s.len() ==> a@[i] == if l <= i < l + k || r - k <= i < r {
                    s[l + r - 1 - i]
                } else {
                    s[i]
                },
        decreases half - k,
    {
        let ghost before = a@;
        let (lo, hi) = a.split_at_mut(r - 1 - k);
        std::mem::swap(&mut lo[l + k], &mut hi[0]);
        assert(a@ =~= before.update(l + k, before[r - 1 - k]).update(r - 1 - k, before[l + k]));
        k = k + 1;
    }
    assert(a@ =~= reversed(s, l as int, r as int));
}

/// Reverses `a[l..r]`.
pub fn reverse_std(a: &mut [u32], l: usize, r: usize)
    requires
        l <= r <= old(a)@.len(),
    ensures
        final(a)@ == reversed(old(a)@, l as int, r as int),
{
    reverse_range(a, l, r);
}

/// The eight elements of `a` that start at `p`.
fn load8(a: &[u32], p: usize) -> (v: [u32; 8])
    requires
        p + 8 <= a@.len(),
    ensures
        v@ == a@.subrange(p as int, p + 8),
{
    let v: [u32; 8] = [
        a[p],
        a[p + 1],
        a[p + 2],
        a[p + 3],
        a[p + 4],
        a[p + 5],
        a[p + 6],
        a[p + 7],
    ];
    assert(v@ =~= a@.subrange(p as int, p + 8));
    v
}

/// Stores `v`, last lane first, at `p`.
fn store8_reversed(a: &mut [u32], p: usize, v: &[u32; 8])
    requires
        p + 8 <= old(a)@.len(),
    ensures
        final(a)@.len() == old(a)@.len(),
        forall|i: int|
            0 <= i < old(a)@.len() ==> final(a)@[i] == if p <= i < p + 8 {
                v@[p + 7 - i]
            } else {
                old(a)@[i]
            },
{
    a[p] = v[7];
    a[p + 1] = v[6];
    a[p + 2] = v[5];
    a[p + 3] = v[4];
    a[p + 4] = v[3];
    a[p + 5] = v[2];
    a[p + 6] = v[1];
    a[p + 7] = v[0];
}

/// Reverses `a[l..r]` eight elements at a time from both ends, and what is left
/// in the middle one by one; does nothing when `l >= r`.
pub fn reverse_avx2(a: &mut [u32], l: usize, r: usize)
    requires
        l < r ==> r <= old(a)@.len(),
    ensures
        final(a)@ == reversed(old(a)@, l as int, r as int),
{
    let ghost s = a@;
    if l >= r {
        assert(a@ =~= reversed(s, l as int, r as int));
        return;
    }
    let mut l1: usize = l;
    let mut r1: usize = r;
    while l1 < r1 && r1 - l1 >= 8
        invariant
            s == old(a)@,
            a@.len() == s.len(),
            l < r <= s.len(),
            l <= l1,
            r1 <= r,
            l1 - l == r - r1,
            l <= r1,
            forall|i: int|
                0 <= i < s.len() ==> a@[i] == if l <= i < l1 || r1 <= i < r {
                    s[l + r - 1 - i]
                } else {
                    s[i]
                },
        decreases r1,
    {
        let lv: [u32; 8] = load8(a, l1);
        let rv: [u32; 8] = load8(a, r1 - 8);
        let ghost before = a@;
        store8_reversed(a, l1, &rv);
        store8_reversed(a, r1 - 8, &lv);
        proof {
            assert forall|i: int| 0 <= i < s.len() implies a@[i] == if l <= i < l1 + 8 || r1 - 8 <= i < r {
                s[l + r - 1 - i]
            } else {
                s[i]
            } by {
                if r1 - 8 <= i < r1 {
                    assert(lv@[r1 - 1 - i] == before[l1 + r1 - 1 - i]);
                } else if l1 <= i < l1 + 8 {
                    assert(rv@[l1 + 7 - i] == before[r1 - 8 + (l1 + 7 - i)]);
                }
            }
        }
        l1 = l1 + 8;
        r1 = r1 - 8;
    }
    let ghost mid = a@;
    reverse_scalar(a, l1, r1);
    assert(a@ =~= reversed(s, l as int, r as int)) by {
        assert forall|i: int| 0 <= i < s.len() implies a@[i] == reversed(s, l as int, r as int)[i] by {
            assert(a@[i] == reversed(mid, l1 as int, r1 as int)[i]);
            if l1 <= i < r1 {
                assert(mid[l1 + r1 - 1 - i] == s[l1 + r1 - 1 - i]);
            } else {
                assert(a@[i] == mid[i]);
            }
        }
    }
}

/// Flips the bits of `mask` in every element of `a[l..r]`, eight at a time;
/// does nothing when `l >= r`.
pub fn toggle_mask(a: &mut [u32], l: u32, r: u32, mask: u32)
    requires
        l < r ==> r <= old(a)@.len(),
    ensures
        final(a)@.len() == old(a)@.len(),
        forall|i: int|
            0 <= i < old(a)@.len() ==> #[trigger] final(a)@[i] == if l <= i < r {
                old(a)@[i] ^ mask
            } else {
                old(a)@[i]
            },
{
    let rr: usize = r as usize;
    let mut i: usize = l as usize;
    while i < rr && rr - i >= 8
        invariant
            a@.len() == old(a)@.len(),
            rr == r,
            l <= i,
            l < r ==> i <= r <= old(a)@.len(),
            l >= r ==> i == l,
            forall|k: int|
                0 <= k < old(a)@.len() ==> #[trigger] a@[k] == if l <= k < i {
                    old(a)@[k] ^ mask
                } else {
                    old(a)@[k]
                },
        decreases rr - i,
    {
        let x: [u32; 8] = load8(a, i);
        a[i] = x[0] ^ mask;
        a[i + 1] = x[1] ^ mask;
        a[i + 2] = x[2] ^ mask;
        a[i + 3] = x[3] ^ mask;
        a[i + 4] = x[4] ^ mask;
        a[i + 5] = x[5] ^ mask;
        a[i + 6] = x[6] ^ mask;
        a[i + 7] = x[7] ^ mask;
        i = i + 8;
    }
    while i < rr
        invariant
            a@.len() == old(a)@.len(),
            rr == r,
            l <= i,
            l < r ==> i <= r <= old(a)@.len(),
            l >= r ==> i == l,
            forall|k: int|
                0 <= k < old(a)@.len() ==> #[trigger] a@[k] == if l <= k < i {
                    old(a)@[k] ^ mask
                } else {
                    old(a)@[k]
                },
        decreases rr - i,
    {
        let x: u32 = a[i];
        a[i] = x ^ mask;
        i = i + 1;
    }
}

} // verus!
