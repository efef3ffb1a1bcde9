//! All range-reversal methods behind one type.
use vstd::prelude::*;

use crate::blocks::append_slice;
use crate::brute::{reverse_avx2, reverse_scalar, reverse_std};
use crate::splay::Splay;
use crate::sqrt::Sqrt;
use crate::sqrt_bitset::{SqrtBitset, MAX_SLOTS};
use crate::sqrt_bitset2::SqrtBitset2;
use crate::treap::Treap;

verus! {

use crate::blocks::{chunked, is_block_size};
use crate::seqs::{concat, reversed};
use crate::splay::balanced;
use crate::treap::drawn_priorities;

/// The number of methods.
pub const METHOD_COUNT: usize = 8;

/// The name of method `m`.
pub open spec fn name_of(m: int) -> Seq<char> {
    if m == 0 {
        "brute"@
    } else if m == 1 {
        "std"@
    } else if m == 2 {
        "avx2"@
    } else if m == 3 {
        "treap"@
    } else if m == 4 {
        "splay"@
    } else if m == 5 {
        "sqrt"@
    } else if m == 6 {
        "sqrt_bitset"@
    } else {
        "sqrt_bitset2"@
    }
}

/// The name of method `m`.
pub fn method_name(m: usize) -> (name: &'static str)
    requires
        m < METHOD_COUNT,
    ensures
        name@ == name_of(m as int),
{
    match m {
        0 => "brute",
        1 => "std",
        2 => "avx2",
        3 => "treap",
        4 => "splay",
        5 => "sqrt",
        6 => "sqrt_bitset",
        _ => "sqrt_bitset2",
    }
}

/// The largest number of elements for method `m`: positions are 32-bit numbers, and
/// some methods need part of the bits for themselves.
pub open spec fn capacity(m: int) -> int {
    if m == 4 {
        crate::splay::MAX_LEN as int
    } else if m == 6 {
        MAX_SLOTS as int
    } else if m == 7 {
        crate::superblock::MAX_LEN as int
    } else {
        u32::MAX as int
    }
}

/// Whether `len` elements are within the capacity of method `m`.
pub fn fits(m: usize, len: usize) -> (ok: bool)
    ensures
        ok == (len <= capacity(m as int)),
{
    let cap: u64 = if m == 4 {
        crate::splay::MAX_LEN as u64
    } else if m == 6 {
        0x8000_0000
    } else if m == 7 {
        crate::superblock::MAX_LEN as u64
    } else {
        0xffff_ffff
    };
    len as u64 <= cap
}

/// Reverses `a[l..=r]` in place by method `m`.
pub fn apply_reverse(m: usize, a: &mut [u32], l: u32, r: u32)
    requires
        m < 3,
        l <= r < old(a)@.len(),
    ensures
        final(a)@ == reversed(old(a)@, l as int, r + 1),
{
    assert(r < a.len());
    match m {
        0 => reverse_scalar(a, l as usize, r as usize + 1),
        1 => reverse_std(a, l as usize, r as usize + 1),
        _ => reverse_avx2(a, l as usize, r as usize + 1),
    }
}

/// A sequence of numbers under one of the methods.
pub enum DS {
    Array { a: Vec<u32>, kind: usize },
    Treap(Treap),
    Splay(Splay),
    Sqrt(Sqrt),
    SqrtBitset(SqrtBitset),
    SqrtBitset2(SqrtBitset2),
}

/// The sum of the products of values and weights, position by position, as far as
/// there are both.
pub open spec fn weighted_sum(s: Seq<u32>, w: Seq<u64>) -> int
    decreases s.len(),
{
    if s.len() == 0 {
        0
    } else {
        weighted_sum(s.drop_last(), w) + if s.len() <= w.len() {
            s.last() * w[s.len() - 1]
        } else {
            0
        }
    }
}

impl DS {
    /// The sequence.
    pub open spec fn view(&self) -> Seq<u32> {
        match self {
            DS::Array { a, .. } => a@,
            DS::Treap(t) => t@,
            DS::Splay(s) => s@,
            DS::Sqrt(q) => q@,
            DS::SqrtBitset(q) => q@,
            DS::SqrtBitset2(q) => q@,
        }
    }

    /// The invariant of the method.
    pub open spec fn wf(&self) -> bool {
        match self {
            DS::Array { kind, .. } => *kind < 3,
            DS::Treap(t) => t.wf(),
            DS::Splay(s) => s.wf(),
            DS::Sqrt(q) => q.wf(),
            DS::SqrtBitset(q) => q.wf() && q@.len() <= MAX_SLOTS,
            DS::SqrtBitset2(q) => q.wf(),
        }
    }

    /// Which method it is.
    pub open spec fn method(&self) -> int {
        match self {
            DS::Array { kind, .. } => *kind as int,
            DS::Treap(_) => 3,
            DS::Splay(_) => 4,
            DS::Sqrt(_) => 5,
            DS::SqrtBitset(_) => 6,
            DS::SqrtBitset2(_) => 7,
        }
    }

    /// The sequence `a` under method `m`.
    pub fn new(m: usize, a: &[u32], seed: u64, block_size: u32) -> (ds: DS)
        requires
            m < METHOD_COUNT,
            a@.len() <= capacity(m as int),
        ensures
            ds.wf(),
            ds@ == a@,
            ds.method() == m,
            match ds {
                DS::Array { .. } => true,
                DS::Treap(t) => t.priorities() == drawn_priorities(seed, a@.len()) && t.unmarked(),
                DS::Splay(s) => s.unmarked() && s.shape() == balanced(1, a@.len() as int + 2),
                DS::Sqrt(q) => is_block_size(a@.len() as int, block_size as int, q.block_size()) && chunked(
                    q.blocks(),
                    q.block_size(),
                ),
                DS::SqrtBitset(q) => is_block_size(a@.len() as int, block_size as int, q.block_size()) && chunked(
                    q.blocks(),
                    q.block_size(),
                ),
                DS::SqrtBitset2(q) => is_block_size(a@.len() as int, block_size as int, q.block_size()) && chunked(
                    concat(q.superblocks()),
                    q.block_size(),
                ),
            },
    {
        match m {
            0 | 1 | 2 => {
                let mut v: Vec<u32> = Vec::new();
                append_slice(&mut v, a);
                assert(v@ =~= a@);
                DS::Array { a: v, kind: m }
            },
            3 => DS::Treap(Treap::new(a, seed)),
            4 => DS::Splay(Splay::new(a, seed)),
            5 => DS::Sqrt(Sqrt::new(a, seed, block_size)),
            6 => DS::SqrtBitset(SqrtBitset::new(a, seed, block_size)),
            _ => DS::SqrtBitset2(SqrtBitset2::new(a, seed, block_size)),
        }
    }

    /// Reverses the elements `l..=r`.
    pub fn reverse(&mut self, l: u32, r: u32)
        requires
            old(self).wf(),
            l <= r < old(self)@.len(),
        ensures
            final(self).wf(),
            final(self)@ == reversed(old(self)@, l as int, r + 1),
            final(self).method() == old(self).method(),
    {
        match self {
            DS::Array { a, kind } => apply_reverse(*kind, a, l, r),
            DS::Treap(t) => t.reverse(l, r),
            DS::Splay(s) => s.reverse(l, r),
            DS::Sqrt(q) => q.reverse(l, r),
            DS::SqrtBitset(q) => q.reverse(l, r),
            DS::SqrtBitset2(q) => q.reverse(l, r),
        }
    }

    /// Writes the sequence to `out`.
    pub fn collect(&mut self, out: &mut Vec<u32>)
        requires
            old(self).wf(),
        ensures
            final(self).wf(),
            final(self)@ == old(self)@,
            final(self).method() == old(self).method(),
            final(out)@ == old(self)@,
    {
        match self {
            DS::Array { a, .. } => {
                out.clear();
                append_slice(out, a);
                assert(out@ =~= a@);
            },
            DS::Treap(t) => t.collect(out),
            DS::Splay(s) => s.collect(out),
            DS::Sqrt(q) => q.collect(out),
            DS::SqrtBitset(q) => q.collect(out),
            DS::SqrtBitset2(q) => q.collect(out),
        }
    }

    /// A checksum that depends on the positions: the weighted sum modulo 2 to the
    /// power of 64. The sequence is left in `out`.
    pub fn weighted(&mut self, w: &[u64], out: &mut Vec<u32>) -> (c: u64)
        requires
            old(self).wf(),
        ensures
            final(self).wf(),
            final(self)@ == old(self)@,
            final(self).method() == old(self).method(),
            final(out)@ == old(self)@,
            c == weighted_sum(old(self)@, w@) % 0x1_0000_0000_0000_0000,
    {
        self.collect(out);
        let mut c: u64 = 0;
        let mut i: usize = 0;
        let ghost s = out@;
        assert(s.take(0) =~= Seq::empty());
        while i < out.len() && i < w.len()
            invariant
                out@ == s,
                i <= s.len(),
                i <= w@.len(),
                c == weighted_sum(s.take(i as int), w@) % 0x1_0000_0000_0000_0000,
            decreases s.len() - i,
        {
            let x: u64 = (out[i] as u64).wrapping_mul(w[i]);
            proof {
                assert(s.take(i + 1).drop_last() =~= s.take(i as int));
                lemma_add_product(
                    weighted_sum(s.take(i as int), w@),
                    s[i as int] as int,
                    w@[i as int] as int,
                );
            }
            c = c.wrapping_add(x);
            i = i + 1;
        }
        proof {
            lemma_weighted_rest(s, w@, i as int);
        }
        c
    }
}

/// Reducing an addend and a product on the way changes nothing of the reduced sum.
proof fn lemma_add_product(a: int, x: int, w: int)
    ensures
        (a % 0x1_0000_0000_0000_0000 + (x * w) % 0x1_0000_0000_0000_0000) % 0x1_0000_0000_0000_0000 == (a + x
            * w) % 0x1_0000_0000_0000_0000,
{
    vstd::arithmetic::div_mod::lemma_add_mod_noop(a, x * w, 0x1_0000_0000_0000_0000);
}

/// Elements without a weight add nothing.
proof fn lemma_weighted_rest(s: Seq<u32>, w: Seq<u64>, i: int)
    requires
        0 <= i <= s.len(),
        i == s.len() || i == w.len(),
    ensures
        weighted_sum(s, w) == weighted_sum(s.take(i), w),
    decreases s.len(),
{
    if i == s.len() {
        assert(s.take(i) =~= s);
    } else {
        lemma_weighted_rest(s.drop_last(), w, i);
        assert(s.drop_last().take(i) =~= s.take(i));
    }
}

} // verus!
