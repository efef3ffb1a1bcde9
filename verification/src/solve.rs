//! A program in one function: reads a number `n` and a list of ranges, reverses the
//! ranges one after the other in the numbers from 1 to `n`, and writes the result.
use vstd::prelude::*;

use crate::fast_in::FastIn;
use crate::fast_out::FastOut;
use crate::sqrt_bitset::SqrtBitset;

verus! {

use crate::blocks::{after_reversal, chunked, chunks, is_auto_block, most_blocks, reversible};
use crate::blocks::{lemma_chunked_once, lemma_chunks};
use crate::digits::decimal;
use crate::fast_in::{int_end, int_value};
use crate::laws::law_one_auto_block;
use crate::seqs::concat;
use crate::sqrt_bitset::MAX_SLOTS;
use crate::wrap::m32;

/// The 32-bit number read from position `p` on.
pub open spec fn read_u32(s: Seq<u8>, p: int) -> u32 {
    (int_value(s, p) % m32()) as u32
}

/// The numbers from 1 to `n`.
pub open spec fn counting(n: int) -> Seq<u32> {
    Seq::new(n as nat, |i: int| (i + 1) as u32)
}

/// The length of the blocks for the numbers from 1 to `n`.
pub open spec fn block_length(n: int) -> int {
    choose|b: int| is_auto_block(n, b)
}

/// The numbers from 1 to `n`, cut into blocks.
pub open spec fn first_blocks(n: int) -> Seq<Seq<u32>> {
    chunks(counting(n), block_length(n))
}

/// The position `k`, counted from 1, as one that is counted from 0, in 32 bits: the
/// position 0 comes to be past the end of any sequence.
pub open spec fn from_zero(k: u32) -> int {
    (k - 1) % m32()
}

/// The blocks `ps` of length `b` after the `m` reversals that are read from position `p`
/// on, each given by its first and last position, counted from 1. A position past the
/// end stands for the first one. There is no result if the last position of a reversal
/// comes before the first, unless right before it in the same block, or if there come to
/// be more blocks than slot numbers.
pub open spec fn after_queries(s: Seq<u8>, p: int, m: nat, ps: Seq<Seq<u32>>, b: int) -> Option<Seq<Seq<u32>>>
    decreases m,
{
    if m == 0 {
        Some(ps)
    } else {
        let l = from_zero(read_u32(s, p));
        let p1 = int_end(s, p);
        let r = from_zero(read_u32(s, p1));
        if reversible(ps, l, r) && most_blocks(ps, b, l, r) <= MAX_SLOTS {
            after_queries(s, int_end(s, p1), (m - 1) as nat, after_reversal(ps, b, l, r), b)
        } else {
            None
        }
    }
}

/// What the input from position `p` on asks for: `n`, the number of reversals, and
/// the reversals.
pub open spec fn answer(s: Seq<u8>, p: int) -> Option<Seq<u32>> {
    let n = read_u32(s, p) as int;
    let p1 = int_end(s, p);
    let m = read_u32(s, p1);
    match after_queries(s, int_end(s, p1), m as nat, first_blocks(n), block_length(n)) {
        Some(ps) => Some(concat(ps)),
        None => None,
    }
}

/// The numbers in decimal, separated by spaces.
pub open spec fn spaced(t: Seq<u32>) -> Seq<u8>
    decreases t.len(),
{
    if t.len() == 0 {
        Seq::empty()
    } else if t.len() == 1 {
        decimal(t[0] as nat)
    } else {
        spaced(t.drop_last()).push(32) + decimal(t.last() as nat)
    }
}

/// Writes the numbers, separated by spaces.
pub fn write_spaced(out: &mut FastOut, vals: &[u32])
    ensures
        final(out)@ == old(out)@ + spaced(vals@),
{
    let mut i: usize = 0;
    assert(vals@.take(0) =~= Seq::empty());
    assert(out@ =~= old(out)@ + spaced(vals@.take(0)));
    while i < vals.len()
        invariant
            i <= vals@.len(),
            out@ == old(out)@ + spaced(vals@.take(i as int)),
        decreases vals@.len() - i,
    {
        if i > 0 {
            out.push(32);
        }
        out.write_u32(vals[i]);
        proof {
            assert(vals@.take(i + 1).drop_last() =~= vals@.take(i as int));
            assert(out@ =~= old(out)@ + spaced(vals@.take(i + 1)));
        }
        i = i + 1;
    }
    assert(vals@.take(i as int) =~= vals@);
}

/// There is one way to cut the numbers from 1 to `n` into blocks.
pub proof fn lemma_first_blocks(n: int, b: int, ps: Seq<Seq<u32>>)
    requires
        is_auto_block(n, b),
        chunked(ps, b),
        concat(ps) == counting(n),
    ensures
        b == block_length(n),
        ps == first_blocks(n),
{
    law_one_auto_block(n, b, block_length(n));
    lemma_chunks(counting(n), b);
    lemma_chunked_once(ps, first_blocks(n), b);
}

/// Carries out what the input asks for. Returns whether it could be done; if not,
/// nothing is written.
pub fn solve(inp: &mut FastIn, out: &mut FastOut) -> (done: bool)
    ensures
        match answer(old(inp).bytes(), old(inp).pos()) {
            Some(t) => done && final(out)@ == old(out)@ + spaced(t).push(10),
            None => !done && final(out)@ == old(out)@,
        },
{
    let ghost s = inp.bytes();
    let ghost want = answer(s, inp.pos());
    let n: u32 = inp.next_u32();
    let m: u32 = inp.next_u32();
    let mut sol: SqrtBitset = SqrtBitset::identity(n);
    let ghost b = sol.block_size();
    proof {
        assert(sol@ =~= counting(n as int));
        sol.law_blocks();
        lemma_first_blocks(n as int, b, sol.blocks());
    }
    let ghost rest = after_queries(s, inp.pos(), m as nat, sol.blocks(), b);
    let mut k: u32 = 0;
    while k < m
        invariant
            k <= m,
            sol.wf(),
            sol.block_size() == b,
            inp.bytes() == s,
            out@ == old(out)@,
            want == answer(old(inp).bytes(), old(inp).pos()),
            want == match rest {
                Some(ps) => Some(concat(ps)),
                None => None,
            },
            rest == after_queries(s, inp.pos(), (m - k) as nat, sol.blocks(), b),
        decreases m - k,
    {
        let l: u32 = inp.next_u32().wrapping_sub(1);
        let r: u32 = inp.next_u32().wrapping_sub(1);
        if !sol.can_reverse(l, r) {
            return false;
        }
        sol.reverse(l, r);
        k = k + 1;
    }
    proof {
        sol.law_blocks();
    }
    let mut vals: Vec<u32> = Vec::new();
    sol.collect(&mut vals);
    write_spaced(out, &vals);
    out.ln();
    proof {
        assert(out@ =~= old(out)@ + spaced(sol@).push(10));
    }
    true
}

} // verus!
