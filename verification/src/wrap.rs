//! Arithmetic modulo a power of two.
use vstd::prelude::*;

verus! {

/// Two to the power 64.
pub open spec fn m64() -> int {
    0x1_0000_0000_0000_0000
}

/// Two to the power 32.
pub open spec fn m32() -> int {
    0x1_0000_0000
}

/// The number of values of `usize`.
pub open spec fn msize() -> int {
    usize::MAX + 1
}

/// The number in `-m/2 .. m/2` that leaves the same remainder modulo `m` as `v`.
pub open spec fn wrap_signed(v: int, m: int) -> int {
    if v % m < m / 2 {
        v % m
    } else {
        v % m - m
    }
}

proof fn lemma_mod_step(x: int, k: int, p: int, m: int)
    requires
        m > 0,
    ensures
        ((x % m) * k + p) % m == (x * k + p) % m,
        (((x % m) * k) % m + p) % m == (x * k + p) % m,
{
    vstd::arithmetic::div_mod::lemma_mul_mod_noop_left(x, k, m);
    vstd::arithmetic::div_mod::lemma_add_mod_noop((x % m) * k, p, m);
    vstd::arithmetic::div_mod::lemma_add_mod_noop(x * k, p, m);
    vstd::arithmetic::div_mod::lemma_add_mod_noop(((x % m) * k) % m, p, m);
    vstd::arithmetic::div_mod::lemma_mod_twice((x % m) * k, m);
}

/// `x * k + part` modulo 2^64, from `x` modulo 2^64.
pub(crate) fn shift_in(val: u64, k: u64, part: u64, Ghost(x): Ghost<int>) -> (r: u64)
    requires
        val == x % m64(),
    ensures
        r == (x * k + part) % m64(),
{
    let scaled: u64 = val.wrapping_mul(k);
    let r: u64 = scaled.wrapping_add(part);
    proof {
        lemma_mod_step(x, k as int, part as int, m64());
        let t = scaled + part;
        if t > u64::MAX {
            vstd::arithmetic::div_mod::lemma_fundamental_div_mod_converse(t, m64(), 1, t - m64());
        } else {
            vstd::arithmetic::div_mod::lemma_small_mod(t as nat, m64() as nat);
        }
    }
    r
}

/// `x * k + part` modulo 2^32, from `x` modulo 2^32.
pub(crate) fn shift_in32(val: u32, k: u32, part: u32, Ghost(x): Ghost<int>) -> (r: u32)
    requires
        val == x % m32(),
    ensures
        r == (x * k + part) % m32(),
{
    let scaled: u32 = val.wrapping_mul(k);
    let r: u32 = scaled.wrapping_add(part);
    proof {
        lemma_mod_step(x, k as int, part as int, m32());
        let t = scaled + part;
        if t > u32::MAX {
            vstd::arithmetic::div_mod::lemma_fundamental_div_mod_converse(t, m32(), 1, t - m32());
        } else {
            vstd::arithmetic::div_mod::lemma_small_mod(t as nat, m32() as nat);
        }
    }
    r
}

/// `-x` modulo 2^64, from `x` modulo 2^64.
pub(crate) fn negate(val: u64, Ghost(x): Ghost<int>) -> (r: u64)
    requires
        val == x % m64(),
    ensures
        r == (-x) % m64(),
{
    let r: u64 = 0u64.wrapping_sub(val);
    proof {
        lemma_mod_step(x, -1, 0, m64());
        if val == 0 {
            vstd::arithmetic::div_mod::lemma_small_mod(0, m64() as nat);
        } else {
            vstd::arithmetic::div_mod::lemma_fundamental_div_mod_converse(
                -(val as int),
                m64(),
                -1,
                m64() - val,
            );
        }
    }
    r
}

/// `-x` modulo 2^32, from `x` modulo 2^32.
pub(crate) fn negate32(val: u32, Ghost(x): Ghost<int>) -> (r: u32)
    requires
        val == x % m32(),
    ensures
        r == (-x) % m32(),
{
    let r: u32 = 0u32.wrapping_sub(val);
    proof {
        lemma_mod_step(x, -1, 0, m32());
        if val == 0 {
            vstd::arithmetic::div_mod::lemma_small_mod(0, m32() as nat);
        } else {
            vstd::arithmetic::div_mod::lemma_fundamental_div_mod_converse(
                -(val as int),
                m32(),
                -1,
                m32() - val,
            );
        }
    }
    r
}

/// The signed number with the bits of `v`.
pub fn to_i64(v: u64) -> (r: i64)
    ensures
        r == wrap_signed(v as int, m64()),
{
    proof {
        vstd::arithmetic::div_mod::lemma_small_mod(v as nat, m64() as nat);
        assert(v < 0x8000_0000_0000_0000 ==> v as i64 == v) by (bit_vector);
        assert(v >= 0x8000_0000_0000_0000 ==> (v as i64) + 0x1_0000_0000_0000_0000 == v) by (bit_vector);
    }
    v as i64
}

/// The signed number with the bits of `v`.
pub fn to_i32(v: u32) -> (r: i32)
    ensures
        r == wrap_signed(v as int, m32()),
{
    proof {
        vstd::arithmetic::div_mod::lemma_small_mod(v as nat, m32() as nat);
        assert(v < 0x8000_0000 ==> v as i32 == v) by (bit_vector);
        assert(v >= 0x8000_0000 ==> (v as i32) + 0x1_0000_0000 == v) by (bit_vector);
    }
    v as i32
}

/// The low half of `v`.
pub fn to_u32(v: u64) -> (r: u32)
    ensures
        r == v % 0x1_0000_0000,
{
    assert(v as u32 == v % 0x1_0000_0000) by (bit_vector);
    v as u32
}

/// The part of `v` that a `usize` holds.
pub fn to_usize(v: u64) -> (r: usize)
    ensures
        r == v as int % msize(),
{
    proof {
        if usize::BITS == 64 {
            assert(v as usize == v) by (bit_vector)
                requires
                    usize::BITS == 64,
            ;
            vstd::arithmetic::div_mod::lemma_small_mod(v as nat, msize() as nat);
        } else {
            assert(v as usize == v % 0x1_0000_0000) by (bit_vector)
                requires
                    usize::BITS == 32,
            ;
        }
    }
    v as usize
}

/// The signed number with the bits of `v`.
pub fn to_isize(v: usize) -> (r: isize)
    ensures
        r == wrap_signed(v as int, msize()),
{
    proof {
        vstd::arithmetic::div_mod::lemma_small_mod(v as nat, msize() as nat);
        if usize::BITS == 64 {
            assert(v < 0x8000_0000_0000_0000 ==> v as isize == v) by (bit_vector)
                requires
                    usize::BITS == 64,
            ;
            assert(v >= 0x8000_0000_0000_0000 ==> (v as isize) + 0x1_0000_0000_0000_0000 == v)
                by (bit_vector)
                requires
                    usize::BITS == 64,
            ;
        } else {
            assert(v < 0x8000_0000 ==> v as isize == v) by (bit_vector)
                requires
                    usize::BITS == 32,
            ;
            assert(v >= 0x8000_0000 ==> (v as isize) + 0x1_0000_0000 == v) by (bit_vector)
                requires
                    usize::BITS == 32,
            ;
        }
    }
    v as isize
}

/// Reducing modulo 2^64 first does not change the remainder modulo a lower power
/// of two.
pub proof fn lemma_low_bits(x: int)
    ensures
        (x % m64()) % m32() == x % m32(),
        (x % m64()) % msize() == x % msize(),
{
    assert(0x1_0000_0000int * 0x1_0000_0000int == 0x1_0000_0000_0000_0000int);
    vstd::arithmetic::div_mod::lemma_mod_mod(x, m32(), m32());
    if usize::BITS == 64 {
        assert(msize() == m64());
        vstd::arithmetic::div_mod::lemma_mod_twice(x, m64());
    } else {
        assert(msize() == m32());
    }
}

} // verus!
