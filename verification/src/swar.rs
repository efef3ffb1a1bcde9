//! Reading eight or sixteen digits at a time.
use vstd::prelude::*;

verus! {

use crate::digits::{digit_values, is_digit, number, value};

/// Byte `i` of `v`, counted from the least significant one.
pub open spec fn byte_of(v: u64, i: int) -> u8 {
    if i == 0 { (v & 0xff) as u8 }
    else if i == 1 { ((v >> 8) & 0xff) as u8 }
    else if i == 2 { ((v >> 16) & 0xff) as u8 }
    else if i == 3 { ((v >> 24) & 0xff) as u8 }
    else if i == 4 { ((v >> 32) & 0xff) as u8 }
    else if i == 5 { ((v >> 40) & 0xff) as u8 }
    else if i == 6 { ((v >> 48) & 0xff) as u8 }
    else { ((v >> 56) & 0xff) as u8 }
}

/// The eight bytes of `v`, least significant first.
pub open spec fn bytes_of(v: u64) -> Seq<u8> {
    Seq::new(8, |i: int| byte_of(v, i))
}

/// Eight bytes of `b` from `p` on, as one little-endian word.
pub fn load_le8(b: &[u8], p: usize) -> (v: u64)
    requires
        p + 8 <= b@.len(),
    ensures
        bytes_of(v) == b@.subrange(p as int, p + 8),
{
    let (b0, b1, b2, b3): (u8, u8, u8, u8) = (b[p], b[p + 1], b[p + 2], b[p + 3]);
    let (b4, b5, b6, b7): (u8, u8, u8, u8) = (b[p + 4], b[p + 5], b[p + 6], b[p + 7]);
    let v: u64 = (b0 as u64) | ((b1 as u64) << 8) | ((b2 as u64) << 16) | ((b3 as u64) << 24) | ((
    b4 as u64) << 32) | ((b5 as u64) << 40) | ((b6 as u64) << 48) | ((b7 as u64) << 56);
    assert((v & 0xff) as u8 == b0 && ((v >> 8) & 0xff) as u8 == b1 && ((v >> 16) & 0xff) as u8 == b2
        && ((v >> 24) & 0xff) as u8 == b3 && ((v >> 32) & 0xff) as u8 == b4 && ((v >> 40) & 0xff) as u8
        == b5 && ((v >> 48) & 0xff) as u8 == b6 && ((v >> 56) & 0xff) as u8 == b7) by (bit_vector)
        requires
            v == (b0 as u64) | ((b1 as u64) << 8) | ((b2 as u64) << 16) | ((b3 as u64) << 24) | ((
            b4 as u64) << 32) | ((b5 as u64) << 40) | ((b6 as u64) << 48) | ((b7 as u64) << 56),
    ;
    assert(bytes_of(v) =~= b@.subrange(p as int, p + 8));
    v
}

/// Whether all eight bytes of `v` are digits.
pub fn is_8digits(v: u64) -> (r: bool)
    ensures
        r == (forall|i: int| 0 <= i < 8 ==> is_digit(#[trigger] bytes_of(v)[i])),
{
    let w: u64 = v.wrapping_add(0x0606_0606_0606_0606);
    let r: bool = (v & 0xF0F0_F0F0_F0F0_F0F0 | ((w & 0xF0F0_F0F0_F0F0_F0F0) >> 4))
        == 0x3333_3333_3333_3333;
    proof {
        let (d0, d1, d2, d3) = (byte_of(v, 0), byte_of(v, 1), byte_of(v, 2), byte_of(v, 3));
        let (d4, d5, d6, d7) = (byte_of(v, 4), byte_of(v, 5), byte_of(v, 6), byte_of(v, 7));
        assert(r == (48 <= d0 <= 57 && 48 <= d1 <= 57 && 48 <= d2 <= 57 && 48 <= d3 <= 57 && 48 <= d4
            <= 57 && 48 <= d5 <= 57 && 48 <= d6 <= 57 && 48 <= d7 <= 57)) by (bit_vector)
            requires
                r == ((v & 0xF0F0_F0F0_F0F0_F0F0 | ((w & 0xF0F0_F0F0_F0F0_F0F0) >> 4))
                    == 0x3333_3333_3333_3333),
                v <= 0xF9F9_F9F9_F9F9_F9F9 ==> w == v + 0x0606_0606_0606_0606,
                v > 0xF9F9_F9F9_F9F9_F9F9 ==> w + 0xF9F9_F9F9_F9F9_F9FA == v,
                d0 == (v & 0xff) as u8,
                d1 == ((v >> 8) & 0xff) as u8,
                d2 == ((v >> 16) & 0xff) as u8,
                d3 == ((v >> 24) & 0xff) as u8,
                d4 == ((v >> 32) & 0xff) as u8,
                d5 == ((v >> 40) & 0xff) as u8,
                d6 == ((v >> 48) & 0xff) as u8,
                d7 == ((v >> 56) & 0xff) as u8,
        ;
        if forall|i: int| 0 <= i < 8 ==> is_digit(#[trigger] bytes_of(v)[i]) {
            assert(is_digit(bytes_of(v)[0]) && is_digit(bytes_of(v)[1]) && is_digit(bytes_of(v)[2])
                && is_digit(bytes_of(v)[3]) && is_digit(bytes_of(v)[4]) && is_digit(bytes_of(v)[5])
                && is_digit(bytes_of(v)[6]) && is_digit(bytes_of(v)[7]));
        }
    }
    r
}

/// A word is the sum of its bytes, each in its place.
proof fn lemma_word(v: u64)
    ensures
        ({
            let s = bytes_of(v);
            v == s[0] + s[1] * 0x100 + s[2] * 0x1_0000 + s[3] * 0x100_0000 + s[4] * 0x1_0000_0000 + s[5]
                * 0x100_0000_0000 + s[6] * 0x1_0000_0000_0000 + s[7] * 0x100_0000_0000_0000
        }),
{
    let (d0, d1, d2, d3) = (byte_of(v, 0), byte_of(v, 1), byte_of(v, 2), byte_of(v, 3));
    let (d4, d5, d6, d7) = (byte_of(v, 4), byte_of(v, 5), byte_of(v, 6), byte_of(v, 7));
    assert(v == d0 + d1 * 0x100 + d2 * 0x1_0000 + d3 * 0x100_0000 + d4 * 0x1_0000_0000 + d5
        * 0x100_0000_0000 + d6 * 0x1_0000_0000_0000 + d7 * 0x100_0000_0000_0000) by (bit_vector)
        requires
            d0 == (v & 0xff) as u8,
            d1 == ((v >> 8) & 0xff) as u8,
            d2 == ((v >> 16) & 0xff) as u8,
            d3 == ((v >> 24) & 0xff) as u8,
            d4 == ((v >> 32) & 0xff) as u8,
            d5 == ((v >> 40) & 0xff) as u8,
            d6 == ((v >> 48) & 0xff) as u8,
            d7 == ((v >> 56) & 0xff) as u8,
    ;
}

/// The value of eight digits, written out.
proof fn lemma_value8(s: Seq<u8>)
    requires
        s.len() == 8,
    ensures
        value(s) == (s[0] - 48) * 10_000_000 + (s[1] - 48) * 1_000_000 + (s[2] - 48) * 100_000 + (s[3]
            - 48) * 10_000 + (s[4] - 48) * 1_000 + (s[5] - 48) * 100 + (s[6] - 48) * 10 + (s[7] - 48),
{
    reveal_with_fuel(number, 9);
    let d = digit_values(s);
    let (t7, t6, t5, t4) = (d.take(7), d.take(6), d.take(5), d.take(4));
    let (t3, t2, t1, t0) = (d.take(3), d.take(2), d.take(1), d.take(0));
    assert(d.drop_last() =~= t7 && t7.drop_last() =~= t6 && t6.drop_last() =~= t5 && t5.drop_last()
        =~= t4 && t4.drop_last() =~= t3 && t3.drop_last() =~= t2 && t2.drop_last() =~= t1
        && t1.drop_last() =~= t0);
    assert(number(t0) == 0);
    assert(number(t1) == d[0]);
    assert(number(t2) == number(t1) * 10 + d[1]);
    assert(number(t3) == number(t2) * 10 + d[2]);
    assert(number(t4) == number(t3) * 10 + d[3]);
    assert(number(t5) == number(t4) * 10 + d[4]);
    assert(number(t6) == number(t5) * 10 + d[5]);
    assert(number(t7) == number(t6) * 10 + d[6]);
}

/// Eight small numbers, one in each byte of a word.
spec fn spread(e0: int, e1: int, e2: int, e3: int, e4: int, e5: int, e6: int, e7: int) -> int {
    e0 + e1 * 0x100 + e2 * 0x1_0000 + e3 * 0x100_0000 + e4 * 0x1_0000_0000 + e5 * 0x100_0000_0000 + e6
        * 0x1_0000_0000_0000 + e7 * 0x100_0000_0000_0000
}

/// Ten times a word of digits plus the word moved down by a byte puts two digits
/// into each byte.
proof fn lemma_pairs(
    v1: u64,
    d0: int,
    d1: int,
    d2: int,
    d3: int,
    d4: int,
    d5: int,
    d6: int,
    d7: int,
)
    requires
        v1 == spread(d0, d1, d2, d3, d4, d5, d6, d7),
        0 <= d0 <= 9 && 0 <= d1 <= 9 && 0 <= d2 <= 9 && 0 <= d3 <= 9,
        0 <= d4 <= 9 && 0 <= d5 <= 9 && 0 <= d6 <= 9 && 0 <= d7 <= 9,
    ensures
        v1 * 10 <= 0x5a5a_5a5a_5a5a_5a5a,
        v1 * 10 + (v1 >> 8) == spread(
            10 * d0 + d1,
            10 * d1 + d2,
            10 * d2 + d3,
            10 * d3 + d4,
            10 * d4 + d5,
            10 * d5 + d6,
            10 * d6 + d7,
            10 * d7,
        ),
        v1 >> 8 <= 0x0909_0909_0909_0909,
{
    assert(v1 >> 8 == v1 / 0x100) by (bit_vector);
    let rest = d1 + d2 * 0x100 + d3 * 0x1_0000 + d4 * 0x100_0000 + d5 * 0x1_0000_0000 + d6
        * 0x100_0000_0000 + d7 * 0x1_0000_0000_0000;
    assert(v1 == d0 + 0x100 * rest);
    assert(v1 / 0x100 == rest);
}

/// The even bytes of a word, two by two.
proof fn lemma_lanes(
    v2: u64,
    e0: int,
    e1: int,
    e2: int,
    e3: int,
    e4: int,
    e5: int,
    e6: int,
    e7: int,
)
    requires
        v2 == spread(e0, e1, e2, e3, e4, e5, e6, e7),
        0 <= e0 <= 99 && 0 <= e1 <= 99 && 0 <= e2 <= 99 && 0 <= e3 <= 99,
        0 <= e4 <= 99 && 0 <= e5 <= 99 && 0 <= e6 <= 99 && 0 <= e7 <= 99,
    ensures
        v2 & 0x0000_00FF_0000_00FF == e0 + e4 * 0x1_0000_0000,
        (v2 >> 16) & 0x0000_00FF_0000_00FF == e2 + e6 * 0x1_0000_0000,
{
    let (f0, f1, f2, f3) = (e0 as u64, e1 as u64, e2 as u64, e3 as u64);
    let (f4, f5, f6, f7) = (e4 as u64, e5 as u64, e6 as u64, e7 as u64);
    assert(v2 & 0x0000_00FF_0000_00FF == f0 + f4 * 0x1_0000_0000 && (v2 >> 16) & 0x0000_00FF_0000_00FF
        == f2 + f6 * 0x1_0000_0000) by (bit_vector)
        requires
            v2 == f0 + f1 * 0x100 + f2 * 0x1_0000 + f3 * 0x100_0000 + f4 * 0x1_0000_0000 + f5
                * 0x100_0000_0000 + f6 * 0x1_0000_0000_0000 + f7 * 0x100_0000_0000_0000,
            f0 <= 99 && f1 <= 99 && f2 <= 99 && f3 <= 99,
            f4 <= 99 && f5 <= 99 && f6 <= 99 && f7 <= 99,
    ;
}

/// The two multiplications weigh the pairs of digits.
proof fn lemma_products(e0: int, e2: int, e4: int, e6: int)
    requires
        0 <= e0 <= 99 && 0 <= e2 <= 99 && 0 <= e4 <= 99 && 0 <= e6 <= 99,
    ensures
        ((e0 + e4 * 0x1_0000_0000) * 0x000F_4240_0000_0064) % 0x1_0000_0000_0000_0000 == 100 * e0 + (
        1_000_000 * e0 + 100 * e4) * 0x1_0000_0000,
        ((e2 + e6 * 0x1_0000_0000) * 0x0000_2710_0000_0001) % 0x1_0000_0000_0000_0000 == e2 + (10_000
            * e2 + e6) * 0x1_0000_0000,
{
    let m = 0x1_0000_0000_0000_0000int;
    let x = (e0 + e4 * 0x1_0000_0000) * 0x000F_4240_0000_0064;
    let r = 100 * e0 + (1_000_000 * e0 + 100 * e4) * 0x1_0000_0000;
    assert(x == (1_000_000 * e4) * m + r) by (nonlinear_arith)
        requires
            m == 0x1_0000_0000_0000_0000int,
            x == (e0 + e4 * 0x1_0000_0000) * 0x000F_4240_0000_0064,
            r == 100 * e0 + (1_000_000 * e0 + 100 * e4) * 0x1_0000_0000,
    ;
    vstd::arithmetic::div_mod::lemma_fundamental_div_mod_converse(x, m, 1_000_000 * e4, r);
    let y = (e2 + e6 * 0x1_0000_0000) * 0x0000_2710_0000_0001;
    let q = e2 + (10_000 * e2 + e6) * 0x1_0000_0000;
    assert(y == (10_000 * e6) * m + q) by (nonlinear_arith)
        requires
            m == 0x1_0000_0000_0000_0000int,
            y == (e2 + e6 * 0x1_0000_0000) * 0x0000_2710_0000_0001,
            q == e2 + (10_000 * e2 + e6) * 0x1_0000_0000,
    ;
    vstd::arithmetic::div_mod::lemma_fundamental_div_mod_converse(y, m, 10_000 * e6, q);
}

/// The number that eight digits spell, the first of them in the lowest byte.
pub fn parse8_swar(v: u64) -> (n: u64)
    requires
        forall|i: int| 0 <= i < 8 ==> is_digit(#[trigger] bytes_of(v)[i]),
    ensures
        n == value(bytes_of(v)),
        n < 100_000_000,
{
    proof {
        lemma_word(v);
    }
    let v1: u64 = v.wrapping_sub(0x3030_3030_3030_3030);
    let v2: u64 = v1.wrapping_mul(10).wrapping_add(v1 >> 8);
    let lo: u64 = (v2 & 0x0000_00FF_0000_00FF).wrapping_mul(0x000F_4240_0000_0064);
    let hi: u64 = ((v2 >> 16) & 0x0000_00FF_0000_00FF).wrapping_mul(0x0000_2710_0000_0001);
    let sum: u64 = lo.wrapping_add(hi);
    let n: u64 = ((sum >> 32) as u32) as u64;
    proof {
        let s = bytes_of(v);
        assert(is_digit(s[0]) && is_digit(s[1]) && is_digit(s[2]) && is_digit(s[3]) && is_digit(s[4])
            && is_digit(s[5]) && is_digit(s[6]) && is_digit(s[7]));
        let (d0, d1, d2, d3) = (s[0] - 48, s[1] - 48, s[2] - 48, s[3] - 48);
        let (d4, d5, d6, d7) = (s[4] - 48, s[5] - 48, s[6] - 48, s[7] - 48);
        // one digit in each byte, then two digits in every other byte
        assert(v1 == spread(d0, d1, d2, d3, d4, d5, d6, d7));
        lemma_pairs(v1, d0, d1, d2, d3, d4, d5, d6, d7);
        let (e0, e2, e4, e6) = (10 * d0 + d1, 10 * d2 + d3, 10 * d4 + d5, 10 * d6 + d7);
        lemma_lanes(v2, e0, 10 * d1 + d2, e2, 10 * d3 + d4, e4, 10 * d5 + d6, e6, 10 * d7);
        // the products, whose upper halves add up to the number
        lemma_products(e0, e2, e4, e6);
        assert(sum >> 32 == sum / 0x1_0000_0000) by (bit_vector);
        lemma_value8(s);
    }
    n
}

} // verus!
