//! Looking at sixteen or thirty-two bytes at a time: bitmaps of separators and of
//! non-digits, and the value of up to sixteen digits by repeated pairing.
use vstd::prelude::*;

verus! {

use crate::digits::{
    digit_run,
    digit_values,
    is_digit,
    is_space,
    lemma_digit_run_is,
    lemma_digit_run_skip,
    lemma_number_add,
    number,
    pow10,
    value,
};

/// Bit `j` of `m`.
pub open spec fn bit(m: u32, j: int) -> bool {
    (m >> (j as u32)) & 1 == 1
}

/// The low halves of the bytes of `s`.
pub open spec fn nibbles(s: Seq<u8>) -> Seq<int> {
    Seq::new(s.len(), |i: int| (s[i] & 15) as int)
}

/// The low half of a digit is its value.
pub proof fn lemma_nibbles_of_digits(s: Seq<u8>)
    requires
        forall|i: int| 0 <= i < s.len() ==> is_digit(#[trigger] s[i]),
    ensures
        nibbles(s) == digit_values(s),
{
    assert forall|i: int| 0 <= i < s.len() implies #[trigger] nibbles(s)[i] == digit_values(s)[i] by {
        let c = s[i];
        assert(is_digit(s[i]));
        assert(c & 15 == c - 48) by (bit_vector)
            requires
                48 <= c <= 57,
        ;
    }
    assert(nibbles(s) =~= digit_values(s));
}

proof fn lemma_bit_set(m: u32, j: u32)
    requires
        j < 32,
    ensures
        forall|k: int| 0 <= k < 32 ==> #[trigger] bit(m | (1u32 << j), k) == (k == j || bit(m, k)),
{
    assert forall|k: int| 0 <= k < 32 implies #[trigger] bit(m | (1u32 << j), k) == (k == j || bit(
        m,
        k,
    )) by {
        let kk = k as u32;
        assert((((m | (1u32 << j)) >> kk) & 1 == 1) == (kk == j || (m >> kk) & 1 == 1)) by (bit_vector)
            requires
                j < 32,
                kk < 32,
        ;
    }
}

proof fn lemma_no_bits()
    ensures
        forall|k: int| 0 <= k < 32 ==> !#[trigger] bit(0, k),
{
    assert forall|k: int| 0 <= k < 32 implies !#[trigger] bit(0, k) by {
        let kk = k as u32;
        assert((0u32 >> kk) & 1 == 0) by (bit_vector);
    }
}

/// The bitmap of the separators in `v`.
fn space_bits(v: &[u8]) -> (m: u32)
    requires
        v@.len() <= 32,
    ensures
        forall|j: int| 0 <= j < 32 ==> #[trigger] bit(m, j) == (j < v@.len() && is_space(v@[j])),
{
    let mut m: u32 = 0;
    let mut j: usize = 0;
    proof {
        lemma_no_bits();
    }
    while j < v.len()
        invariant
            j <= v@.len() <= 32,
            forall|k: int| 0 <= k < 32 ==> #[trigger] bit(m, k) == (k < j && is_space(v@[k])),
        decreases v@.len() - j,
    {
        if v[j] <= 32 {
            proof {
                lemma_bit_set(m, j as u32);
            }
            m = m | (1u32 << (j as u32));
        }
        j = j + 1;
    }
    m
}

/// The bitmap of the bytes of `v` that are no digits.
fn non_digit_bits(v: &[u8]) -> (m: u32)
    requires
        v@.len() <= 32,
    ensures
        forall|j: int| 0 <= j < 32 ==> #[trigger] bit(m, j) == (j < v@.len() && !is_digit(v@[j])),
{
    let mut m: u32 = 0;
    let mut j: usize = 0;
    proof {
        lemma_no_bits();
    }
    while j < v.len()
        invariant
            j <= v@.len() <= 32,
            forall|k: int| 0 <= k < 32 ==> #[trigger] bit(m, k) == (k < j && !is_digit(v@[k])),
        decreases v@.len() - j,
    {
        if v[j] > 57 || v[j] < 48 {
            proof {
                lemma_bit_set(m, j as u32);
            }
            m = m | (1u32 << (j as u32));
        }
        j = j + 1;
    }
    m
}

/// The number of the lowest bit of `m` that is set; 32 when none is.
pub fn first_set(m: u32) -> (t: usize)
    ensures
        t <= 32,
        forall|j: int| 0 <= j < t ==> !#[trigger] bit(m, j),
        t < 32 ==> bit(m, t as int),
{
    let t: u32 = m.trailing_zeros();
    proof {
        vstd::std_specs::bits::axiom_u32_trailing_zeros(m);
    }
    t as usize
}

/// The number of the lowest bit of `m` that is clear; 32 when none is.
pub fn first_clear(m: u32) -> (t: usize)
    ensures
        t <= 32,
        forall|j: int| 0 <= j < t ==> #[trigger] bit(m, j),
        t < 32 ==> !bit(m, t as int),
{
    let t: u32 = m.trailing_ones();
    proof {
        vstd::std_specs::bits::axiom_u32_trailing_ones(m);
    }
    t as usize
}

/// Sixteen bytes of `b` from `p` on.
fn load16(b: &[u8], p: usize) -> (v: [u8; 16])
    requires
        p + 16 <= b@.len(),
    ensures
        v@ == b@.subrange(p as int, p + 16),
{
    let mut v: [u8; 16] = [0;16];
    let mut i: usize = 0;
    while i < 16
        invariant
            i <= 16,
            p + 16 <= b.len(),
            forall|k: int| 0 <= k < i ==> #[trigger] v@[k] == b@[p + k],
        decreases 16 - i,
    {
        v[i] = b[p + i];
        i = i + 1;
    }
    assert(v@ =~= b@.subrange(p as int, p + 16));
    v
}

/// Thirty-two bytes of `b` from `p` on.
fn load32(b: &[u8], p: usize) -> (v: [u8; 32])
    requires
        p + 32 <= b@.len(),
    ensures
        v@ == b@.subrange(p as int, p + 32),
{
    let mut v: [u8; 32] = [0;32];
    let mut i: usize = 0;
    while i < 32
        invariant
            i <= 32,
            p + 32 <= b.len(),
            forall|k: int| 0 <= k < i ==> #[trigger] v@[k] == b@[p + k],
        decreases 32 - i,
    {
        v[i] = b[p + i];
        i = i + 1;
    }
    assert(v@ =~= b@.subrange(p as int, p + 32));
    v
}

/// The bitmap of the separators among sixteen bytes.
pub fn ws16(b: &[u8], p: usize) -> (m: u32)
    requires
        p + 16 <= b@.len(),
    ensures
        forall|j: int| 0 <= j < 32 ==> #[trigger] bit(m, j) == (j < 16 && is_space(b@[p + j])),
{
    let v: [u8; 16] = load16(b, p);
    space_bits(&v)
}

/// The bitmap of the non-digits among sixteen bytes.
pub fn non_digit16(b: &[u8], p: usize) -> (m: u32)
    requires
        p + 16 <= b@.len(),
    ensures
        forall|j: int| 0 <= j < 32 ==> #[trigger] bit(m, j) == (j < 16 && !is_digit(b@[p + j])),
{
    let v: [u8; 16] = load16(b, p);
    non_digit_bits(&v)
}

/// The bitmap of the separators among thirty-two bytes.
pub fn ws32(b: &[u8], p: usize) -> (m: u32)
    requires
        p + 32 <= b@.len(),
    ensures
        forall|j: int| 0 <= j < 32 ==> #[trigger] bit(m, j) == is_space(b@[p + j]),
{
    let v: [u8; 32] = load32(b, p);
    avx2_ws_bits(&v)
}

/// The bitmap of the separators in a block of thirty-two bytes.
pub fn avx2_ws_bits(v: &[u8; 32]) -> (m: u32)
    ensures
        forall|j: int| 0 <= j < 32 ==> #[trigger] bit(m, j) == is_space(v@[j]),
{
    space_bits(v)
}

/// The bitmap of the non-digits among thirty-two bytes.
pub fn non_digit32(b: &[u8], p: usize) -> (m: u32)
    requires
        p + 32 <= b@.len(),
    ensures
        forall|j: int| 0 <= j < 32 ==> #[trigger] bit(m, j) == !is_digit(b@[p + j]),
{
    let v: [u8; 32] = load32(b, p);
    avx2_non_digit_bits(&v)
}

/// The bitmap of the non-digits in a block of thirty-two bytes.
pub fn avx2_non_digit_bits(v: &[u8; 32]) -> (m: u32)
    ensures
        forall|j: int| 0 <= j < 32 ==> #[trigger] bit(m, j) == !is_digit(v@[j]),
{
    non_digit_bits(v)
}

/// The first half of a block of thirty-two bytes.
pub fn avx2_low(v: &[u8; 32]) -> (low: [u8; 16])
    ensures
        low@ == v@.take(16),
{
    let low: [u8; 16] = load16(v, 0);
    assert(low@ =~= v@.take(16));
    low
}

/// The number with the sixteen decimal places `d`: neighbours are joined to pairs,
/// pairs to fours, fours to eights, and the two eights to the result.
fn join16(d: &[u8; 16]) -> (n: u64)
    requires
        forall|i: int| 0 <= i < 16 ==> #[trigger] d@[i] <= 15,
    ensures
        n == number(Seq::new(16, |i: int| d@[i] as int)),
        n <= 16_666_666_666_666_665,
{
    let ghost s = Seq::new(16, |i: int| d@[i] as int);
    let mut pairs: [u32; 8] = [0;8];
    let mut i: usize = 0;
    while i < 8
        invariant
            i <= 8,
            s == Seq::new(16, |i: int| d@[i] as int),
            forall|i: int| 0 <= i < 16 ==> #[trigger] d@[i] <= 15,
            forall|k: int|
                0 <= k < i ==> {
                    &&& #[trigger] pairs@[k] == number(s.subrange(2 * k, 2 * k + 2))
                    &&& pairs@[k] <= 165
                },
        decreases 8 - i,
    {
        let (a, b): (u8, u8) = (d[2 * i], d[2 * i + 1]);
        pairs[i] = 10 * (a as u32) + b as u32;
        proof {
            lemma_number2(s.subrange(2 * i, 2 * i + 2));
        }
        i = i + 1;
    }
    let mut fours: [u32; 4] = [0;4];
    i = 0;
    while i < 4
        invariant
            i <= 4,
            s.len() == 16,
            forall|k: int|
                0 <= k < 8 ==> {
                    &&& #[trigger] pairs@[k] == number(s.subrange(2 * k, 2 * k + 2))
                    &&& pairs@[k] <= 165
                },
            forall|k: int|
                0 <= k < i ==> {
                    &&& #[trigger] fours@[k] == number(s.subrange(4 * k, 4 * k + 4))
                    &&& fours@[k] <= 16665
                },
        decreases 4 - i,
    {
        let (a, b): (u32, u32) = (pairs[2 * i], pairs[2 * i + 1]);
        fours[i] = 100 * a + b;
        proof {
            lemma_number_cut(s.subrange(4 * i, 4 * i + 4), 2);
            assert(s.subrange(4 * i, 4 * i + 4).take(2) =~= s.subrange(
                2 * (2 * i),
                2 * (2 * i) + 2,
            ));
            assert(s.subrange(4 * i, 4 * i + 4).skip(2) =~= s.subrange(
                2 * (2 * i + 1),
                2 * (2 * i + 1) + 2,
            ));
            assert(pow10(2) == 100) by {
                reveal_with_fuel(pow10, 3);
            }
        }
        i = i + 1;
    }
    let hi: u64 = 10_000 * (fours[0] as u64) + fours[1] as u64;
    let lo: u64 = 10_000 * (fours[2] as u64) + fours[3] as u64;
    proof {
        assert(pow10(4) == 10_000 && pow10(8) == 100_000_000) by {
            reveal_with_fuel(pow10, 9);
        }
        let (h, l) = (s.take(8), s.skip(8));
        assert(s =~= h + l);
        lemma_number_add(h, l);
        lemma_number_cut(h, 4);
        lemma_number_cut(l, 4);
        assert(h.take(4) =~= s.subrange(0, 4));
        assert(h.skip(4) =~= s.subrange(4, 8));
        assert(l.take(4) =~= s.subrange(8, 12));
        assert(l.skip(4) =~= s.subrange(12, 16));
        assert(fours@[0] <= 16665 && fours@[1] <= 16665 && fours@[2] <= 16665 && fours@[3] <= 16665);
    }
    hi * 100_000_000 + lo
}

proof fn lemma_number2(d: Seq<int>)
    requires
        d.len() == 2,
    ensures
        number(d) == 10 * d[0] + d[1],
{
    reveal_with_fuel(number, 3);
    assert(d.drop_last().drop_last() =~= Seq::empty());
}

proof fn lemma_number_cut(d: Seq<int>, n: int)
    requires
        0 <= n <= d.len(),
    ensures
        number(d) == number(d.take(n)) * pow10((d.len() - n) as nat) + number(d.skip(n)),
{
    assert(d =~= d.take(n) + d.skip(n));
    lemma_number_add(d.take(n), d.skip(n));
}

proof fn lemma_number_zeros(d: Seq<int>)
    requires
        forall|i: int| 0 <= i < d.len() ==> #[trigger] d[i] == 0,
    ensures
        number(d) == 0,
    decreases d.len(),
{
    if d.len() > 0 {
        assert(d[d.len() - 1] == 0);
        assert forall|i: int| 0 <= i < d.drop_last().len() implies #[trigger] d.drop_last()[i] == 0 by {
            assert(d[i] == 0);
        }
        lemma_number_zeros(d.drop_last());
    }
}

/// The number spelt by the low halves of the first `len` bytes of `chunk`; zero
/// when `len` is more than sixteen.
pub fn parse16_sse_reg(chunk: &[u8; 16], len: usize) -> (n: u64)
    ensures
        len <= 16 ==> n == number(nibbles(chunk@.take(len as int))),
        len > 16 ==> n == 0,
        n <= 16_666_666_666_666_665,
{
    if len > 16 {
        return 0;
    }
    // the digits go to the high end of the block, with zeros below them
    let mut d: [u8; 16] = [0;16];
    let mut i: usize = 0;
    while i < len
        invariant
            i <= len <= 16,
            forall|k: int| 0 <= k < 16 - len ==> #[trigger] d@[k] == 0,
            forall|k: int| 16 - len <= k < 16 - len + i ==> #[trigger] d@[k] == chunk@[k - (16 - len)] & 15,
            forall|k: int| 0 <= k < 16 ==> #[trigger] d@[k] <= 15,
        decreases len - i,
    {
        let c: u8 = chunk[i];
        assert(c & 15 <= 15) by (bit_vector);
        d[16 - len + i] = c & 15;
        i = i + 1;
    }
    proof {
        let s = Seq::new(16, |i: int| d@[i] as int);
        lemma_number_cut(s, 16 - len);
        lemma_number_zeros(s.take(16 - len));
        assert(s.skip(16 - len) =~= nibbles(chunk@.take(len as int)));
    }
    join16(&d)
}

/// The number spelt by the low halves of the first `len` bytes of `buf`; zero
/// when `len` is more than sixteen.
pub fn parse16_sse(buf: &[u8; 16], len: usize) -> (n: u64)
    ensures
        len <= 16 ==> n == number(nibbles(buf@.take(len as int))),
        len > 16 ==> n == 0,
        n <= 16_666_666_666_666_665,
{
    parse16_sse_reg(buf, len)
}

/// The number spelt by the low halves of the first `len` bytes of `v16`; zero
/// when `len` is more than sixteen.
pub fn parse16_avx2_high(v16: &[u8; 16], len: usize) -> (n: u64)
    ensures
        len <= 16 ==> n == number(nibbles(v16@.take(len as int))),
        len > 16 ==> n == 0,
        n <= 16_666_666_666_666_665,
{
    parse16_sse_reg(v16, len)
}

/// The number spelt by the low halves of the `len` bytes of `v32` that follow the
/// first `cnt`; zero when `cnt` is more than fifteen or `len` more than sixteen.
pub fn parse16_avx2_shifted(v32: &[u8; 32], cnt: usize, len: usize) -> (n: u64)
    ensures
        cnt <= 15 && len <= 16 ==> n == number(nibbles(v32@.subrange(cnt as int, cnt + len))),
        cnt > 15 || len > 16 ==> n == 0,
{
    if cnt > 15 {
        return 0;
    }
    let v16: [u8; 16] = load16(v32, cnt);
    proof {
        if len <= 16 {
            assert(v16@.take(len as int) =~= v32@.subrange(cnt as int, cnt + len));
        }
    }
    parse16_avx2_high(&v16, len)
}

/// How many of the sixteen bytes from `p` on are digits before the first other
/// byte.
fn lead16(b: &[u8], p: usize) -> (len: usize)
    requires
        p + 16 <= b@.len(),
    ensures
        len <= 16,
        len < 16 ==> len == digit_run(b@, p as int),
        len == 16 ==> digit_run(b@, p as int) == 16 + digit_run(b@, p + 16),
        forall|i: int| p <= i < p + len ==> is_digit(#[trigger] b@[i]),
{
    let bits: u32 = non_digit16(b, p);
    let t: usize = first_set(bits);
    let len: usize = if t < 16 {
        t
    } else {
        16
    };
    proof {
        assert forall|i: int| p <= i < p + len implies is_digit(#[trigger] b@[i]) by {
            assert(!bit(bits, i - p));
        }
        if len < 16 {
            lemma_digit_run_is(b@, p as int, len as int);
        } else {
            lemma_digit_run_skip(b@, p as int, 16);
        }
    }
    len
}

/// The digits at the start of the sixteen bytes from `p` on: how many there are
/// and the number they spell.
pub fn load16_parse(b: &[u8], p: usize) -> (r: (usize, u64))
    requires
        p + 16 <= b@.len(),
    ensures
        r.0 <= 16,
        r.0 < 16 ==> r.0 == digit_run(b@, p as int),
        r.0 == 16 ==> digit_run(b@, p as int) == 16 + digit_run(b@, p + 16),
        r.1 == value(b@.subrange(p as int, p + r.0)),
{
    let v: [u8; 16] = load16(b, p);
    let len: usize = lead16(b, p);
    let val: u64 = parse16_sse_reg(&v, len);
    proof {
        assert(v@.take(len as int) =~= b@.subrange(p as int, p + len));
        lemma_nibbles_of_digits(b@.subrange(p as int, p + len));
    }
    (len, val)
}

/// The digits at the start of the sixteen bytes from `p` on: how many there are
/// and the number they spell.
pub fn load16_parse_avx(b: &[u8], p: usize) -> (r: (usize, u64))
    requires
        p + 16 <= b@.len(),
    ensures
        r.0 <= 16,
        r.0 < 16 ==> r.0 == digit_run(b@, p as int),
        r.0 == 16 ==> digit_run(b@, p as int) == 16 + digit_run(b@, p + 16),
        r.1 == value(b@.subrange(p as int, p + r.0)),
{
    let v16: [u8; 16] = load16(b, p);
    let len: usize = lead16(b, p);
    let val: u64 = parse16_avx2_high(&v16, len);
    proof {
        assert(v16@.take(len as int) =~= b@.subrange(p as int, p + len));
        lemma_nibbles_of_digits(b@.subrange(p as int, p + len));
    }
    (len, val)
}

/// The digits at the start of the thirty-two bytes from `p` on: how many there
/// are, and the number they spell if they are at most sixteen, else zero.
pub fn load32_parse16(b: &[u8], p: usize) -> (r: (usize, u64))
    requires
        p + 32 <= b@.len(),
    ensures
        r.0 <= 32,
        r.0 < 32 ==> r.0 == digit_run(b@, p as int),
        r.0 == 32 ==> digit_run(b@, p as int) == 32 + digit_run(b@, p + 32),
        r.0 <= 16 ==> r.1 == value(b@.subrange(p as int, p + r.0)),
        r.0 > 16 ==> r.1 == 0,
{
    let v: [u8; 32] = load32(b, p);
    let bits: u32 = avx2_non_digit_bits(&v);
    let len: usize = first_set(bits);
    proof {
        assert forall|i: int| p <= i < p + len implies is_digit(#[trigger] b@[i]) by {
            assert(!bit(bits, i - p));
        }
        if len < 32 {
            lemma_digit_run_is(b@, p as int, len as int);
        } else {
            lemma_digit_run_skip(b@, p as int, 32);
        }
    }
    if len <= 16 {
        let v16: [u8; 16] = avx2_low(&v);
        let val: u64 = parse16_avx2_high(&v16, len);
        proof {
            assert(v16@.take(len as int) =~= b@.subrange(p as int, p + len));
            lemma_nibbles_of_digits(b@.subrange(p as int, p + len));
        }
        (len, val)
    } else {
        (len, 0)
    }
}

} // verus!
