//! Reading whitespace-separated tokens and numbers from text held in memory.
use vstd::prelude::*;

use crate::digits::{is_ascii_digit, pow10_u64};
use crate::lanes::{
    first_clear,
    first_set,
    load16_parse,
    load16_parse_avx,
    load32_parse16,
    non_digit16,
    non_digit32,
    parse16_sse,
    ws16,
    ws32,
};
use crate::swar::{is_8digits, load_le8, parse8_swar};
use crate::wrap::{
    negate,
    negate32,
    shift_in,
    shift_in32,
    to_i32,
    to_i64,
    to_isize,
    to_u32,
    to_usize,
};

verus! {

use crate::digits::{
    digit_run,
    is_digit,
    is_space,
    lemma_digit_run,
    lemma_digit_run_skip,
    lemma_digit_run_is,
    lemma_skip_spaces_over,
    lemma_token_end,
    lemma_token_end_over,
    lemma_value_add,
    lemma_value_one,
    pow10,
    skip_spaces,
    token_end,
    value,
};
use crate::lanes::{bit, lemma_nibbles_of_digits};
use crate::swar::bytes_of;
use crate::wrap::{lemma_low_bits, m32, m64, msize, wrap_signed};

/// Whether the number that is read from position `p` on has a minus sign.
pub open spec fn int_neg(s: Seq<u8>, p: int) -> bool {
    let q = skip_spaces(s, p);
    q < s.len() && s[q] == 45
}

/// Where the digits of the number that is read from position `p` on start: after
/// separators and a minus sign.
pub open spec fn int_start(s: Seq<u8>, p: int) -> int {
    if int_neg(s, p) {
        skip_spaces(s, p) + 1
    } else {
        skip_spaces(s, p)
    }
}

/// Where reading goes on after the number.
pub open spec fn int_end(s: Seq<u8>, p: int) -> int {
    int_start(s, p) + digit_run(s, int_start(s, p))
}

/// The number that is read from position `p` on; zero when no digit stands there.
pub open spec fn int_value(s: Seq<u8>, p: int) -> int {
    let v = value(s.subrange(int_start(s, p), int_end(s, p)));
    if int_neg(s, p) {
        -v
    } else {
        v
    }
}

/// Text in memory and a position in it.
pub struct FastIn {
    buf: Vec<u8>,
    pos: usize,
    /// Whether to look at thirty-two bytes at a time.
    avx2: bool,
    /// Whether to look at sixteen bytes at a time.
    sse41: bool,
}

/// Appending `n` digits to the digits from `start` to `p`.
proof fn lemma_value_extend(s: Seq<u8>, start: int, p: int, n: int)
    requires
        0 <= start <= p,
        0 <= n,
        p + n <= s.len(),
    ensures
        value(s.subrange(start, p + n)) == value(s.subrange(start, p)) * pow10(n as nat) + value(
            s.subrange(p, p + n),
        ),
{
    assert(s.subrange(start, p + n) =~= s.subrange(start, p) + s.subrange(p, p + n));
    lemma_value_add(s.subrange(start, p), s.subrange(p, p + n));
}

/// What reading the digits from `start` to `q` makes of `base`: the digits are appended
/// to it.
pub open spec fn run_value(s: Seq<u8>, base: int, start: int, q: int) -> int {
    base * pow10((q - start) as nat) + value(s.subrange(start, q))
}

proof fn lemma_pow10_add(a: nat, b: nat)
    ensures
        pow10(a + b) == pow10(a) * pow10(b),
    decreases a,
{
    if a == 0 {
        assert(pow10(a) == 1);
    } else {
        lemma_pow10_add((a - 1) as nat, b);
        let (x, y) = (pow10((a - 1) as nat), pow10(b));
        assert(10 * (x * y) == (10 * x) * y) by (nonlinear_arith);
        assert(pow10(a + b) == 10 * pow10((a - 1 + b) as nat));
    }
}

/// Appending `n` more digits.
proof fn lemma_run_extend(s: Seq<u8>, base: int, start: int, p: int, n: int)
    requires
        0 <= start <= p,
        0 <= n,
        p + n <= s.len(),
    ensures
        run_value(s, base, start, p + n) == run_value(s, base, start, p) * pow10(n as nat) + value(
            s.subrange(p, p + n),
        ),
{
    lemma_value_extend(s, start, p, n);
    lemma_pow10_add((p - start) as nat, n as nat);
    assert((p - start) as nat + n as nat == (p + n - start) as nat);
    let (a, b, v) = (pow10((p - start) as nat), pow10(n as nat), value(s.subrange(start, p)));
    assert(base * (a * b) + v * b == (base * a + v) * b) by (nonlinear_arith);
}

/// Appending to a number modulo 2^64 gives the result modulo 2^64.
proof fn lemma_append_reduced(x: int, k: int, part: int)
    ensures
        ((x % m64()) * k + part) % m64() == (x * k + part) % m64(),
{
    vstd::arithmetic::div_mod::lemma_mul_mod_noop_left(x, k, m64());
    vstd::arithmetic::div_mod::lemma_add_mod_noop((x % m64()) * k, part, m64());
    vstd::arithmetic::div_mod::lemma_add_mod_noop(x * k, part, m64());
}

proof fn lemma_value_empty(s: Seq<u8>, p: int)
    requires
        0 <= p <= s.len(),
    ensures
        value(s.subrange(p, p)) == 0,
{
}

impl FastIn {
    /// The text.
    pub closed spec fn bytes(&self) -> Seq<u8> {
        self.buf@
    }

    /// The position of the next byte to look at.
    pub closed spec fn pos(&self) -> int {
        self.pos as int
    }

    /// Whether thirty-two and whether sixteen bytes are looked at together.
    pub closed spec fn wide(&self) -> (bool, bool) {
        (self.avx2, self.sse41)
    }

    #[verifier::type_invariant]
    spec fn inv(&self) -> bool {
        self.pos <= self.buf@.len()
    }

    /// A reader at the start of `buf`. The flags choose how many bytes are looked
    /// at together; what is read does not depend on them.
    pub fn new(buf: Vec<u8>, avx2: bool, sse41: bool) -> (r: FastIn)
        ensures
            r.bytes() == buf@,
            r.pos() == 0,
            r.wide() == (avx2, sse41),
    {
        FastIn { buf, pos: 0, avx2, sse41 }
    }

    /// Whether `c` is a separator.
    fn is_ws(c: u8) -> (r: bool)
        ensures
            r == is_space(c),
    {
        c <= 32
    }

    /// Moves past the separators.
    fn skip_ws(&mut self)
        ensures
            final(self).bytes() == old(self).bytes(),
            final(self).wide() == old(self).wide(),
            final(self).pos() == skip_spaces(old(self).bytes(), old(self).pos()),
            final(self).pos() <= final(self).bytes().len(),
    {
        proof {
            use_type_invariant(&*self);
        }
        let ghost s = self.buf@;
        let ghost start = self.pos as int;
        let n: usize = self.buf.len();
        let mut p: usize = self.pos;
        // one separator is the common case
        if p >= n || !Self::is_ws(self.buf[p]) {
            return;
        }
        if p + 1 >= n || !Self::is_ws(self.buf[p + 1]) {
            proof {
                lemma_skip_spaces_over(s, start, start + 1);
            }
            self.pos = p + 1;
            return;
        }
        if self.avx2 {
            while n - p >= 32
                invariant
                    s == self.buf@,
                    s == old(self).buf@,
                    self.wide() == old(self).wide(),
                    n == s.len(),
                    start == old(self).pos,
                    start <= p <= n,
                    forall|i: int| start <= i < p ==> is_space(#[trigger] s[i]),
                decreases n - p,
            {
                let bits: u32 = ws32(&self.buf, p);
                let cnt: usize = first_clear(bits);
                proof {
                    assert forall|i: int| start <= i < p + cnt implies is_space(#[trigger] s[i]) by {
                        if i >= p {
                            assert(bit(bits, i - p));
                        }
                    }
                }
                p = p + cnt;
                if cnt < 32 {
                    proof {
                        lemma_skip_spaces_over(s, start, p as int);
                    }
                    self.pos = p;
                    return;
                }
            }
        }
        while n - p >= 16
            invariant
                s == self.buf@,
                s == old(self).buf@,
                self.wide() == old(self).wide(),
                n == s.len(),
                start == old(self).pos,
                start <= p <= n,
                forall|i: int| start <= i < p ==> is_space(#[trigger] s[i]),
            decreases n - p,
        {
            let bits: u32 = ws16(&self.buf, p);
            let cnt: usize = first_clear(bits);
            proof {
                if cnt > 16 {
                    assert(bit(bits, 16));
                }
                assert forall|i: int| start <= i < p + cnt implies is_space(#[trigger] s[i]) by {
                    if i >= p {
                        assert(bit(bits, i - p));
                    }
                }
            }
            p = p + cnt;
            if cnt < 16 {
                proof {
                    lemma_skip_spaces_over(s, start, p as int);
                }
                self.pos = p;
                return;
            }
        }
        while p < n && Self::is_ws(self.buf[p])
            invariant
                s == self.buf@,
                s == old(self).buf@,
                self.wide() == old(self).wide(),
                n == s.len(),
                start == old(self).pos,
                start <= p <= n,
                forall|i: int| start <= i < p ==> is_space(#[trigger] s[i]),
            decreases n - p,
        {
            p = p + 1;
        }
        proof {
            lemma_skip_spaces_over(s, start, p as int);
        }
        self.pos = p;
    }

    /// The position of the first separator from `start` on, or the end.
    fn scan_ws(&self, start: usize) -> (e: usize)
        requires
            start <= self.bytes().len(),
        ensures
            e == token_end(self.bytes(), start as int),
    {
        let ghost s = self.buf@;
        let n: usize = self.buf.len();
        let mut p: usize = start;
        if self.avx2 {
            while n - p >= 32
                invariant
                    s == self.buf@,
                    n == s.len(),
                    start <= p <= n,
                    forall|i: int| start <= i < p ==> !is_space(#[trigger] s[i]),
                decreases n - p,
            {
                let bits: u32 = ws32(&self.buf, p);
                let tz: usize = first_set(bits);
                proof {
                    assert forall|i: int| start <= i < p + tz implies !is_space(#[trigger] s[i]) by {
                        if i >= p {
                            assert(!bit(bits, i - p));
                        }
                    }
                }
                if tz < 32 {
                    proof {
                        lemma_token_end_over(s, start as int, p + tz);
                    }
                    return p + tz;
                }
                p = p + 32;
            }
        }
        while n - p >= 16
            invariant
                s == self.buf@,
                n == s.len(),
                start <= p <= n,
                forall|i: int| start <= i < p ==> !is_space(#[trigger] s[i]),
            decreases n - p,
        {
            let bits: u32 = ws16(&self.buf, p);
            let tz: usize = first_set(bits);
            proof {
                assert forall|i: int| start <= i < p + 16 && i < p + tz implies !is_space(
                    #[trigger] s[i],
                ) by {
                    if i >= p {
                        assert(!bit(bits, i - p));
                    }
                }
            }
            if tz < 16 {
                proof {
                    lemma_token_end_over(s, start as int, p + tz);
                }
                return p + tz;
            }
            p = p + 16;
        }
        while p < n && !Self::is_ws(self.buf[p])
            invariant
                s == self.buf@,
                n == s.len(),
                start <= p <= n,
                forall|i: int| start <= i < p ==> !is_space(#[trigger] s[i]),
            decreases n - p,
        {
            p = p + 1;
        }
        proof {
            lemma_token_end_over(s, start as int, p as int);
        }
        p
    }

    /// How many digits stand from `start` on without a gap.
    pub fn digit_len(&self, start: usize) -> (len: usize)
        requires
            start <= self.bytes().len(),
        ensures
            len == digit_run(self.bytes(), start as int),
    {
        let ghost s = self.buf@;
        let n: usize = self.buf.len();
        let mut p: usize = start;
        if self.avx2 {
            while n - p >= 32
                invariant
                    s == self.buf@,
                    n == s.len(),
                    start <= p <= n,
                    forall|i: int| start <= i < p ==> is_digit(#[trigger] s[i]),
                decreases n - p,
            {
                let bits: u32 = non_digit32(&self.buf, p);
                let bad: usize = first_set(bits);
                proof {
                    assert forall|i: int| start <= i < p + bad implies is_digit(#[trigger] s[i]) by {
                        if i >= p {
                            assert(!bit(bits, i - p));
                        }
                    }
                }
                if bad < 32 {
                    proof {
                        lemma_digit_run_is(s, start as int, p - start + bad);
                    }
                    return p - start + bad;
                }
                p = p + 32;
            }
        }
        while n - p >= 16
            invariant
                s == self.buf@,
                n == s.len(),
                start <= p <= n,
                forall|i: int| start <= i < p ==> is_digit(#[trigger] s[i]),
            decreases n - p,
        {
            let bits: u32 = non_digit16(&self.buf, p);
            let bad: usize = first_set(bits);
            proof {
                assert forall|i: int| start <= i < p + 16 && i < p + bad implies is_digit(
                    #[trigger] s[i],
                ) by {
                    if i >= p {
                        assert(!bit(bits, i - p));
                    }
                }
            }
            if bad < 16 {
                proof {
                    lemma_digit_run_is(s, start as int, p - start + bad);
                }
                return p - start + bad;
            }
            p = p + 16;
        }
        while p < n && is_ascii_digit(self.buf[p])
            invariant
                s == self.buf@,
                n == s.len(),
                start <= p <= n,
                forall|i: int| start <= i < p ==> is_digit(#[trigger] s[i]),
            decreases n - p,
        {
            p = p + 1;
        }
        proof {
            lemma_digit_run_is(s, start as int, p - start);
        }
        p - start
    }

    /// Reads on, digit by digit, from `p` to the end of the run that started at
    /// `start`.
    fn finish_digits(&self, start: usize, p: usize, val: u64, Ghost(base): Ghost<int>) -> (r: (usize, u64))
        requires
            start <= p <= self.bytes().len(),
            forall|i: int| start <= i < p ==> is_digit(#[trigger] self.bytes()[i]),
            val == run_value(self.bytes(), base, start as int, p as int) % m64(),
        ensures
            r.0 - start == digit_run(self.bytes(), start as int),
            r.0 <= self.bytes().len(),
            r.1 == run_value(self.bytes(), base, start as int, r.0 as int) % m64(),
    {
        let ghost s = self.buf@;
        let n: usize = self.buf.len();
        let mut q: usize = p;
        let mut v: u64 = val;
        while q < n && is_ascii_digit(self.buf[q])
            invariant
                s == self.buf@,
                n == s.len(),
                start <= q <= n,
                forall|i: int| start <= i < q ==> is_digit(#[trigger] s[i]),
                v == run_value(s, base, start as int, q as int) % m64(),
            decreases n - q,
        {
            proof {
                lemma_run_extend(s, base, start as int, q as int, 1);
                assert(s.subrange(q as int, q + 1) =~= seq![s[q as int]]);
                lemma_value_one(s[q as int]);
            }
            v = shift_in(
                v,
                10,
                (self.buf[q] - 48) as u64,
                Ghost(run_value(s, base, start as int, q as int)),
            );
            q = q + 1;
        }
        proof {
            lemma_digit_run_is(s, start as int, q - start);
        }
        (q, v)
    }

    /// Reads on, eight digits at a time, from `p` as long as eight more digits of
    /// the run that started at `start` follow.
    fn eight_by_eight(&self, start: usize, p: usize, val: u64, Ghost(base): Ghost<int>) -> (r: (usize, u64))
        requires
            start <= p <= self.bytes().len(),
            forall|i: int| start <= i < p ==> is_digit(#[trigger] self.bytes()[i]),
            val == run_value(self.bytes(), base, start as int, p as int) % m64(),
        ensures
            p <= r.0 <= self.bytes().len(),
            forall|i: int| start <= i < r.0 ==> is_digit(#[trigger] self.bytes()[i]),
            r.1 == run_value(self.bytes(), base, start as int, r.0 as int) % m64(),
    {
        let ghost s = self.buf@;
        let n: usize = self.buf.len();
        let mut q: usize = p;
        let mut v: u64 = val;
        while n - q >= 8
            invariant
                s == self.buf@,
                n == s.len(),
                start <= q <= n,
                p <= q,
                forall|i: int| start <= i < q ==> is_digit(#[trigger] s[i]),
                v == run_value(s, base, start as int, q as int) % m64(),
            decreases n - q,
        {
            let bytes: u64 = load_le8(&self.buf, q);
            if !is_8digits(bytes) {
                return (q, v);
            }
            v = self.take8(start, q, v, bytes, Ghost(base));
            q = q + 8;
        }
        (q, v)
    }

    /// The value after eight more digits, which are in `bytes`.
    fn take8(&self, start: usize, p: usize, val: u64, bytes: u64, Ghost(base): Ghost<int>) -> (v: u64)
        requires
            start <= p,
            p + 8 <= self.bytes().len(),
            bytes_of(bytes) == self.bytes().subrange(p as int, p + 8),
            forall|i: int| 0 <= i < 8 ==> is_digit(#[trigger] bytes_of(bytes)[i]),
            val == run_value(self.bytes(), base, start as int, p as int) % m64(),
        ensures
            forall|i: int| p <= i < p + 8 ==> is_digit(#[trigger] self.bytes()[i]),
            v == run_value(self.bytes(), base, start as int, p + 8) % m64(),
    {
        let ghost s = self.buf@;
        proof {
            lemma_run_extend(s, base, start as int, p as int, 8);
            assert(pow10(8) == 100_000_000) by {
                reveal_with_fuel(pow10, 9);
            }
            assert forall|i: int| p <= i < p + 8 implies is_digit(#[trigger] s[i]) by {
                assert(bytes_of(bytes)[i - p] == s[i]);
            }
        }
        shift_in(
            val,
            100_000_000,
            parse8_swar(bytes),
            Ghost(run_value(s, base, start as int, p as int)),
        )
    }

    /// The number, modulo 2^64, that the `len` digits from `start` on spell.
    pub fn parse_digits(&self, start: usize, len: usize) -> (val: u64)
        requires
            start + len <= self.bytes().len(),
            forall|i: int| start <= i < start + len ==> is_digit(#[trigger] self.bytes()[i]),
        ensures
            val == value(self.bytes().subrange(start as int, start + len)) % m64(),
    {
        let ghost s = self.buf@;
        let n: usize = self.buf.len();
        let end: usize = start + len;
        let mut val: u64 = 0;
        let mut p: usize = start;
        proof {
            lemma_value_empty(s, start as int);
        }
        if self.sse41 {
            while end - p >= 16
                invariant
                    s == self.buf@,
                    start <= p <= end <= s.len(),
                    forall|i: int| start <= i < end ==> is_digit(#[trigger] s[i]),
                    val == value(s.subrange(start as int, p as int)) % m64(),
                decreases end - p,
            {
                val = self.take16(start, p, val, 16, Ghost(0));
                p = p + 16;
            }
            let rem: usize = end - p;
            if rem > 0 {
                val = self.take16(start, p, val, rem, Ghost(0));
            }
            val
        } else {
            while end - p >= 8
                invariant
                    s == self.buf@,
                    start <= p <= end <= s.len(),
                    forall|i: int| start <= i < end ==> is_digit(#[trigger] s[i]),
                    val == value(s.subrange(start as int, p as int)) % m64(),
                decreases end - p,
            {
                let bytes: u64 = load_le8(&self.buf, p);
                proof {
                    assert forall|i: int| 0 <= i < 8 implies is_digit(#[trigger] bytes_of(bytes)[i]) by {
                        assert(is_digit(s[p + i]));
                    }
                }
                val = self.take8(start, p, val, bytes, Ghost(0));
                p = p + 8;
            }
            while p < end
                invariant
                    s == self.buf@,
                    start <= p <= end <= s.len(),
                    forall|i: int| start <= i < end ==> is_digit(#[trigger] s[i]),
                    val == value(s.subrange(start as int, p as int)) % m64(),
                decreases end - p,
            {
                proof {
                    lemma_value_extend(s, start as int, p as int, 1);
                    assert(s.subrange(p as int, p + 1) =~= seq![s[p as int]]);
                    lemma_value_one(s[p as int]);
                    assert(is_digit(s[p as int]));
                }
                val = shift_in(
                    val,
                    10,
                    (self.buf[p] - 48) as u64,
                    Ghost(value(s.subrange(start as int, p as int))),
                );
                p = p + 1;
            }
            val
        }
    }

    /// The value after `rem` more digits, at most sixteen.
    fn take16(&self, start: usize, p: usize, val: u64, rem: usize, Ghost(base): Ghost<int>) -> (v: u64)
        requires
            start <= p,
            rem <= 16,
            p + rem <= self.bytes().len(),
            forall|i: int| p <= i < p + rem ==> is_digit(#[trigger] self.bytes()[i]),
            val == run_value(self.bytes(), base, start as int, p as int) % m64(),
        ensures
            v == run_value(self.bytes(), base, start as int, p + rem) % m64(),
    {
        let ghost s = self.buf@;
        let n: usize = self.buf.len();
        let mut buf: [u8; 16] = [0;16];
        let mut i: usize = 0;
        while i < rem
            invariant
                s == self.buf@,
                n == s.len(),
                i <= rem <= 16,
                p + rem <= n,
                forall|k: int| 0 <= k < i ==> #[trigger] buf@[k] == s[p + k],
            decreases rem - i,
        {
            buf[i] = self.buf[p + i];
            i = i + 1;
        }
        let part: u64 = parse16_sse(&buf, rem);
        proof {
            assert(buf@.take(rem as int) =~= s.subrange(p as int, p + rem));
            lemma_nibbles_of_digits(s.subrange(p as int, p + rem));
            lemma_run_extend(s, base, start as int, p as int, rem as int);
        }
        shift_in(val, pow10_u64(rem), part, Ghost(run_value(s, base, start as int, p as int)))
    }

    /// The run of digits at `p`: its length and, modulo 2^64, the number it spells.
    pub fn parse_uint_at(&self, p: usize) -> (r: (usize, u64))
        requires
            p <= self.bytes().len(),
        ensures
            r.0 == digit_run(self.bytes(), p as int),
            r.1 == value(self.bytes().subrange(p as int, p + r.0)) % m64(),
    {
        let ghost s = self.buf@;
        let n: usize = self.buf.len();
        let start: usize = p;
        let mut q: usize = p;
        let mut val: u64 = 0;
        proof {
            lemma_value_empty(s, start as int);
        }
        while n - q >= 8
            invariant
                s == self.buf@,
                n == s.len(),
                p == start <= q <= n,
                forall|i: int| start <= i < q ==> is_digit(#[trigger] s[i]),
                val == value(s.subrange(start as int, q as int)) % m64(),
            decreases n - q,
        {
            let bytes: u64 = load_le8(&self.buf, q);
            if is_8digits(bytes) {
                val = self.take8(start, q, val, bytes, Ghost(0));
                q = q + 8;
                // a long number goes on sixteen digits at a time
                if self.avx2 && n - q >= 8 && is_8digits(load_le8(&self.buf, q)) {
                    let (used, v2): (usize, u64) = self.parse_uint_avx_rest(q, val);
                    proof {
                        lemma_digit_run_skip(s, start as int, q - start);
                        lemma_value_extend(s, start as int, q as int, used as int);
                        lemma_append_reduced(
                            value(s.subrange(start as int, q as int)),
                            pow10(used as nat),
                            value(s.subrange(q as int, q + used)),
                        );
                    }
                    return (q - start + used, v2);
                }
            } else {
                break ;
            }
        }
        let (e, v2): (usize, u64) = self.finish_digits(start, q, val, Ghost(0));
        (e - start, v2)
    }

    /// Reads on from `p`, up to sixteen digits at a time, to the end of the run of
    /// digits; returns how many there are and, modulo 2^64, `val` with them appended.
    fn parse_uint_avx_rest(&self, p: usize, val: u64) -> (r: (usize, u64))
        requires
            p <= self.bytes().len(),
        ensures
            r.0 == digit_run(self.bytes(), p as int),
            p + r.0 <= self.bytes().len(),
            r.1 == run_value(self.bytes(), val as int, p as int, p + r.0) % m64(),
    {
        let ghost s = self.buf@;
        let start: usize = p;
        let ghost base = val as int;
        proof {
            lemma_value_empty(s, start as int);
            assert(run_value(s, base, start as int, start as int) == base);
            vstd::arithmetic::div_mod::lemma_small_mod(val as nat, m64() as nat);
        }
        let n: usize = self.buf.len();
        let mut q: usize = p;
        let mut v: u64 = val;
        while n - q >= 32 && is_ascii_digit(self.buf[q + 15])
            invariant
                s == self.buf@,
                n == s.len(),
                start <= q <= n,
                forall|i: int| start <= i < q ==> is_digit(#[trigger] s[i]),
                v == run_value(s, base, start as int, q as int) % m64(),
            decreases n - q,
        {
            let bits: u32 = non_digit32(&self.buf, q);
            if first_set(bits) < 16 {
                break ;
            }
            proof {
                assert forall|i: int| start <= i < q + 16 implies is_digit(#[trigger] s[i]) by {
                    if i >= q {
                        assert(!bit(bits, i - q));
                    }
                }
            }
            v = self.take16(start, q, v, 16, Ghost(base));
            q = q + 16;
        }
        if n - q >= 16 && is_ascii_digit(self.buf[q + 7]) {
            let (len, part): (usize, u64) = load16_parse_avx(&self.buf, q);
            proof {
                lemma_digit_run(s, q as int);
                lemma_run_extend(s, base, start as int, q as int, len as int);
            }
            v = shift_in(v, pow10_u64(len), part, Ghost(run_value(s, base, start as int, q as int)));
            q = q + len;
        }
        let (q1, v1): (usize, u64) = self.eight_by_eight(start, q, v, Ghost(base));
        let (e, v2): (usize, u64) = self.finish_digits(start, q1, v1, Ghost(base));
        (e - start, v2)
    }

    /// The run of digits at `start`: its length and, modulo 2^64, the number it
    /// spells. Short runs are measured and read in one look.
    pub fn parse_uint_fast(&self, start: usize) -> (r: (usize, u64))
        requires
            start <= self.bytes().len(),
        ensures
            r.0 == digit_run(self.bytes(), start as int),
            r.1 == value(self.bytes().subrange(start as int, start + r.0)) % m64(),
    {
        let ghost s = self.buf@;
        let n: usize = self.buf.len();
        if self.avx2 && n - start >= 32 {
            let (len, val): (usize, u64) = load32_parse16(&self.buf, start);
            if len <= 16 {
                proof {
                    assert(val < m64());
                }
                return (len, val);
            }
        }
        if self.sse41 && n - start >= 16 {
            let (len, val): (usize, u64) = load16_parse(&self.buf, start);
            if len < 16 || n - start == 16 || !is_ascii_digit(self.buf[start + 16]) {
                proof {
                    assert(val < m64());
                }
                return (len, val);
            }
        }
        let len: usize = self.digit_len(start);
        proof {
            lemma_digit_run(s, start as int);
        }
        let val: u64 = self.parse_digits(start, len);
        (len, val)
    }

    /// Moves past the next token and returns where it starts and ends.
    fn token(&mut self) -> (r: (usize, usize))
        ensures
            final(self).bytes() == old(self).bytes(),
            final(self).wide() == old(self).wide(),
            r.0 == skip_spaces(old(self).bytes(), old(self).pos()),
            r.1 == token_end(old(self).bytes(), r.0 as int),
            r.0 <= r.1 <= old(self).bytes().len(),
            final(self).pos() == r.1,
    {
        self.skip_ws();
        let s: usize = self.pos;
        let e: usize = self.scan_ws(s);
        proof {
            lemma_token_end(self.buf@, s as int);
        }
        self.pos = e;
        (s, e)
    }

    /// Reads a number: its sign and, modulo 2^64, what its digits spell.
    fn next_uint_inner(&mut self) -> (r: (bool, u64))
        ensures
            final(self).bytes() == old(self).bytes(),
            final(self).wide() == old(self).wide(),
            final(self).pos() == int_end(old(self).bytes(), old(self).pos()),
            r.0 == int_neg(old(self).bytes(), old(self).pos()),
            r.1 == value(
                old(self).bytes().subrange(
                    int_start(old(self).bytes(), old(self).pos()),
                    int_end(old(self).bytes(), old(self).pos()),
                ),
            ) % m64(),
    {
        self.skip_ws();
        let n: usize = self.buf.len();
        let mut p: usize = self.pos;
        let neg: bool = p < n && self.buf[p] == 45;
        if neg {
            p = p + 1;
        }
        let (len, val): (usize, u64) = self.parse_uint_at(p);
        proof {
            lemma_digit_run(self.buf@, p as int);
        }
        self.pos = p + len;
        (neg, val)
    }

    /// Reads a number, modulo 2^64.
    pub fn next_u64(&mut self) -> (v: u64)
        ensures
            final(self).bytes() == old(self).bytes(),
            final(self).wide() == old(self).wide(),
            final(self).pos() == int_end(old(self).bytes(), old(self).pos()),
            v == int_value(old(self).bytes(), old(self).pos()) % m64(),
    {
        let ghost b = self.buf@;
        let ghost p = self.pos as int;
        let (neg, v): (bool, u64) = self.next_uint_inner();
        if neg {
            negate(v, Ghost(value(b.subrange(int_start(b, p), int_end(b, p)))))
        } else {
            v
        }
    }

    /// Reads a number, reduced modulo 2^64 to the range of `i64`.
    pub fn next_i64(&mut self) -> (v: i64)
        ensures
            final(self).bytes() == old(self).bytes(),
            final(self).wide() == old(self).wide(),
            final(self).pos() == int_end(old(self).bytes(), old(self).pos()),
            v == wrap_signed(int_value(old(self).bytes(), old(self).pos()), m64()),
    {
        let v: u64 = self.next_u64();
        proof {
            vstd::arithmetic::div_mod::lemma_mod_twice(
                int_value(old(self).bytes(), old(self).pos()),
                m64(),
            );
        }
        to_i64(v)
    }

    /// Reads a number, reduced modulo 2^32 to the range of `i32`.
    pub fn next_i32(&mut self) -> (v: i32)
        ensures
            final(self).bytes() == old(self).bytes(),
            final(self).wide() == old(self).wide(),
            final(self).pos() == int_end(old(self).bytes(), old(self).pos()),
            v == wrap_signed(int_value(old(self).bytes(), old(self).pos()), m32()),
    {
        let v: u64 = self.next_u64();
        proof {
            lemma_low_bits(int_value(old(self).bytes(), old(self).pos()));
            vstd::arithmetic::div_mod::lemma_mod_twice(
                int_value(old(self).bytes(), old(self).pos()),
                m32(),
            );
        }
        to_i32(to_u32(v))
    }

    /// Reads a number, modulo 2^32.
    pub fn next_u32(&mut self) -> (v: u32)
        ensures
            final(self).bytes() == old(self).bytes(),
            final(self).wide() == old(self).wide(),
            final(self).pos() == int_end(old(self).bytes(), old(self).pos()),
            v == int_value(old(self).bytes(), old(self).pos()) % m32(),
    {
        let v: u64 = self.next_u64();
        proof {
            lemma_low_bits(int_value(old(self).bytes(), old(self).pos()));
        }
        to_u32(v)
    }

    /// Reads a number, modulo the number of values of `usize`.
    pub fn next_usize(&mut self) -> (v: usize)
        ensures
            final(self).bytes() == old(self).bytes(),
            final(self).wide() == old(self).wide(),
            final(self).pos() == int_end(old(self).bytes(), old(self).pos()),
            v == int_value(old(self).bytes(), old(self).pos()) % msize(),
    {
        let v: u64 = self.next_u64();
        proof {
            lemma_low_bits(int_value(old(self).bytes(), old(self).pos()));
        }
        to_usize(v)
    }

    /// Reads a number, reduced to the range of `isize`.
    pub fn next_isize(&mut self) -> (v: isize)
        ensures
            final(self).bytes() == old(self).bytes(),
            final(self).wide() == old(self).wide(),
            final(self).pos() == int_end(old(self).bytes(), old(self).pos()),
            v == wrap_signed(int_value(old(self).bytes(), old(self).pos()), msize()),
    {
        let v: usize = self.next_usize();
        proof {
            vstd::arithmetic::div_mod::lemma_mod_twice(
                int_value(old(self).bytes(), old(self).pos()),
                msize(),
            );
        }
        to_isize(v)
    }

    /// Reads a token and takes it apart as a decimal fraction.
    pub fn next_f64(&mut self) -> (d: Decimal)
        ensures
            final(self).bytes() == old(self).bytes(),
            final(self).wide() == old(self).wide(),
            ({
                let s = old(self).bytes();
                let start = skip_spaces(s, old(self).pos());
                &&& d.reads(s.subrange(start, token_end(s, start)))
                &&& final(self).pos() == token_end(s, start)
            }),
    {
        let t: &[u8] = self.next_bytes();
        scan_decimal(t)
    }

    /// Reads a token.
    pub fn next_bytes(&mut self) -> (t: &[u8])
        ensures
            final(self).bytes() == old(self).bytes(),
            final(self).wide() == old(self).wide(),
            ({
                let s = old(self).bytes();
                let start = skip_spaces(s, old(self).pos());
                &&& t@ == s.subrange(start, token_end(s, start))
                &&& final(self).pos() == token_end(s, start)
            }),
    {
        let (s, e): (usize, usize) = self.token();
        vstd::slice::slice_subrange(&self.buf, s, e)
    }
}

/// A decimal fraction as it is written: sign, digits before and after the point,
/// and the exponent if there is one.
pub struct Decimal {
    pub neg: bool,
    pub int_digits: Vec<u8>,
    pub frac_digits: Vec<u8>,
    pub exp: Option<i32>,
}

/// Where the digits before the point end in the token `t`.
pub open spec fn decimal_int_end(t: Seq<u8>) -> int {
    let i = decimal_int_start(t);
    i + digit_run(t, i)
}

/// Where the digits before the point start in the token `t`.
pub open spec fn decimal_int_start(t: Seq<u8>) -> int {
    if t.len() > 0 && t[0] == 45 {
        1
    } else {
        0
    }
}

/// Where the digits after the point start in the token `t`; without a point, where
/// the digits before it end.
pub open spec fn decimal_frac_start(t: Seq<u8>) -> int {
    let i = decimal_int_end(t);
    if i < t.len() && t[i] == 46 {
        i + 1
    } else {
        i
    }
}

/// Where the digits after the point end in the token `t`.
pub open spec fn decimal_frac_end(t: Seq<u8>) -> int {
    let i = decimal_frac_start(t);
    if i > decimal_int_end(t) {
        i + digit_run(t, i)
    } else {
        i
    }
}

/// Whether an exponent follows the digits in the token `t`.
pub open spec fn decimal_has_exp(t: Seq<u8>) -> bool {
    let i = decimal_frac_end(t);
    i < t.len() && (t[i] == 101 || t[i] == 69)
}

/// Whether the exponent in the token `t` has a minus sign.
pub open spec fn decimal_exp_neg(t: Seq<u8>) -> bool {
    let i = decimal_frac_end(t) + 1;
    i < t.len() && t[i] == 45
}

/// Where the digits of the exponent start in the token `t`.
pub open spec fn decimal_exp_start(t: Seq<u8>) -> int {
    let i = decimal_frac_end(t) + 1;
    if i < t.len() && (t[i] == 45 || t[i] == 43) {
        i + 1
    } else {
        i
    }
}

/// The exponent in the token `t`.
pub open spec fn decimal_exp(t: Seq<u8>) -> int {
    let i = decimal_exp_start(t);
    let v = value(t.subrange(i, i + digit_run(t, i)));
    if decimal_exp_neg(t) {
        -v
    } else {
        v
    }
}

impl Decimal {
    /// The parts are those of the token `t`; the exponent is reduced to the range
    /// of `i32`, and what follows it is left out of account.
    pub open spec fn reads(&self, t: Seq<u8>) -> bool {
        &&& self.neg == (t.len() > 0 && t[0] == 45)
        &&& self.int_digits@ == t.subrange(decimal_int_start(t), decimal_int_end(t))
        &&& self.frac_digits@ == t.subrange(decimal_frac_start(t), decimal_frac_end(t))
        &&& decimal_has_exp(t) ==> self.exp is Some && self.exp->0 == wrap_signed(
            decimal_exp(t),
            m32(),
        )
        &&& !decimal_has_exp(t) ==> self.exp is None
    }
}

/// Where the run of digits at `p` ends.
fn run_end(t: &[u8], p: usize) -> (e: usize)
    requires
        p <= t@.len(),
    ensures
        e == p + digit_run(t@, p as int),
        p <= e <= t@.len(),
{
    let mut i: usize = p;
    while i < t.len() && is_ascii_digit(t[i])
        invariant
            p <= i <= t@.len(),
            forall|k: int| p <= k < i ==> is_digit(#[trigger] t@[k]),
        decreases t@.len() - i,
    {
        i = i + 1;
    }
    proof {
        lemma_digit_run_is(t@, p as int, i - p);
    }
    i
}

/// Takes the token `t` apart as a decimal fraction.
pub fn scan_decimal(t: &[u8]) -> (d: Decimal)
    ensures
        d.reads(t@),
{
    let n: usize = t.len();
    let neg: bool = n > 0 && t[0] == 45;
    let i0: usize = if neg {
        1
    } else {
        0
    };
    let i1: usize = run_end(t, i0);
    let int_digits: Vec<u8> = vstd::slice::slice_to_vec(vstd::slice::slice_subrange(t, i0, i1));
    let point: bool = i1 < n && t[i1] == 46;
    let f0: usize = if point {
        i1 + 1
    } else {
        i1
    };
    let f1: usize = if point {
        run_end(t, f0)
    } else {
        f0
    };
    let frac_digits: Vec<u8> = vstd::slice::slice_to_vec(vstd::slice::slice_subrange(t, f0, f1));
    if f1 < n && (t[f1] == 101 || t[f1] == 69) {
        let mut i: usize = f1 + 1;
        let eneg: bool = i < n && t[i] == 45;
        if eneg || (i < n && t[i] == 43) {
            i = i + 1;
        }
        let start: usize = i;
        let mut exp: u32 = 0;
        proof {
            lemma_value_empty(t@, start as int);
        }
        while i < n && is_ascii_digit(t[i])
            invariant
                n == t@.len(),
                start <= i <= n,
                forall|k: int| start <= k < i ==> is_digit(#[trigger] t@[k]),
                exp == value(t@.subrange(start as int, i as int)) % m32(),
            decreases n - i,
        {
            proof {
                lemma_value_extend(t@, start as int, i as int, 1);
                assert(t@.subrange(i as int, i + 1) =~= seq![t@[i as int]]);
                lemma_value_one(t@[i as int]);
            }
            exp = shift_in32(
                exp,
                10,
                (t[i] - 48) as u32,
                Ghost(value(t@.subrange(start as int, i as int))),
            );
            i = i + 1;
        }
        let ghost v = value(t@.subrange(start as int, i as int));
        proof {
            lemma_digit_run_is(t@, start as int, i - start);
            vstd::arithmetic::div_mod::lemma_mod_twice(v, m32());
            vstd::arithmetic::div_mod::lemma_mod_twice(-v, m32());
        }
        let bits: u32 = if eneg {
            negate32(exp, Ghost(v))
        } else {
            exp
        };
        Decimal { neg, int_digits, frac_digits, exp: Some(to_i32(bits)) }
    } else {
        Decimal { neg, int_digits, frac_digits, exp: None }
    }
}

} // verus!
