//! What decimal text means: digits, runs of digits, their value, and the text of
//! a number.
use vstd::prelude::*;

verus! {

/// An ASCII decimal digit.
pub open spec fn is_digit(c: u8) -> bool {
    48 <= c <= 57
}

/// A separator: any byte up to and including the space.
pub open spec fn is_space(c: u8) -> bool {
    c <= 32
}

/// The number whose decimal digits, most significant first, are `d`.
pub open spec fn number(d: Seq<int>) -> int
    decreases d.len(),
{
    if d.len() == 0 {
        0
    } else {
        number(d.drop_last()) * 10 + d.last()
    }
}

/// Ten to the power `n`.
pub open spec fn pow10(n: nat) -> int
    decreases n,
{
    if n == 0 {
        1
    } else {
        10 * pow10((n - 1) as nat)
    }
}

/// The digit values of ASCII digits.
pub open spec fn digit_values(s: Seq<u8>) -> Seq<int> {
    Seq::new(s.len(), |i: int| s[i] - 48)
}

/// The number that the ASCII digits `s` spell.
pub open spec fn value(s: Seq<u8>) -> int {
    number(digit_values(s))
}

/// How many digits stand in `s` from position `p` on without a gap.
pub open spec fn digit_run(s: Seq<u8>, p: int) -> nat
    decreases s.len() - p,
{
    if 0 <= p < s.len() && is_digit(s[p]) {
        1 + digit_run(s, p + 1)
    } else {
        0
    }
}

/// The first position from `p` on that holds no separator, or the end.
pub open spec fn skip_spaces(s: Seq<u8>, p: int) -> int
    decreases s.len() - p,
{
    if 0 <= p < s.len() && is_space(s[p]) {
        skip_spaces(s, p + 1)
    } else {
        p
    }
}

/// The first position from `p` on that holds a separator, or the end.
pub open spec fn token_end(s: Seq<u8>, p: int) -> int
    decreases s.len() - p,
{
    if 0 <= p < s.len() && !is_space(s[p]) {
        token_end(s, p + 1)
    } else {
        p
    }
}

/// The decimal text of `v`: no leading zero, and `0` for zero.
pub open spec fn decimal(v: nat) -> Seq<u8>
    decreases v,
{
    if v < 10 {
        seq![(48 + v) as u8]
    } else {
        decimal(v / 10).push((48 + v % 10) as u8)
    }
}

/// The decimal text of `v`, with a minus sign when it is negative.
pub open spec fn signed_decimal(v: int) -> Seq<u8> {
    if v < 0 {
        seq![45u8] + decimal((-v) as nat)
    } else {
        decimal(v as nat)
    }
}

pub proof fn lemma_pow10_positive(n: nat)
    ensures
        pow10(n) > 0,
    decreases n,
{
    if n > 0 {
        lemma_pow10_positive((n - 1) as nat);
    }
}

/// Digits that stand before others count ten to the number of those.
pub proof fn lemma_number_add(a: Seq<int>, b: Seq<int>)
    ensures
        number(a + b) == number(a) * pow10(b.len()) + number(b),
    decreases b.len(),
{
    if b.len() == 0 {
        assert(a + b =~= a);
    } else {
        assert((a + b).drop_last() =~= a + b.drop_last());
        lemma_number_add(a, b.drop_last());
        let n = pow10((b.len() - 1) as nat);
        assert((number(a) * n + number(b.drop_last())) * 10 + b.last() == number(a) * (10 * n)
            + number(b.drop_last()) * 10 + b.last()) by (nonlinear_arith);
    }
}

pub proof fn lemma_value_add(a: Seq<u8>, b: Seq<u8>)
    ensures
        value(a + b) == value(a) * pow10(b.len()) + value(b),
{
    assert(digit_values(a + b) =~= digit_values(a) + digit_values(b));
    lemma_number_add(digit_values(a), digit_values(b));
}

pub proof fn lemma_value_one(c: u8)
    ensures
        value(seq![c]) == c - 48,
        pow10(1) == 10,
{
    reveal_with_fuel(number, 2);
    reveal_with_fuel(pow10, 2);
    assert(digit_values(seq![c]).drop_last() =~= Seq::empty());
}

/// The digits of a run, and what ends it.
pub proof fn lemma_digit_run(s: Seq<u8>, p: int)
    requires
        0 <= p <= s.len(),
    ensures
        p + digit_run(s, p) <= s.len(),
        forall|i: int| p <= i < p + digit_run(s, p) ==> is_digit(#[trigger] s[i]),
        p + digit_run(s, p) < s.len() ==> !is_digit(s[p + digit_run(s, p)]),
    decreases s.len() - p,
{
    if p < s.len() && is_digit(s[p]) {
        lemma_digit_run(s, p + 1);
    }
}

/// A run that starts with `n` digits goes on after them.
pub proof fn lemma_digit_run_skip(s: Seq<u8>, p: int, n: int)
    requires
        0 <= p,
        0 <= n,
        p + n <= s.len(),
        forall|i: int| p <= i < p + n ==> is_digit(#[trigger] s[i]),
    ensures
        digit_run(s, p) == n + digit_run(s, p + n),
    decreases n,
{
    if n > 0 {
        assert(is_digit(s[p]));
        lemma_digit_run_skip(s, p + 1, n - 1);
    }
}

/// `n` digits before something else are a run of `n`.
pub proof fn lemma_digit_run_is(s: Seq<u8>, p: int, n: int)
    requires
        0 <= p,
        0 <= n,
        p + n <= s.len(),
        forall|i: int| p <= i < p + n ==> is_digit(#[trigger] s[i]),
        p + n < s.len() ==> !is_digit(s[p + n]),
    ensures
        digit_run(s, p) == n,
{
    lemma_digit_run_skip(s, p, n);
}

pub proof fn lemma_skip_spaces(s: Seq<u8>, p: int)
    requires
        0 <= p <= s.len(),
    ensures
        p <= skip_spaces(s, p) <= s.len(),
        forall|i: int| p <= i < skip_spaces(s, p) ==> is_space(#[trigger] s[i]),
        skip_spaces(s, p) < s.len() ==> !is_space(s[skip_spaces(s, p)]),
    decreases s.len() - p,
{
    if p < s.len() && is_space(s[p]) {
        lemma_skip_spaces(s, p + 1);
    }
}

pub proof fn lemma_skip_spaces_over(s: Seq<u8>, p: int, q: int)
    requires
        0 <= p <= q <= s.len(),
        forall|i: int| p <= i < q ==> is_space(#[trigger] s[i]),
    ensures
        skip_spaces(s, p) == skip_spaces(s, q),
    decreases q - p,
{
    if p < q {
        assert(is_space(s[p]));
        lemma_skip_spaces_over(s, p + 1, q);
    }
}

pub proof fn lemma_token_end(s: Seq<u8>, p: int)
    requires
        0 <= p <= s.len(),
    ensures
        p <= token_end(s, p) <= s.len(),
        forall|i: int| p <= i < token_end(s, p) ==> !is_space(#[trigger] s[i]),
        token_end(s, p) < s.len() ==> is_space(s[token_end(s, p)]),
    decreases s.len() - p,
{
    if p < s.len() && !is_space(s[p]) {
        lemma_token_end(s, p + 1);
    }
}

pub proof fn lemma_token_end_over(s: Seq<u8>, p: int, q: int)
    requires
        0 <= p <= q <= s.len(),
        forall|i: int| p <= i < q ==> !is_space(#[trigger] s[i]),
    ensures
        token_end(s, p) == token_end(s, q),
    decreases q - p,
{
    if p < q {
        assert(!is_space(s[p]));
        lemma_token_end_over(s, p + 1, q);
    }
}

/// The text of a number is made of digits, and spells that number.
pub proof fn lemma_decimal(v: nat)
    ensures
        decimal(v).len() > 0,
        forall|i: int| 0 <= i < decimal(v).len() ==> is_digit(#[trigger] decimal(v)[i]),
        value(decimal(v)) == v,
        v > 0 ==> decimal(v)[0] != 48,
    decreases v,
{
    if v < 10 {
        lemma_value_one((48 + v) as u8);
    } else {
        lemma_decimal(v / 10);
        let c = (48 + v % 10) as u8;
        assert(decimal(v) =~= decimal(v / 10) + seq![c]);
        lemma_value_add(decimal(v / 10), seq![c]);
        lemma_value_one(c);
    }
}

/// Whether `c` is an ASCII digit.
pub fn is_ascii_digit(c: u8) -> (r: bool)
    ensures
        r == is_digit(c),
{
    48 <= c && c <= 57
}

/// Ten to the power `n`.
pub fn pow10_u64(n: usize) -> (r: u64)
    requires
        n <= 19,
    ensures
        r == pow10(n as nat),
{
    let mut r: u64 = 1;
    let mut i: usize = 0;
    proof {
        reveal_with_fuel(pow10, 20);
    }
    while i < n
        invariant
            i <= n <= 19,
            r == pow10(i as nat),
            forall|k: int| 0 <= k <= 19 ==> #[trigger] pow10(k as nat) <= 10_000_000_000_000_000_000,
        decreases n - i,
    {
        assert(pow10((i + 1) as nat) == 10 * pow10(i as nat));
        r = 10 * r;
        i = i + 1;
    }
    r
}

} // verus!
