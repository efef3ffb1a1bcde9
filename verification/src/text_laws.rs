//! What holds of text: which bytes are separators and digits, what digits spell, how
//! numbers and fractions are written, and what is read from any text.
use vstd::arithmetic::power::pow;
use vstd::prelude::*;

verus! {

use crate::digits::{
    decimal,
    digit_run,
    digit_values,
    is_digit,
    is_space,
    number,
    pow10,
    signed_decimal,
    skip_spaces,
    token_end,
    value,
};
use crate::digits::{
    lemma_decimal,
    lemma_digit_run,
    lemma_digit_run_is,
    lemma_number_add,
    lemma_skip_spaces,
    lemma_skip_spaces_over,
    lemma_token_end,
    lemma_value_add,
    lemma_value_one,
};
use crate::fast_in::{
    decimal_exp,
    decimal_frac_end,
    decimal_frac_start,
    decimal_has_exp,
    decimal_int_end,
    decimal_int_start,
    int_end,
    int_neg,
    int_start,
    int_value,
    run_value,
    Decimal,
};
use crate::fast_out::{fixed_text, flush_next, padded, FlushStep, Rounded};
use crate::solve::{from_zero, read_u32, spaced};
use crate::wrap::{m32, m64, msize, wrap_signed};

/// Separators are the bytes up to the space, digits those from `0` to `9`.
pub proof fn law_kinds_of_bytes(c: u8)
    ensures
        is_space(c) <==> c <= 32,
        is_digit(c) <==> 48 <= c && c <= 57,
{
}

/// Where reading goes on: past all separators, past all bytes of a token, or past all
/// digits, and no further.
pub proof fn law_where_things_end(s: Seq<u8>, p: int)
    requires
        0 <= p <= s.len(),
    ensures
        ({
            let q = skip_spaces(s, p);
            &&& p <= q <= s.len()
            &&& forall|i: int| p <= i < q ==> #[trigger] s[i] <= 32
            &&& q < s.len() ==> s[q] > 32
        }),
        ({
            let q = token_end(s, p);
            &&& p <= q <= s.len()
            &&& forall|i: int| p <= i < q ==> #[trigger] s[i] > 32
            &&& q < s.len() ==> s[q] <= 32
        }),
        ({
            let q = p + digit_run(s, p);
            &&& p <= q <= s.len()
            &&& forall|i: int| p <= i < q ==> 48 <= #[trigger] s[i] <= 57
            &&& q < s.len() ==> !(48 <= s[q] <= 57)
        }),
{
    lemma_skip_spaces(s, p);
    lemma_token_end(s, p);
    lemma_digit_run(s, p);
    assert forall|i: int| p <= i < skip_spaces(s, p) implies #[trigger] s[i] <= 32 by {
        assert(is_space(s[i]));
    }
    assert forall|i: int| p <= i < token_end(s, p) implies #[trigger] s[i] > 32 by {
        assert(!is_space(s[i]));
    }
    assert forall|i: int| p <= i < p + digit_run(s, p) implies 48 <= #[trigger] s[i] <= 57 by {
        assert(is_digit(s[i]));
    }
}

/// Powers of ten.
pub proof fn law_powers_of_ten(n: nat)
    ensures
        pow10(n) == pow(10, n),
        pow10(n) > 0,
    decreases n,
{
    reveal(pow);
    if n > 0 {
        law_powers_of_ten((n - 1) as nat);
    }
}

/// What digits spell: a digit by itself is its distance from `0`, and digits before
/// others count ten to the number of those; no digits are zero.
pub proof fn law_digits_spell(a: Seq<u8>, b: Seq<u8>, c: u8)
    ensures
        value(Seq::empty()) == 0,
        value(seq![c]) == c - 48,
        value(a + b) == value(a) * pow(10, b.len()) + value(b),
{
    assert(digit_values(Seq::empty()) =~= Seq::empty());
    lemma_value_one(c);
    lemma_value_add(a, b);
    law_powers_of_ten(b.len());
}

/// The same of digit values.
pub proof fn law_digit_values_spell(a: Seq<int>, b: Seq<int>, d: int)
    ensures
        number(Seq::empty()) == 0,
        number(seq![d]) == d,
        number(a + b) == number(a) * pow(10, b.len()) + number(b),
{
    assert(number(seq![d]) == d) by {
        reveal_with_fuel(number, 2);
        assert(seq![d].drop_last() =~= Seq::empty());
    }
    lemma_number_add(a, b);
    law_powers_of_ten(b.len());
}

/// Appending digits to a number.
pub proof fn law_appended_digits(s: Seq<u8>, base: int, start: int, q: int)
    requires
        0 <= start <= q <= s.len(),
    ensures
        run_value(s, base, start, q) == base * pow(10, (q - start) as nat) + value(s.subrange(start, q)),
{
    law_powers_of_ten((q - start) as nat);
}

/// Cutting a number at one of its places.
proof fn lemma_places(v: nat, i: nat)
    ensures
        pow(10, i) > 0,
        v / 10 / pow(10, i) as nat == v / pow(10, i + 1) as nat,
        pow(10, i + 1) == 10 * pow(10, i),
{
    law_powers_of_ten(i);
    law_powers_of_ten(i + 1);
    reveal(pow);
    vstd::arithmetic::div_mod::lemma_div_denominator(v as int, 10, pow(10, i));
}

/// The decimal text of a number, place by place: the byte `i` places before the end is
/// the digit of ten to the power `i`, there are as many as the number needs, and at least
/// one.
pub proof fn law_decimal_place_by_place(v: nat)
    ensures
        ({
            let k = decimal(v).len();
            &&& k >= 1
            &&& v < pow(10, k)
            &&& k > 1 ==> pow(10, (k - 1) as nat) <= v
            &&& forall|i: int|
                0 <= i < k ==> #[trigger] decimal(v)[k - 1 - i] == 48 + (v as int / pow(10, i as nat)) % 10
        }),
    decreases v,
{
    let d = decimal(v);
    let k = d.len() as int;
    reveal(pow);
    assert(pow(10, 0) == 1);
    assert(pow(10, 1) == 10 * pow(10, 0));
    if v >= 10 {
        let w = v / 10;
        law_decimal_place_by_place(w);
        let e = decimal(w);
        assert(d == e.push((48 + v % 10) as u8));
        assert(pow(10, k as nat) == 10 * pow(10, e.len()));
        assert(e.len() > 1 ==> pow(10, e.len()) == 10 * pow(10, (e.len() - 1) as nat));
        assert(e.len() == 1 ==> pow(10, e.len()) == 10);
        assert forall|i: int| 0 <= i < k implies #[trigger] d[k - 1 - i] == 48 + (v as int / pow(10, i as nat)) % 10 by {
            if i > 0 {
                lemma_places(v, (i - 1) as nat);
                assert((i - 1) as nat + 1 == i as nat);
                assert(d[k - 1 - i] == e[e.len() - 1 - (i - 1)]);
            }
        }
    } else {
        assert forall|i: int| 0 <= i < k implies #[trigger] d[k - 1 - i] == 48 + (v as int / pow(10, i as nat)) % 10 by {
            assert(i == 0);
        }
    }
}

/// A negative number is written as a minus sign and the number without it.
pub proof fn law_signed_text(v: nat)
    ensures
        signed_decimal(v as int) == decimal(v),
        v > 0 ==> signed_decimal(-v) == seq![45u8] + decimal(v),
{
    if v > 0 {
        assert((-(-v)) as nat == v);
    }
}

/// The last `n` places of a number, place by place.
pub proof fn law_padded_place_by_place(v: nat, n: nat)
    ensures
        padded(v, n).len() == n,
        forall|i: int|
            0 <= i < n ==> #[trigger] padded(v, n)[n - 1 - i] == 48 + (v as int / pow(10, i as nat)) % 10,
    decreases n,
{
    reveal(pow);
    if n > 0 {
        let e = padded(v / 10, (n - 1) as nat);
        law_padded_place_by_place(v / 10, (n - 1) as nat);
        assert forall|i: int| 0 <= i < n implies #[trigger] padded(v, n)[n - 1 - i] == 48 + (v as int / pow(
            10,
            i as nat,
        )) % 10 by {
            if i > 0 {
                lemma_places(v, (i - 1) as nat);
                assert((i - 1) as nat + 1 == i as nat);
                assert(padded(v, n)[n - 1 - i] == e[(n - 1) - 1 - (i - 1)]);
            }
        }
    }
}

/// The text of a fraction: the sign, the decimal text of the whole part, and, if there
/// are places, a point and the digits of the count of the last place, place by place.
pub proof fn law_fraction_place_by_place(neg: bool, scaled: u64, prec: nat)
    ensures
        fixed_text(Rounded::Nan, prec) == seq![78u8, 97u8, 78u8],
        fixed_text(Rounded::Infinite { neg: false }, prec) == seq![105u8, 110u8, 102u8],
        fixed_text(Rounded::Infinite { neg: true }, prec) == seq![45u8, 105u8, 110u8, 102u8],
        ({
            let t = fixed_text(Rounded::Finite { neg, scaled }, prec);
            let whole = decimal((scaled as int / pow(10, prec)) as nat);
            let a: int = if neg {
                1
            } else {
                0
            };
            let b = a + whole.len();
            &&& neg ==> t[0] == 45
            &&& t.subrange(a, b) == whole
            &&& prec == 0 ==> t.len() == b
            &&& prec > 0 ==> t.len() == b + 1 + prec && t[b] == 46
            &&& forall|i: int|
                0 <= i < prec ==> #[trigger] t[b + prec - i] == 48 + (scaled as int / pow(10, i as nat)) % 10
        }),
{
    law_powers_of_ten(prec);
    let t = fixed_text(Rounded::Finite { neg, scaled }, prec);
    let f = (scaled as int % pow10(prec)) as nat;
    let whole = decimal((scaled as int / pow10(prec)) as nat);
    let a: int = if neg {
        1
    } else {
        0
    };
    let b = a + whole.len();
    vstd::arithmetic::div_mod::lemma_mod_bound(scaled as int, pow10(prec));
    law_padded_place_by_place(f, prec);
    assert(t.subrange(a, b) =~= whole);
    assert(fixed_text(Rounded::Infinite { neg: false }, prec) =~= seq![105u8, 110u8, 102u8]);
    assert(fixed_text(Rounded::Infinite { neg: true }, prec) =~= seq![45u8, 105u8, 110u8, 102u8]);
    assert forall|i: int| 0 <= i < prec implies #[trigger] t[b + prec - i] == 48 + (scaled as int / pow(10, i as nat))
        % 10 by {
        assert(t[b + prec - i] == padded(f, prec)[prec - 1 - i]);
        lemma_low_places(scaled as nat, prec, i as nat);
    }
}

/// A place below `prec` does not depend on what is above.
proof fn lemma_low_places(v: nat, prec: nat, i: nat)
    requires
        i < prec,
    ensures
        (v as int % pow(10, prec) / pow(10, i)) % 10 == (v as int / pow(10, i)) % 10,
{
    let j = (prec - i) as nat;
    law_powers_of_ten(i);
    law_powers_of_ten(j);
    law_powers_of_ten((j - 1) as nat);
    vstd::arithmetic::power::lemma_pow_adds(10, i, j);
    assert(pow(10, j) == 10 * pow(10, (j - 1) as nat)) by {
        reveal(pow);
    }
    let (x, y, z) = (pow(10, i), pow(10, j), pow(10, (j - 1) as nat));
    vstd::arithmetic::div_mod::lemma_mod_breakdown(v as int, x, y);
    let q = v as int / x;
    let r = v as int % x;
    vstd::arithmetic::div_mod::lemma_mod_bound(v as int, x);
    assert(v as int % (x * y) == x * (q % y) + r);
    let h = q % y;
    assert(x * h + r == h * x + r) by (nonlinear_arith);
    vstd::arithmetic::div_mod::lemma_fundamental_div_mod_converse(x * h + r, x, h, r);
    vstd::arithmetic::div_mod::lemma_mod_mod(q, 10, z);
}

/// Reducing a number to a signed type keeps its remainder and puts it around zero; the
/// types have as many values as their bits give.
pub proof fn law_reduced_numbers(v: int, h: int)
    requires
        h > 0,
    ensures
        -h <= wrap_signed(v, 2 * h) < h,
        (wrap_signed(v, 2 * h) - v) % (2 * h) == 0,
        m64() == u64::MAX + 1,
        m32() == u32::MAX + 1,
        msize() == usize::MAX + 1,
{
    let m = 2 * h;
    let (q, r) = (v / m, v % m);
    vstd::arithmetic::div_mod::lemma_fundamental_div_mod(v, m);
    vstd::arithmetic::div_mod::lemma_mod_bound(v, m);
    assert(m / 2 == h);
    let w = wrap_signed(v, m);
    if r < h {
        assert(w - v == m * (-q)) by (nonlinear_arith)
            requires
                w == r,
                v == m * q + r,
        ;
        vstd::arithmetic::div_mod::lemma_fundamental_div_mod_converse(w - v, m, -q, 0);
    } else {
        assert(w - v == m * (-q - 1)) by (nonlinear_arith)
            requires
                w == r - m,
                v == m * q + r,
        ;
        vstd::arithmetic::div_mod::lemma_fundamental_div_mod_converse(w - v, m, -q - 1, 0);
    }
}

/// What number is read from any text: after the separators up to `q`, a minus sign if
/// there is one, and then the digits up to `e`, none or many.
pub proof fn law_number_in_any_text(s: Seq<u8>, p: int, q: int, e: int)
    requires
        0 <= p <= q <= s.len(),
        forall|i: int| p <= i < q ==> #[trigger] s[i] <= 32,
        q < s.len() ==> s[q] > 32,
        ({
            let a = if q < s.len() && s[q] == 45 {
                q + 1
            } else {
                q
            };
            &&& a <= e <= s.len()
            &&& forall|i: int| a <= i < e ==> 48 <= #[trigger] s[i] <= 57
        }),
        e < s.len() ==> !(48 <= s[e] <= 57),
    ensures
        int_end(s, p) == e,
        q < s.len() && s[q] == 45 ==> int_neg(s, p) && int_start(s, p) == q + 1 && int_value(s, p) == -value(
            s.subrange(q + 1, e),
        ),
        !(q < s.len() && s[q] == 45) ==> !int_neg(s, p) && int_start(s, p) == q && int_value(s, p) == value(
            s.subrange(q, e),
        ),
        0 <= read_u32(s, p) < 0x1_0000_0000,
        (read_u32(s, p) - int_value(s, p)) % 0x1_0000_0000 == 0,
{
    assert forall|i: int| p <= i < q implies is_space(#[trigger] s[i]) by {
        assert(s[i] <= 32);
    }
    lemma_skip_spaces_over(s, p, q);
    assert(skip_spaces(s, q) == q);
    let a = int_start(s, p);
    assert forall|i: int| a <= i < e implies is_digit(#[trigger] s[i]) by {
        assert(48 <= s[i] <= 57);
    }
    lemma_digit_run_is(s, a, e - a);
    let v = int_value(s, p);
    vstd::arithmetic::div_mod::lemma_mod_bound(v, 0x1_0000_0000);
    vstd::arithmetic::div_mod::lemma_fundamental_div_mod(v, 0x1_0000_0000);
    let (c, r) = (v / 0x1_0000_0000, v % 0x1_0000_0000);
    vstd::arithmetic::div_mod::lemma_fundamental_div_mod_converse(r - v, 0x1_0000_0000, -c, 0);
}

/// Positions counted from 1 and from 0.
pub proof fn law_from_zero(k: u32)
    ensures
        k > 0 ==> from_zero(k) == k - 1,
        k == 0 ==> from_zero(k) == 0xffff_ffff,
{
}

/// A list of numbers is written number by number, with one space between two of them and
/// nothing else.
pub proof fn law_line_of_numbers(a: Seq<u32>, b: Seq<u32>, v: u32)
    ensures
        spaced(Seq::empty()) == Seq::<u8>::empty(),
        spaced(seq![v]) == decimal(v as nat),
        a.len() > 0 && b.len() > 0 ==> spaced(a + b) == spaced(a) + seq![32u8] + spaced(b),
    decreases b.len(),
{
    if a.len() > 0 && b.len() > 0 {
        let c = a + b;
        assert(c.drop_last() =~= a + b.drop_last());
        if b.len() == 1 {
            assert(a + b.drop_last() =~= a);
            assert(spaced(c) =~= spaced(a) + seq![32u8] + spaced(b));
        } else {
            law_line_of_numbers(a, b.drop_last(), v);
            assert(spaced(c) =~= spaced(a) + seq![32u8] + spaced(b));
        }
    }
}

/// The parts of a token, and the exponent that its last part stands for.
pub struct Parts {
    /// Nothing or a minus sign.
    pub sign: Seq<u8>,
    /// The digits before the point.
    pub whole: Seq<u8>,
    /// Nothing, or a point and the digits after it.
    pub point: Option<Seq<u8>>,
    /// Nothing, or the letter, the sign and the digits of the exponent.
    pub exp: Option<(u8, Seq<u8>, Seq<u8>)>,
    /// What follows and is left out of account.
    pub rest: Seq<u8>,
}

/// All bytes are digits.
pub open spec fn all_digits(s: Seq<u8>) -> bool {
    forall|i: int| 0 <= i < s.len() ==> 48 <= #[trigger] s[i] <= 57
}

impl Parts {
    /// The token.
    pub open spec fn text(self) -> Seq<u8> {
        self.sign + self.whole + match self.point {
            None => Seq::empty(),
            Some(f) => seq![46u8] + f,
        } + match self.exp {
            None => Seq::empty(),
            Some((letter, sg, x)) => seq![letter] + sg + x,
        } + self.rest
    }

    /// Each part is as long as it can be.
    pub open spec fn proper(self) -> bool {
        let next = self.rest[0];
        let more = self.rest.len() > 0;
        &&& self.sign == Seq::<u8>::empty() || self.sign == seq![45u8]
        &&& all_digits(self.whole)
        &&& self.point matches Some(f) ==> all_digits(f)
        &&& self.exp matches Some((letter, sg, x)) ==> {
            &&& letter == 101 || letter == 69
            &&& sg == Seq::<u8>::empty() || sg == seq![43u8] || sg == seq![45u8]
            &&& all_digits(x)
        }
        &&& more ==> !(48 <= next <= 57)
        &&& more && self.exp is None ==> next != 101 && next != 69
        &&& more && self.exp is None && self.point is None ==> next != 46
        &&& more && self.exp is None && self.point is None && self.whole.len() == 0 && self.sign.len() == 0
            ==> next != 45
        &&& self.exp matches Some((letter, sg, x)) ==> (more && sg.len() == 0 && x.len() == 0 ==> next != 43
            && next != 45)
    }
}

/// Five parts one after the other, each found again in the whole.
proof fn lemma_five_parts(u: Seq<u8>, v: Seq<u8>, w: Seq<u8>, x: Seq<u8>, y: Seq<u8>) -> (s: Seq<u8>)
    ensures
        s == u + v + w + x + y,
        ({
            let a = u.len() as int;
            let b = a + v.len();
            let c = b + w.len();
            let d = c + x.len();
            &&& s.len() == d + y.len()
            &&& s.subrange(0, a) == u
            &&& s.subrange(a, b) == v
            &&& s.subrange(b, c) == w
            &&& s.subrange(c, d) == x
            &&& s.subrange(d, s.len() as int) == y
        }),
{
    let s = u + v + w + x + y;
    let a = u.len() as int;
    let b = a + v.len();
    let c = b + w.len();
    let d = c + x.len();
    assert(s.subrange(0, a) =~= u);
    assert(s.subrange(a, b) =~= v);
    assert(s.subrange(b, c) =~= w);
    assert(s.subrange(c, d) =~= x);
    assert(s.subrange(d, s.len() as int) =~= y);
    s
}

/// The first byte of a part.
proof fn lemma_first_byte(s: Seq<u8>, a: int, b: int, x: Seq<u8>)
    requires
        0 <= a < b <= s.len(),
        s.subrange(a, b) == x,
    ensures
        s[a] == x[0],
{
    assert(s.subrange(a, b)[0] == s[a]);
}

/// Where the parts of the token `s` are: the sign ends at `a`, the digits before the point
/// at `b`, and the digits after it at `c`.
proof fn lemma_parts_end(s: Seq<u8>, a: int, b: int, point: bool, c: int)
    requires
        0 <= a <= b <= c <= s.len(),
        a == 1 <==> s.len() > 0 && s[0] == 45,
        a <= 1,
        forall|i: int| a <= i < b ==> is_digit(#[trigger] s[i]),
        b < s.len() ==> !is_digit(s[b]),
        point <==> b < s.len() && s[b] == 46,
        point ==> b < c && forall|i: int| b < i < c ==> is_digit(#[trigger] s[i]),
        !point ==> c == b,
        c < s.len() ==> !is_digit(s[c]),
    ensures
        decimal_int_start(s) == a,
        decimal_int_end(s) == b,
        decimal_frac_start(s) == if point {
            b + 1
        } else {
            b
        },
        decimal_frac_end(s) == c,
{
    lemma_digit_run_is(s, a, b - a);
    if point {
        lemma_digit_run_is(s, b + 1, c - b - 1);
    }
}

/// Where the digits of the exponent of the token `s` are: from `g` to `e`, when the letter
/// stands at `c`.
proof fn lemma_exp_ends(s: Seq<u8>, c: int, g: int, e: int)
    requires
        decimal_frac_end(s) == c,
        0 <= c < s.len(),
        c + 1 <= g <= c + 2,
        g <= e <= s.len(),
        g == c + 2 <==> c + 1 < s.len() && (s[c + 1] == 43 || s[c + 1] == 45),
        forall|i: int| g <= i < e ==> is_digit(#[trigger] s[i]),
        e < s.len() ==> !is_digit(s[e]),
    ensures
        decimal_exp(s) == if g == c + 2 && s[c + 1] == 45 {
            -value(s.subrange(g, e))
        } else {
            value(s.subrange(g, e))
        },
{
    lemma_digit_run_is(s, g, e - g);
}

/// The same for the parts themselves: the sign, the digits, a part that is empty or starts
/// with a point, a part that is empty or starts with a letter, and the rest.
proof fn lemma_token_of(s: Seq<u8>, a: int, b: int, c: int, e: int)
    requires
        0 <= a <= b <= c <= e <= s.len(),
        a <= 1,
        a == 1 ==> s[0] == 45,
        all_digits(s.subrange(a, b)),
        b < c ==> s[b] == 46 && all_digits(s.subrange(b + 1, c)),
        c < e ==> s[c] == 101 || s[c] == 69,
        c == e && e < s.len() ==> s[e] != 101 && s[e] != 69 && !(48 <= s[e] <= 57),
        b == c && c == e && e < s.len() ==> s[e] != 46,
        a == 0 && b == 0 && c == 0 && e == 0 && s.len() > 0 ==> s[0] != 45,
    ensures
        decimal_int_start(s) == a,
        (s.len() > 0 && s[0] == 45) == (a == 1),
        decimal_int_end(s) == b,
        decimal_frac_start(s) == if b < c {
            b + 1
        } else {
            b
        },
        decimal_frac_end(s) == c,
        decimal_has_exp(s) == (c < e),
{
    assert forall|i: int| a <= i < b implies is_digit(#[trigger] s[i]) by {
        assert(s.subrange(a, b)[i - a] == s[i]);
    }
    assert forall|i: int| b < i < c implies is_digit(#[trigger] s[i]) by {
        assert(s.subrange(b + 1, c)[i - b - 1] == s[i]);
    }
    if a == 0 && b > 0 {
        assert(is_digit(s[0]));
    }
    lemma_parts_end(s, a, b, b < c, c);
}

/// The exponent of such a token.
proof fn lemma_exp_of(x: Seq<u8>, letter: u8, sg: Seq<u8>, d: Seq<u8>, rest: Seq<u8>, s: Seq<u8>)
    requires
        s == x + (seq![letter] + sg + d) + rest,
        decimal_frac_end(s) == x.len(),
        sg == Seq::<u8>::empty() || sg == seq![43u8] || sg == seq![45u8],
        all_digits(d),
        rest.len() > 0 ==> !(48 <= rest[0] <= 57),
        rest.len() > 0 && sg.len() == 0 && d.len() == 0 ==> rest[0] != 43 && rest[0] != 45,
    ensures
        sg == seq![45u8] ==> decimal_exp(s) == -value(d),
        sg != seq![45u8] ==> decimal_exp(s) == value(d),
{
    let c = x.len() as int;
    let g = c + 1 + sg.len();
    let e = g + d.len();
    assert(s =~= x + seq![letter] + sg + d + rest);
    if sg.len() > 0 {
        assert(s[c + 1] == sg[0]);
    } else if d.len() > 0 {
        assert(s[c + 1] == d[0]);
    } else if rest.len() > 0 {
        assert(s[c + 1] == rest[0]);
    }
    if rest.len() > 0 {
        assert(s[e] == rest[0]);
    }
    assert forall|i: int| g <= i < e implies is_digit(#[trigger] s[i]) by {
        assert(s[i] == d[i - g]);
    }
    assert(sg == seq![43u8] ==> sg[0] == 43);
    assert(sg == seq![45u8] ==> sg[0] == 45);
    assert(seq![45u8].len() == 1);
    lemma_exp_ends(s, c, g, e);
    assert(s.subrange(g, e) =~= d);
}

/// How any token is taken apart as a fraction: the sign, the digits before and after the
/// point, and the exponent, which is the number that its digits spell, negated after a
/// minus sign and after nothing else, reduced to the range of `i32`.
pub proof fn law_fraction_in_any_token(t: Parts, d: Decimal)
    requires
        t.proper(),
        d.reads(t.text()),
    ensures
        d.neg == (t.sign.len() > 0),
        d.int_digits@ == t.whole,
        d.frac_digits@ == match t.point {
            None => Seq::empty(),
            Some(f) => f,
        },
        d.exp is Some <==> t.exp is Some,
        t.exp matches Some((letter, sg, x)) ==> ({
            let e = if sg == seq![45u8] {
                -value(x)
            } else {
                value(x)
            };
            &&& (d.exp->0 - e) % 0x1_0000_0000 == 0
            &&& -0x8000_0000 <= e < 0x8000_0000 ==> d.exp->0 == e
        }),
{
    let pt: Seq<u8> = match t.point {
        None => Seq::empty(),
        Some(f) => seq![46u8] + f,
    };
    let ex: Seq<u8> = match t.exp {
        None => Seq::empty(),
        Some((letter, sg, x)) => seq![letter] + sg + x,
    };
    if t.point is Some {
        assert(pt.skip(1) =~= t.point->0);
    }
    let s = lemma_five_parts(t.sign, t.whole, pt, ex, t.rest);
    assert(s == t.text());
    let a = t.sign.len() as int;
    let b = a + t.whole.len();
    let c = b + pt.len();
    let e = c + ex.len();
    if a > 0 {
        lemma_first_byte(s, 0, a, t.sign);
    }
    if b < c {
        lemma_first_byte(s, b, c, pt);
        assert(s.subrange(b + 1, c) =~= s.subrange(b, c).skip(1));
    }
    if c < e {
        lemma_first_byte(s, c, e, ex);
    }
    if e < s.len() {
        lemma_first_byte(s, e, s.len() as int, t.rest);
    }
    lemma_token_of(s, a, b, c, e);
    if t.exp is Some {
        let (letter, sg, x) = t.exp->0;
        let before = t.sign + t.whole + pt;
        assert(s == before + (seq![letter] + sg + x) + t.rest);
        lemma_exp_of(before, letter, sg, x, t.rest, s);
        let v = decimal_exp(s);
        law_reduced_numbers(v, 0x8000_0000);
        if -0x8000_0000 <= v < 0x8000_0000 {
            let w = d.exp->0 as int;
            assert((w - v) % 0x1_0000_0000 == 0 && -0x1_0000_0000 < w - v < 0x1_0000_0000);
        }
    }
}

/// An exponent that has been written is read back, with or without a plus sign, with
/// either letter, and whatever the digits before and after the point are.
pub proof fn law_exponent_reads_back(
    neg: bool,
    whole: Seq<u8>,
    point: Option<Seq<u8>>,
    letter: u8,
    plus: bool,
    e: i32,
    d: Decimal,
)
    requires
        all_digits(whole),
        point matches Some(f) ==> all_digits(f),
        letter == 101 || letter == 69,
        plus ==> e >= 0,
        ({
            let head: Seq<u8> = if neg {
                seq![45u8]
            } else {
                Seq::empty()
            };
            let frac: Seq<u8> = match point {
                None => Seq::empty(),
                Some(f) => seq![46u8] + f,
            };
            let sg: Seq<u8> = if plus {
                seq![43u8]
            } else {
                Seq::empty()
            };
            d.reads(head + whole + frac + (seq![letter] + sg + signed_decimal(e as int)))
        }),
    ensures
        d.exp == Some(e),
        d.neg == neg,
        d.int_digits@ == whole,
        d.frac_digits@ == match point {
            None => Seq::empty(),
            Some(f) => f,
        },
{
    let head: Seq<u8> = if neg {
        seq![45u8]
    } else {
        Seq::empty()
    };
    let v: nat = if e < 0 {
        (-e) as nat
    } else {
        e as nat
    };
    let sg: Seq<u8> = if plus {
        seq![43u8]
    } else if e < 0 {
        seq![45u8]
    } else {
        Seq::empty()
    };
    lemma_decimal(v);
    let t = Parts { sign: head, whole, point, exp: Some((letter, sg, decimal(v))), rest: Seq::empty() };
    assert(all_digits(decimal(v))) by {
        assert forall|i: int| 0 <= i < decimal(v).len() implies 48 <= #[trigger] decimal(v)[i] <= 57 by {
            assert(is_digit(decimal(v)[i]));
        }
    }
    let frac: Seq<u8> = match point {
        None => Seq::empty(),
        Some(f) => seq![46u8] + f,
    };
    let ptext: Seq<u8> = if plus {
        seq![43u8]
    } else {
        Seq::empty()
    };
    assert(seq![letter] + ptext + signed_decimal(e as int) =~= seq![letter] + sg + decimal(v));
    assert(t.text() =~= head + whole + frac + (seq![letter] + ptext + signed_decimal(e as int)));
    assert(seq![43u8] != seq![45u8]) by {
        assert(seq![43u8][0] != seq![45u8][0]);
    }
    assert(Seq::<u8>::empty() != seq![45u8]) by {
        assert(seq![45u8].len() == 1);
    }
    law_fraction_in_any_token(t, d);
}

/// What a write means for the next step: an interrupted write is repeated, any other
/// negative result is the error number with a minus sign, and a count moves on by that
/// many bytes until none are left.
pub proof fn law_flush_step(len: nat, from: usize, n: i64)
    requires
        from <= len <= usize::MAX,
    ensures
        n == -4 ==> flush_next(len, from, n) == (FlushStep::Write { from }),
        n < 0 && n != -4 && n != i64::MIN ==> (flush_next(len, from, n) matches FlushStep::Fail { errno } && errno
            + n == 0),
        n == i64::MIN ==> flush_next(len, from, n) == (FlushStep::Fail { errno: i64::MIN }),
        n >= 0 && from + n >= len ==> flush_next(len, from, n) is Done,
        n >= 0 && from + n < len ==> (flush_next(len, from, n) matches FlushStep::Write { from: next } && next - n
            == from),
{
}

} // verus!
