//! Collecting text in memory before it is written out.
use vstd::prelude::*;

use crate::digits::pow10_u64;

verus! {

use crate::digits::{decimal, lemma_pow10_positive, pow10, signed_decimal};

/// The four decimal places of `v`, zeros included.
pub open spec fn four_digits(v: int) -> Seq<u8> {
    seq![
        (48 + v / 1000 % 10) as u8,
        (48 + v / 100 % 10) as u8,
        (48 + v / 10 % 10) as u8,
        (48 + v % 10) as u8,
    ]
}

/// The last `n` decimal places of `v`, zeros included.
pub open spec fn padded(v: nat, n: nat) -> Seq<u8>
    decreases n,
{
    if n == 0 {
        Seq::empty()
    } else {
        padded(v / 10, (n - 1) as nat).push((48 + v % 10) as u8)
    }
}

/// A number of a given number of decimal places: no number, an infinity, or the
/// nearest multiple of the last place as a count of that place.
pub enum Rounded {
    Nan,
    Infinite { neg: bool },
    Finite { neg: bool, scaled: u64 },
}

/// A minus sign or nothing.
pub open spec fn sign(neg: bool) -> Seq<u8> {
    if neg {
        seq![45u8]
    } else {
        Seq::empty()
    }
}

/// The text of a number with `prec` decimal places.
pub open spec fn fixed_text(v: Rounded, prec: nat) -> Seq<u8> {
    match v {
        Rounded::Nan => seq![78u8, 97u8, 78u8],
        Rounded::Infinite { neg } => sign(neg) + seq![105u8, 110u8, 102u8],
        Rounded::Finite { neg, scaled } => {
            let whole = sign(neg) + decimal((scaled as int / pow10(prec)) as nat);
            if prec > 0 {
                whole + seq![46u8] + padded((scaled as int % pow10(prec)) as nat, prec)
            } else {
                whole
            }
        },
    }
}

/// What to do next while the collected text is being written out.
#[derive(PartialEq, Eq, Structural, Clone, Copy, Debug)]
pub enum FlushStep {
    /// Write the text from this position on.
    Write { from: usize },
    /// Everything is written.
    Done,
    /// Writing failed with this error number.
    Fail { errno: i64 },
}

/// The return value of an interrupted write, which is to be repeated.
pub const INTERRUPTED: i64 = -4;

/// What follows when a write of `len` bytes of text from position `from` on has
/// returned `n`: a count of bytes, or a negated error number.
pub open spec fn flush_next(len: nat, from: usize, n: i64) -> FlushStep {
    if n == INTERRUPTED {
        FlushStep::Write { from }
    } else if n < 0 {
        FlushStep::Fail {
            errno: if n == i64::MIN {
                n
            } else {
                (-n) as i64
            },
        }
    } else if from + n >= len {
        FlushStep::Done
    } else {
        FlushStep::Write { from: (from + n) as usize }
    }
}

/// The four digits `d0` to `d3` in one word, the first in the lowest byte.
spec fn packed(d: Seq<u8>) -> int {
    d[0] + d[1] * 0x100 + d[2] * 0x1_0000 + d[3] * 0x100_0000
}

proof fn lemma_unpacked(w: int, d0: int, d1: int, d2: int, d3: int)
    requires
        0 <= d0 < 0x100 && 0 <= d1 < 0x100 && 0 <= d2 < 0x100 && 0 <= d3 < 0x100,
        w == d0 + d1 * 0x100 + d2 * 0x1_0000 + d3 * 0x100_0000,
    ensures
        w % 0x100 == d0,
        w / 0x100 % 0x100 == d1,
        w / 0x1_0000 % 0x100 == d2,
        w / 0x100_0000 == d3,
{
    assert(w / 0x100 == d1 + d2 * 0x100 + d3 * 0x1_0000);
    assert(w / 0x1_0000 == d2 + d3 * 0x100);
}

/// The table of the four decimal places of every number below ten thousand, each
/// row in one word with the first place in the lowest byte.
fn build_out_pre() -> (a: Vec<u32>)
    ensures
        a@.len() == 10_000,
        forall|v: int| 0 <= v < 10_000 ==> (#[trigger] a@[v]) == packed(four_digits(v)),
{
    let mut a: Vec<u32> = Vec::new();
    let mut i: u32 = 0;
    while i < 10_000
        invariant
            i <= 10_000,
            a@.len() == i,
            forall|v: int| 0 <= v < i ==> (#[trigger] a@[v]) == packed(four_digits(v)),
        decreases 10_000 - i,
    {
        let (d1, d2, d3): (u32, u32, u32) = (48 + i / 100 % 10, 48 + i / 10 % 10, 48 + i % 10);
        assert(d1 << 8 == d1 * 0x100 && d2 << 16 == d2 * 0x1_0000 && d3 << 24 == d3 * 0x100_0000)
            by (bit_vector)
            requires
                d1 <= 57 && d2 <= 57 && d3 <= 57,
        ;
        a.push((48 + i / 1000 % 10) + (d1 << 8) + (d2 << 16) + (d3 << 24));
        i = i + 1;
    }
    a
}

/// The digit table that output goes by.
struct DigitTable {
    rows: Vec<u32>,
}

impl DigitTable {
    #[verifier::type_invariant]
    spec fn inv(&self) -> bool {
        &&& self.rows@.len() == 10_000
        &&& forall|v: int| 0 <= v < 10_000 ==> (#[trigger] self.rows@[v]) == packed(four_digits(v))
    }

    /// The full table: a row for every number below ten thousand.
    fn new() -> (t: DigitTable)
        ensures
            t.rows@.len() == 10_000,
            forall|v: int| 0 <= v < 10_000 ==> (#[trigger] t.rows@[v]) == packed(four_digits(v)),
    {
        DigitTable { rows: build_out_pre() }
    }

    /// The four decimal places of `v`.
    fn row(&self, v: usize) -> (g: [u8; 4])
        requires
            v < 10_000,
        ensures
            g@ == four_digits(v as int),
    {
        proof {
            use_type_invariant(self);
        }
        let w: u32 = self.rows[v];
        let g: [u8; 4] = [
            (w % 0x100) as u8,
            (w / 0x100 % 0x100) as u8,
            (w / 0x1_0000 % 0x100) as u8,
            (w / 0x100_0000) as u8,
        ];
        proof {
            let d = four_digits(v as int);
            lemma_unpacked(w as int, d[0] as int, d[1] as int, d[2] as int, d[3] as int);
            assert(g@ =~= d);
        }
        g
    }
}

proof fn lemma_split4(v: nat)
    requires
        v >= 10_000,
    ensures
        decimal(v) == decimal(v / 10_000) + four_digits((v % 10_000) as int),
{
    reveal_with_fuel(decimal, 5);
    let (a, b, c, d) = (v / 10, v / 100, v / 1000, v / 10_000);
    assert(a / 10 == b && b / 10 == c && c / 10 == d);
    let w = (v % 10_000) as int;
    assert(w / 1000 % 10 == c % 10 && w / 100 % 10 == b % 10 && w / 10 % 10 == a % 10 && w % 10 == v
        % 10);
    assert(decimal(v) =~= decimal(d) + four_digits(w));
}

proof fn lemma_short(v: nat)
    requires
        v < 10_000,
    ensures
        v >= 1000 ==> decimal(v) == four_digits(v as int),
        100 <= v < 1000 ==> decimal(v) == four_digits(v as int).skip(1),
        10 <= v < 100 ==> decimal(v) == four_digits(v as int).skip(2),
        v < 10 ==> decimal(v) == four_digits(v as int).skip(3),
{
    reveal_with_fuel(decimal, 5);
    let (a, b, c) = (v / 10, v / 100, v / 1000);
    assert(a / 10 == b && b / 10 == c);
    if v >= 1000 {
        assert(decimal(v) =~= four_digits(v as int));
    } else if v >= 100 {
        assert(decimal(v) =~= four_digits(v as int).skip(1));
    } else if v >= 10 {
        assert(decimal(v) =~= four_digits(v as int).skip(2));
    } else {
        assert(decimal(v) =~= four_digits(v as int).skip(3));
    }
}

/// `core::fmt::Arguments`, the arguments of a formatting macro. Nothing is claimed of
/// what is inside.
#[verifier::external_type_specification]
#[verifier::external_body]
pub struct ExArguments<'a>(core::fmt::Arguments<'a>);

/// The text that `core::fmt::Write::write_fmt` appends to an empty `String` for
/// `args`. Nothing is claimed of it: it is what the formatting code of the
/// arguments produces.
#[verifier::external_body]
fn formatted(args: core::fmt::Arguments<'_>) -> (text: String) {
    let mut text = String::new();
    let _ = core::fmt::Write::write_fmt(&mut text, args);
    text
}

/// `text` is what formatting `args` may give.
pub closed spec fn is_text_of(args: core::fmt::Arguments<'_>, text: Seq<char>) -> bool {
    exists|t: String| #[trigger] call_ensures(formatted, (args,), t) && t@ == text
}

/// A text of formatting arguments is one that formatting them gives, and every such text
/// is one.
proof fn law_text_of_arguments(args: core::fmt::Arguments<'_>, t: String, text: Seq<char>)
    ensures
        call_ensures(formatted, (args,), t) ==> is_text_of(args, t@),
        is_text_of(args, text) ==> exists|u: String| #[trigger] call_ensures(formatted, (args,), u) && u@ == text,
{
}

/// Text collected in memory.
pub struct FastOut {
    buf: Vec<u8>,
    pre: DigitTable,
}

impl FastOut {
    /// The text.
    pub closed spec fn view(&self) -> Seq<u8> {
        self.buf@
    }

    /// No text.
    pub fn new() -> (w: FastOut)
        ensures
            w@ == Seq::<u8>::empty(),
    {
        FastOut { buf: Vec::with_capacity(65536), pre: DigitTable::new() }
    }

    /// The text.
    pub fn as_bytes(&self) -> (t: &[u8])
        ensures
            t@ == self@,
    {
        self.buf.as_slice()
    }

    /// Appends a byte.
    pub fn push(&mut self, c: u8)
        ensures
            final(self)@ == old(self)@.push(c),
    {
        self.buf.push(c);
    }

    /// Appends bytes.
    pub fn write_bytes(&mut self, s: &[u8])
        ensures
            final(self)@ == old(self)@ + s@,
    {
        self.buf.extend_from_slice(s);
        assert(self.buf@ =~= old(self).buf@ + s@);
    }

    /// Appends a string, in UTF-8.
    pub fn write_str(&mut self, s: &str)
        ensures
            final(self)@ == old(self)@ + vstd::utf8::encode_utf8(s@),
    {
        self.write_bytes(s.as_bytes());
    }

    /// Appends the decimal text of `v`.
    pub fn write_u64(&mut self, v: u64)
        ensures
            final(self)@ == old(self)@ + decimal(v as nat),
    {
        if v == 0 {
            self.buf.push(48);
            assert(self.buf@ =~= old(self).buf@ + decimal(0));
            return;
        }
        let ghost all = decimal(v as nat);
        let mut tmp: [u8; 20] = [0;20];
        let mut len: usize = 20;
        let mut v: u64 = v;
        assert(tmp@.skip(20) =~= Seq::empty());
        assert(decimal(v as nat) + Seq::empty() =~= all);
        while v >= 10_000
            invariant
                v > 0,
                len == 20 || len == 16 || len == 12 || len == 8 || len == 4,
                len == 16 ==> v <= 1_844_674_407_370_955,
                len == 12 ==> v <= 184_467_440_737,
                len == 8 ==> v <= 18_446_744,
                len == 4 ==> v <= 1_844,
                decimal(v as nat) + tmp@.skip(len as int) == all,
                self.buf@ == old(self).buf@,
            decreases v,
        {
            let g: [u8; 4] = self.pre.row((v % 10_000) as usize);
            let ghost before = tmp@;
            len = len - 4;
            tmp[len] = g[0];
            tmp[len + 1] = g[1];
            tmp[len + 2] = g[2];
            tmp[len + 3] = g[3];
            proof {
                lemma_split4(v as nat);
                assert(tmp@.skip(len as int) =~= g@ + before.skip(len + 4));
                assert(decimal((v / 10_000) as nat) + (g@ + before.skip(len + 4)) =~= decimal(v as nat)
                    + before.skip(len + 4));
            }
            v = v / 10_000;
        }
        let g: [u8; 4] = self.pre.row(v as usize);
        let ghost before = tmp@;
        let ghost old_len = len as int;
        proof {
            lemma_short(v as nat);
        }
        if v >= 1000 {
            len = len - 4;
            tmp[len] = g[0];
            tmp[len + 1] = g[1];
            tmp[len + 2] = g[2];
            tmp[len + 3] = g[3];
        } else if v >= 100 {
            len = len - 3;
            tmp[len] = g[1];
            tmp[len + 1] = g[2];
            tmp[len + 2] = g[3];
        } else if v >= 10 {
            len = len - 2;
            tmp[len] = g[2];
            tmp[len + 1] = g[3];
        } else {
            len = len - 1;
            tmp[len] = g[3];
        }
        assert(tmp@.skip(len as int) =~= decimal(v as nat) + before.skip(old_len));
        self.write_bytes(vstd::slice::slice_subrange(&tmp, len, 20));
        assert(tmp@.skip(len as int) =~= tmp@.subrange(len as int, 20));
    }

    /// Appends the decimal text of `v`.
    pub fn write_u32(&mut self, v: u32)
        ensures
            final(self)@ == old(self)@ + decimal(v as nat),
    {
        if v == 0 {
            self.buf.push(48);
            assert(self.buf@ =~= old(self).buf@ + decimal(0));
            return;
        }
        let ghost all = decimal(v as nat);
        let mut tmp: [u8; 10] = [0;10];
        let mut len: usize = 10;
        let mut v: u32 = v;
        assert(tmp@.skip(10) =~= Seq::empty());
        assert(decimal(v as nat) + Seq::empty() =~= all);
        while v >= 10_000
            invariant
                v > 0,
                len == 10 || len == 6 || len == 2,
                len == 6 ==> v <= 429_496,
                len == 2 ==> v <= 42,
                decimal(v as nat) + tmp@.skip(len as int) == all,
                self.buf@ == old(self).buf@,
            decreases v,
        {
            let g: [u8; 4] = self.pre.row((v % 10_000) as usize);
            let ghost before = tmp@;
            len = len - 4;
            tmp[len] = g[0];
            tmp[len + 1] = g[1];
            tmp[len + 2] = g[2];
            tmp[len + 3] = g[3];
            proof {
                lemma_split4(v as nat);
                assert(tmp@.skip(len as int) =~= g@ + before.skip(len + 4));
                assert(decimal((v / 10_000) as nat) + (g@ + before.skip(len + 4)) =~= decimal(v as nat)
                    + before.skip(len + 4));
            }
            v = v / 10_000;
        }
        let g: [u8; 4] = self.pre.row(v as usize);
        let ghost before = tmp@;
        let ghost old_len = len as int;
        proof {
            lemma_short(v as nat);
        }
        if v >= 1000 {
            len = len - 4;
            tmp[len] = g[0];
            tmp[len + 1] = g[1];
            tmp[len + 2] = g[2];
            tmp[len + 3] = g[3];
        } else if v >= 100 {
            len = len - 3;
            tmp[len] = g[1];
            tmp[len + 1] = g[2];
            tmp[len + 2] = g[3];
        } else if v >= 10 {
            len = len - 2;
            tmp[len] = g[2];
            tmp[len + 1] = g[3];
        } else {
            len = len - 1;
            tmp[len] = g[3];
        }
        assert(tmp@.skip(len as int) =~= decimal(v as nat) + before.skip(old_len));
        self.write_bytes(vstd::slice::slice_subrange(&tmp, len, 10));
        assert(tmp@.skip(len as int) =~= tmp@.subrange(len as int, 10));
    }

    /// Appends the decimal text of `v`.
    pub fn write_i32(&mut self, v: i32)
        ensures
            final(self)@ == old(self)@ + signed_decimal(v as int),
    {
        if v < 0 {
            self.buf.push(45);
            let ghost mid = self.buf@;
            let abs: u32 = (-(v as i64)) as u32;
            self.write_u32(abs);
            assert(self.buf@ =~= old(self).buf@ + signed_decimal(v as int));
        } else {
            self.write_u32(v as u32);
        }
    }

    /// Appends the decimal text of `v`.
    pub fn write_i64(&mut self, v: i64)
        ensures
            final(self)@ == old(self)@ + signed_decimal(v as int),
    {
        if v < 0 {
            self.buf.push(45);
            let abs: u64 = (-(v as i128)) as u64;
            self.write_u64(abs);
            assert(self.buf@ =~= old(self).buf@ + signed_decimal(v as int));
        } else {
            self.write_u64(v as u64);
        }
    }

    /// Appends the decimal text of `v`.
    pub fn write_usize(&mut self, v: usize)
        ensures
            final(self)@ == old(self)@ + decimal(v as nat),
    {
        self.write_u64(v as u64);
    }

    /// Appends a number with `prec` decimal places.
    pub fn write_f64(&mut self, v: Rounded, prec: usize)
        requires
            v is Finite ==> prec <= 19,
        ensures
            final(self)@ == old(self)@ + fixed_text(v, prec as nat),
    {
        match v {
            Rounded::Nan => {
                let text: [u8; 3] = [78, 97, 78];
                self.write_bytes(&text);
                assert(self@ =~= old(self)@ + fixed_text(v, prec as nat));
            },
            Rounded::Infinite { neg } => {
                if neg {
                    self.push(45);
                }
                let text: [u8; 3] = [105, 110, 102];
                self.write_bytes(&text);
                assert(self@ =~= old(self)@ + fixed_text(v, prec as nat));
            },
            Rounded::Finite { neg, scaled } => {
                if neg {
                    self.push(45);
                }
                assert(self@ =~= old(self)@ + sign(neg));
                let scale: u64 = pow10_u64(prec);
                proof {
                    lemma_pow10_positive(prec as nat);
                }
                let ip: u64 = scaled / scale;
                let fp: u64 = scaled % scale;
                self.write_u64(ip);
                if prec > 0 {
                    self.push(46);
                    self.write_padded(fp, prec);
                }
                assert(self@ =~= old(self)@ + fixed_text(v, prec as nat));
            },
        }
    }

    /// Appends the `prec` decimal places of `fp`.
    fn write_padded(&mut self, fp: u64, prec: usize)
        requires
            prec <= 19,
            fp < pow10(prec as nat),
        ensures
            final(self)@ == old(self)@ + padded(fp as nat, prec as nat),
    {
        let mut digs: [u8; 20] = [0;20];
        let mut f: u64 = fp;
        let mut n: usize = 0;
        assert(padded(fp as nat, prec as nat) =~= padded(f as nat, prec as nat) + digs@.take(
            0,
        ).reverse());
        while f > 0
            invariant
                n <= prec <= 19,
                f < pow10((prec - n) as nat),
                self@ == old(self)@,
                padded(fp as nat, prec as nat) == padded(f as nat, (prec - n) as nat) + digs@.take(
                    n as int,
                ).reverse(),
            decreases f,
        {
            let ghost before = digs@;
            let c: u8 = (f % 10) as u8 + 48;
            digs[n] = c;
            proof {
                let m = (prec - n) as nat;
                assert(m > 0);
                assert(padded(f as nat, m) == padded((f / 10) as nat, (m - 1) as nat).push(c));
                assert(digs@.take(n + 1).reverse() =~= seq![c] + before.take(n as int).reverse());
                assert(padded((f / 10) as nat, (m - 1) as nat) + digs@.take(n + 1).reverse()
                    =~= padded(f as nat, m) + before.take(n as int).reverse());
            }
            f = f / 10;
            n = n + 1;
        }
        let ghost count = n;
        let mut i: usize = n;
        while i < prec
            invariant
                count <= i <= prec,
                self@ == old(self)@ + padded(0, (i - count) as nat),
            decreases prec - i,
        {
            self.push(48);
            i = i + 1;
            assert(self@ =~= old(self)@ + padded(0, (i - count) as nat));
        }
        while n > 0
            invariant
                n <= count <= 19,
                self@ == old(self)@ + padded(0, (prec - count) as nat) + digs@.take(
                    count as int,
                ).reverse().take(count - n),
            decreases n,
        {
            n = n - 1;
            self.push(digs[n]);
            assert(digs@.take(count as int).reverse().take(count - n) =~= digs@.take(
                count as int,
            ).reverse().take(count - n - 1).push(digs@[n as int]));
        }
        assert(digs@.take(count as int).reverse().take(count as int) =~= digs@.take(
            count as int,
        ).reverse());
        assert(self@ =~= old(self)@ + padded(fp as nat, prec as nat));
    }

    /// Appends the formatted text of `args`.
    pub fn fmt(&mut self, args: core::fmt::Arguments<'_>)
        ensures
            exists|text: Seq<char>| #[trigger]
                is_text_of(args, text) && final(self)@ == old(self)@ + vstd::utf8::encode_utf8(text),
    {
        let text: String = formatted(args);
        self.write_str(text.as_str());
        proof {
            assert(call_ensures(formatted, (args,), text));
            assert(is_text_of(args, text@));
        }
    }

    /// Starts writing the text out.
    pub fn flush_start(&mut self) -> (step: FlushStep)
        ensures
            final(self)@ == old(self)@,
            step == if old(self)@.len() == 0 {
                FlushStep::Done
            } else {
                FlushStep::Write { from: 0 }
            },
    {
        if self.buf.len() == 0 {
            FlushStep::Done
        } else {
            FlushStep::Write { from: 0 }
        }
    }

    /// Goes on after a write of the text from position `from` on has returned `n`;
    /// once everything is written, the text is dropped.
    pub fn flush(&mut self, from: usize, n: i64) -> (step: FlushStep)
        requires
            from <= old(self)@.len(),
        ensures
            step == flush_next(old(self)@.len(), from, n),
            step is Done ==> final(self)@ == Seq::<u8>::empty(),
            !(step is Done) ==> final(self)@ == old(self)@,
    {
        if n == INTERRUPTED {
            return FlushStep::Write { from };
        }
        if n < 0 {
            return FlushStep::Fail { errno: 0i64.wrapping_sub(n) };
        }
        if n as u64 >= (self.buf.len() - from) as u64 {
            self.buf.clear();
            FlushStep::Done
        } else {
            FlushStep::Write { from: from + n as usize }
        }
    }

    /// Appends a line feed.
    pub fn ln(&mut self)
        ensures
            final(self)@ == old(self)@.push(10),
    {
        self.buf.push(10);
    }
}

} // verus!
