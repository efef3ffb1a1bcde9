use range_reverse::fast_in::{scan_decimal, FastIn};
use range_reverse::fast_out::{FastOut, FlushStep, Rounded};
use range_reverse::lanes::{
    avx2_low, avx2_non_digit_bits, avx2_ws_bits, first_clear, first_set, load16_parse, load16_parse_avx,
    load32_parse16, non_digit16, non_digit32, parse16_avx2_high, parse16_avx2_shifted, parse16_sse,
    parse16_sse_reg, ws16, ws32,
};
use range_reverse::swar::{is_8digits, load_le8, parse8_swar};

const MODES: [(bool, bool); 4] = [(false, false), (false, true), (true, false), (true, true)];

fn reader(text: &str, mode: (bool, bool)) -> FastIn {
    FastIn::new(text.as_bytes().to_vec(), mode.0, mode.1)
}

fn text(w: &FastOut) -> String {
    String::from_utf8(w.as_bytes().to_vec()).unwrap()
}

#[test]
fn reads_back_what_is_written() {
    let us = [0u64, 1, 9, 10, 99, 100, 9999, 10_000, 12_345_678, 123_456_789_012_345, u64::MAX];
    let is = [0i64, -1, 1, -42, 9_999, -10_000, i64::MIN, i64::MAX];
    let mut w = FastOut::new();
    for v in us {
        w.write_u64(v);
        w.push(b' ');
    }
    for v in is {
        w.write_i64(v);
        w.ln();
    }
    w.write_u32(u32::MAX);
    w.ln();
    w.write_i32(i32::MIN);
    w.ln();
    w.write_usize(usize::MAX);
    w.ln();
    for mode in MODES {
        let mut r = FastIn::new(w.as_bytes().to_vec(), mode.0, mode.1);
        for v in us {
            assert_eq!(r.next_u64(), v);
        }
        for v in is {
            assert_eq!(r.next_i64(), v);
        }
        assert_eq!(r.next_u32(), u32::MAX);
        assert_eq!(r.next_i32(), i32::MIN);
        assert_eq!(r.next_usize(), usize::MAX);
    }
}

#[test]
fn numbers_are_written_in_decimal() {
    for v in [0u64, 5, 10, 999, 1000, 9999, 10_000, 99_999_999, 100_000_000, 18_446_744_073_709_551_615] {
        let mut w = FastOut::new();
        w.write_u64(v);
        assert_eq!(text(&w), v.to_string());
    }
    for v in [0u32, 7, 65_536, 4_294_967_295, 1_000_000_000] {
        let mut w = FastOut::new();
        w.write_u32(v);
        assert_eq!(text(&w), v.to_string());
    }
    for v in [0i32, -1, 2_147_483_647, -2_147_483_648, -10] {
        let mut w = FastOut::new();
        w.write_i32(v);
        assert_eq!(text(&w), v.to_string());
    }
    for v in [0i64, -1, i64::MAX, i64::MIN, -1_000_000_007] {
        let mut w = FastOut::new();
        w.write_i64(v);
        assert_eq!(text(&w), v.to_string());
    }
    for v in 0..20_001usize {
        let mut w = FastOut::new();
        w.write_usize(v);
        assert_eq!(text(&w), v.to_string());
    }
}

#[test]
fn text_is_written_as_it_is() {
    let mut w = FastOut::new();
    w.write_str("h\u{e9}llo");
    w.push(b'!');
    w.write_bytes(&[1, 2, 3]);
    w.ln();
    let mut want = "h\u{e9}llo!".as_bytes().to_vec();
    want.extend_from_slice(&[1, 2, 3, 10]);
    assert_eq!(w.as_bytes(), &want[..]);
}

#[test]
fn fractions_are_written_with_their_places() {
    let mut w = FastOut::new();
    w.write_f64(Rounded::Finite { neg: false, scaled: 314 }, 2);
    w.ln();
    w.write_f64(Rounded::Finite { neg: true, scaled: 5 }, 3);
    w.ln();
    w.write_f64(Rounded::Finite { neg: false, scaled: 42 }, 0);
    w.ln();
    w.write_f64(Rounded::Finite { neg: true, scaled: 0 }, 1);
    w.ln();
    w.write_f64(Rounded::Finite { neg: false, scaled: u64::MAX }, 19);
    w.ln();
    w.write_f64(Rounded::Nan, 3);
    w.ln();
    w.write_f64(Rounded::Infinite { neg: false }, 3);
    w.ln();
    w.write_f64(Rounded::Infinite { neg: true }, 40);
    assert_eq!(text(&w), "3.14\n-0.005\n42\n-0.0\n1.8446744073709551615\nNaN\ninf\n-inf");
}

#[test]
fn fractions_read_back() {
    for (neg, scaled, prec) in [(false, 314u64, 2usize), (true, 5, 3), (false, 42, 0), (true, 1_000_000, 6)] {
        let mut w = FastOut::new();
        w.write_f64(Rounded::Finite { neg, scaled }, prec);
        let mut r = FastIn::new(w.as_bytes().to_vec(), true, true);
        let d = r.next_f64();
        assert_eq!(d.neg, neg);
        assert_eq!(d.frac_digits.len(), prec);
        assert_eq!(d.exp, None);
        let all: String = String::from_utf8(d.int_digits).unwrap() + &String::from_utf8(d.frac_digits).unwrap();
        assert_eq!(all.parse::<u64>().unwrap(), scaled);
    }
}

#[test]
fn tokens_of_fractions() {
    let d = scan_decimal(b"-12.50e-3x");
    assert!(d.neg);
    assert_eq!(d.int_digits, b"12");
    assert_eq!(d.frac_digits, b"50");
    assert_eq!(d.exp, Some(-3));
    let d = scan_decimal(b"7E+12");
    assert!(!d.neg);
    assert_eq!(d.int_digits, b"7");
    assert!(d.frac_digits.is_empty());
    assert_eq!(d.exp, Some(12));
    let d = scan_decimal(b".5");
    assert!(d.int_digits.is_empty());
    assert_eq!(d.frac_digits, b"5");
    assert_eq!(d.exp, None);
    let d = scan_decimal(b"");
    assert!(!d.neg && d.int_digits.is_empty() && d.frac_digits.is_empty());
    assert_eq!(scan_decimal(b"1e").exp, Some(0));
    assert_eq!(scan_decimal(b"1e4294967297").exp, Some(1));
}

#[test]
fn separators_and_signs() {
    for mode in MODES {
        let mut r = reader("  \n\t 12\r\n-7 --3 + 5abc6\u{0}9", mode);
        assert_eq!(r.next_i64(), 12);
        assert_eq!(r.next_i64(), -7);
        assert_eq!(r.next_i64(), 0);
        assert_eq!(r.next_i64(), -3);
        assert_eq!(r.next_i64(), 0);
        assert_eq!(r.next_bytes(), b"+");
        assert_eq!(r.next_u64(), 5);
        assert_eq!(r.next_bytes(), b"abc6");
        assert_eq!(r.next_u64(), 9);
        assert_eq!(r.next_u64(), 0);
        assert_eq!(r.next_bytes(), b"");
    }
}

#[test]
fn long_gaps_and_long_numbers() {
    for gap in 0..80usize {
        for digits in 1..=19usize {
            let number: String = "1234567890123456789"[..digits].to_string();
            let line = " ".repeat(gap) + &number + "\n42";
            for mode in MODES {
                let mut r = reader(&line, mode);
                assert_eq!(r.next_u64(), number.parse::<u64>().unwrap());
                assert_eq!(r.next_u64(), 42);
            }
        }
    }
}

#[test]
fn numbers_at_the_end_of_the_text() {
    for n in 1..40usize {
        let line = "7".repeat(n);
        let mut want = 0u64;
        for _ in 0..n {
            want = want.wrapping_mul(10).wrapping_add(7);
        }
        for mode in MODES {
            let mut r = reader(&line, mode);
            assert_eq!(r.next_u64(), want);
            assert_eq!(r.next_u64(), 0);
        }
    }
}

#[test]
fn numbers_are_reduced_to_their_type() {
    for mode in MODES {
        let mut r = reader("18446744073709551617 4294967297 -1 2147483648 9223372036854775808 -1 -5", mode);
        assert_eq!(r.next_u64(), 1);
        assert_eq!(r.next_u32(), 1);
        assert_eq!(r.next_u64(), u64::MAX);
        assert_eq!(r.next_i32(), i32::MIN);
        assert_eq!(r.next_i64(), i64::MIN);
        assert_eq!(r.next_usize(), usize::MAX);
        assert_eq!(r.next_isize(), -5);
    }
}

#[test]
fn runs_of_digits() {
    let line = format!("{}x", "1234567890".repeat(7));
    for mode in MODES {
        let r = reader(&line, mode);
        for p in 0..=70usize {
            assert_eq!(r.digit_len(p), 70 - p);
        }
        for len in 0..20usize {
            let want: u64 = line[..len].parse().unwrap_or(0);
            assert_eq!(r.parse_digits(0, len), want);
        }
        assert_eq!(r.parse_uint_at(60), (10, 1_234_567_890));
        assert_eq!(r.parse_uint_fast(53), (17, 45_678_901_234_567_890));
        assert_eq!(r.parse_uint_at(70), (0, 0));
    }
}

#[test]
fn eight_digits_at_once() {
    let v = load_le8(b"x12345678", 1);
    assert!(is_8digits(v));
    assert_eq!(parse8_swar(v), 12_345_678);
    assert_eq!(parse8_swar(load_le8(b"00000000", 0)), 0);
    assert_eq!(parse8_swar(load_le8(b"99999999", 0)), 99_999_999);
    for i in 0..8usize {
        for c in 0..=255u8 {
            let mut b = *b"31415926";
            b[i] = c;
            assert_eq!(is_8digits(load_le8(&b, 0)), c.is_ascii_digit());
        }
    }
}

#[test]
fn lanes_of_bytes() {
    let b = b"12 \n5678901234567890abcdefgh 0,9x";
    assert_eq!(ws16(b, 0), 0b1100);
    assert_eq!(ws32(b, 0), 0b1100 | (1 << 28));
    assert_eq!(non_digit16(b, 0), 0b1100);
    assert_eq!(non_digit32(b, 0), 0b1100 | (0x1ff << 20) | (1 << 30));
    let mut v = [0u8; 32];
    v.copy_from_slice(&b[..32]);
    assert_eq!(avx2_ws_bits(&v), ws32(b, 0));
    assert_eq!(avx2_non_digit_bits(&v), non_digit32(b, 0));
    assert_eq!(&avx2_low(&v)[..], &b[..16]);
    assert_eq!(first_set(0), 32);
    assert_eq!(first_set(0b1000), 3);
    assert_eq!(first_clear(u32::MAX), 32);
    assert_eq!(first_clear(0b0111), 3);
}

#[test]
fn sixteen_digits_at_once() {
    let d = *b"1234567890123456";
    for len in 0..=16usize {
        let want: u64 = std::str::from_utf8(&d[..len]).unwrap().parse().unwrap_or(0);
        assert_eq!(parse16_sse_reg(&d, len), want);
        assert_eq!(parse16_sse(&d, len), want);
        assert_eq!(parse16_avx2_high(&d, len), want);
    }
    assert_eq!(parse16_sse(&d, 17), 0);
    let b = b"   42 0000000000000000000000000000";
    let mut v = [0u8; 32];
    v.copy_from_slice(&b[..32]);
    assert_eq!(parse16_avx2_shifted(&v, 3, 2), 42);
    assert_eq!(parse16_avx2_shifted(&v, 16, 2), 0);
    let b = b"12345678901234567890123456789012xx";
    assert_eq!(load16_parse(b, 0), (16, 1_234_567_890_123_456));
    assert_eq!(load16_parse_avx(b, 1), (16, 2_345_678_901_234_567));
    assert_eq!(load32_parse16(b, 0), (32, 0));
    let b = b"12345xxxxxxxxxxxxxxxxxxxxxxxxxxxxx";
    assert_eq!(load16_parse(b, 0), (5, 12_345));
    assert_eq!(load16_parse_avx(b, 1), (4, 2_345));
    assert_eq!(load32_parse16(b, 2), (3, 345));
}

#[test]
fn flushing_in_pieces() {
    let mut w = FastOut::new();
    assert_eq!(w.flush_start(), FlushStep::Done);
    w.write_str("hello world");
    let mut sent: Vec<u8> = Vec::new();
    let mut step = w.flush_start();
    let mut answers = vec![5i64, -4, 1, -4, -4, 5].into_iter();
    while let FlushStep::Write { from } = step {
        let n = answers.next().unwrap();
        if n > 0 {
            sent.extend_from_slice(&w.as_bytes()[from..from + n as usize]);
        }
        step = w.flush(from, n);
    }
    assert_eq!(step, FlushStep::Done);
    assert_eq!(sent, b"hello world");
    assert!(w.as_bytes().is_empty());
}

#[test]
fn flushing_fails() {
    let mut w = FastOut::new();
    w.write_str("abc");
    assert_eq!(w.flush(0, 2), FlushStep::Write { from: 2 });
    assert_eq!(w.flush(2, -32), FlushStep::Fail { errno: 32 });
    assert_eq!(w.as_bytes(), b"abc");
    assert_eq!(w.flush(2, 0), FlushStep::Write { from: 2 });
    assert_eq!(w.flush(2, 1), FlushStep::Done);
}

#[test]
fn a_writer_loses_nothing() {
    let mut w = FastOut::new();
    let mut sent: Vec<u8> = Vec::new();
    let mut added: Vec<u8> = Vec::new();
    let answers: Vec<Vec<i64>> =
        vec![vec![3, -4, 0, 2, 6], vec![], vec![-4, 2], vec![1, 1, -5]];
    let lines = ["twelve", "", "4", "end."];
    for (line, returned) in lines.iter().zip(answers.iter()) {
        if !line.is_empty() {
            w.write_str(line);
            w.ln();
            added.extend_from_slice(line.as_bytes());
            added.push(b'\n');
        }
        let mut step = w.flush_start();
        for &n in returned {
            if let FlushStep::Write { from } = step {
                let left = w.as_bytes().len() - from;
                let n = n.min(left as i64);
                if n > 0 {
                    sent.extend_from_slice(&w.as_bytes()[from..from + n as usize]);
                }
                step = w.flush(from, n);
            }
        }
        if step == FlushStep::Done {
            assert_eq!(sent, added);
            assert!(w.as_bytes().is_empty());
        }
    }
    assert_eq!(sent, b"twelve\n4\nen");
    assert!(added.starts_with(&sent));
    assert_eq!(w.as_bytes(), b"end.\n");
}
