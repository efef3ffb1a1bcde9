use range_reverse::fast_in::FastIn;
use range_reverse::fast_out::FastOut;
use range_reverse::solve::{solve, write_spaced};

fn run(text: &str) -> Option<String> {
    let mut out = FastOut::new();
    let mut inp = FastIn::new(text.as_bytes().to_vec(), true, true);
    let done = solve(&mut inp, &mut out);
    let s = String::from_utf8(out.as_bytes().to_vec()).unwrap();
    if done {
        Some(s)
    } else {
        assert!(s.is_empty());
        None
    }
}

#[test]
fn sample() {
    assert_eq!(run("5 3\n1 3\n1 3\n1 4\n"), Some("4 3 2 1 5\n".to_string()));
}

#[test]
fn no_queries() {
    assert_eq!(run("4 0"), Some("1 2 3 4\n".to_string()));
    assert_eq!(run("1 1 1 1"), Some("1\n".to_string()));
    assert_eq!(run("0 0"), Some("\n".to_string()));
    assert_eq!(run(""), Some("\n".to_string()));
}

#[test]
fn empty_ranges() {
    assert_eq!(run("5 1 4 3"), Some("1 2 3 4 5\n".to_string()));
    assert_eq!(run("5 2 1 3 3 2"), Some("3 2 1 4 5\n".to_string()));
    // Two blocks of 64 and one of 2: the ends must be in the same block.
    let line: Vec<String> = (1..=130).map(|v| v.to_string()).collect();
    assert_eq!(run("130 1 64 63"), Some(line.join(" ") + "\n"));
    assert_eq!(run("130 1 65 64"), None);
}

#[test]
fn positions_past_the_end() {
    assert_eq!(run("5 1 1 6"), Some("1 2 3 4 5\n".to_string()));
    assert_eq!(run("5 1 9 3"), Some("3 2 1 4 5\n".to_string()));
    assert_eq!(run("5 1 0 3"), Some("3 2 1 4 5\n".to_string()));
    assert_eq!(run("5 1 7 4294967295"), Some("1 2 3 4 5\n".to_string()));
    assert_eq!(run("5 1 2 6"), Some("1 2 3 4 5\n".to_string()));
    assert_eq!(run("5 1 2 0"), Some("1 2 3 4 5\n".to_string()));
    assert_eq!(run("5 2 1 5"), Some("5 4 3 2 1\n".to_string()));
}

#[test]
fn ends_out_of_order() {
    assert_eq!(run("5 1 4 2"), None);
    assert_eq!(run("5 1 3 6"), None);
    assert_eq!(run("130 1 100 3"), None);
    assert_eq!(run("0 1 1 1"), None);
    assert_eq!(run("0 1 0 0"), None);
}

#[test]
fn result_is_a_rearrangement() {
    let mut text = String::from("2000 500\n");
    let mut x = 12345u32;
    let mut want: Vec<u32> = (1..=2000).collect();
    for _ in 0..500 {
        x = x.wrapping_mul(1_664_525).wrapping_add(1_013_904_223);
        let a = x % 2000 + 1;
        x = x.wrapping_mul(1_664_525).wrapping_add(1_013_904_223);
        let b = x % 2000 + 1;
        let (l, r) = if a <= b { (a, b) } else { (b, a) };
        want[l as usize - 1..r as usize].reverse();
        text.push_str(&format!("{} {}\n", l, r));
    }
    let got = run(&text).unwrap();
    let words: Vec<String> = want.iter().map(|v| v.to_string()).collect();
    assert_eq!(got, words.join(" ") + "\n");
    let mut sorted: Vec<u32> = got.split_whitespace().map(|w| w.parse().unwrap()).collect();
    sorted.sort();
    assert_eq!(sorted, (1..=2000).collect::<Vec<u32>>());
}

#[test]
fn a_line_reads_back() {
    let vals = vec![0u32, 7, 4_294_967_295, 10, 1_000_000];
    let mut out = FastOut::new();
    write_spaced(&mut out, &vals);
    out.ln();
    assert_eq!(out.as_bytes(), b"0 7 4294967295 10 1000000\n");
    let mut inp = FastIn::new(out.as_bytes().to_vec(), false, false);
    let got: Vec<u32> = (0..5).map(|_| inp.next_u32()).collect();
    assert_eq!(got, vals);
}
