use range_reverse::blocks::auto_block;
use range_reverse::ds::DS;
use range_reverse::rng::{rnd, splitmix64};
use range_reverse::workload::{
    batch_ops, calibrate, draw_range, length_ops, round_seed, same, template, verify_batch,
    verify_length, weights, Calibration, Q_CAP,
};

#[test]
fn known_draws() {
    let mut s = 0u64;
    assert_eq!(splitmix64(&mut s), 0xe220_a839_7b1d_cdaf);
    assert_eq!(s, 0x9e37_79b9_7f4a_7c15);
    assert_eq!(splitmix64(&mut s), 0x6e78_9e6a_a1b9_65f4);
    assert_eq!(splitmix64(&mut s), 0x06c4_5d18_8009_454f);
}

#[test]
fn draws_below_a_bound() {
    let mut s = 0u64;
    assert_eq!(rnd(&mut s, 1000), (0xe220_a839u32 % 1000));
    assert_eq!(rnd(&mut s, 1), 0);
    for k in 1..200u32 {
        assert!(rnd(&mut s, k) < k);
    }
}

#[test]
fn drawn_elements_and_weights() {
    let mut s = 0u64;
    assert_eq!(template(3, &mut s), vec![0xcdaf, 0x65f4, 0x454f]);
    let mut s = 0u64;
    assert_eq!(weights(2, &mut s), vec![0xe220_a839_7b1d_cdaf, 0x6e78_9e6a_a1b9_65f4]);
    let mut t = 1u64;
    assert!(template(500, &mut t).iter().all(|&v| v < 65536));
}

#[test]
fn drawn_ranges_are_ordered() {
    let mut s = 0u64;
    assert_eq!(draw_range(&mut s, 1_000_000), {
        let a = 0xe220_a839u32 % 1_000_000;
        let b = 0x6e78_9e6au32 % 1_000_000;
        (a.min(b), a.max(b))
    });
    for _ in 0..200 {
        let (l, r) = draw_range(&mut s, 77);
        assert!(l <= r && r < 77);
    }
}

#[test]
fn runs_by_length() {
    let mut s = 42u64;
    let a = template(300, &mut s);
    let mut want = a.clone();
    let mut x = 7u64;
    for _ in 0..20 {
        let st = rnd(&mut x, 300 - 32 + 1) as usize;
        want[st..st + 32].reverse();
    }
    for m in 0..8 {
        let mut ds = DS::new(m, &a, 1, 0);
        let mut y = 7u64;
        length_ops(&mut ds, &mut y, 300, 32, 20);
        assert_eq!(y, x);
        let mut got = Vec::new();
        ds.collect(&mut got);
        assert_eq!(got, want);
    }
}

#[test]
fn runs_by_size() {
    let mut s = 43u64;
    let a = template(300, &mut s);
    let mut want = a.clone();
    let mut x = 8u64;
    for _ in 0..20 {
        let (l, r) = draw_range(&mut x, 300);
        want[l as usize..=r as usize].reverse();
    }
    for m in 0..8 {
        let mut ds = DS::new(m, &a, 1, 0);
        let mut y = 8u64;
        batch_ops(&mut ds, &mut y, 300, 20);
        assert_eq!(y, x);
        let mut got = Vec::new();
        ds.collect(&mut got);
        assert_eq!(got, want);
    }
}

#[test]
fn all_methods_pass_the_trial_by_length() {
    for m in 0..8usize {
        let seed0 = 0x9e37_79b9_7f4a_7c15u64 ^ 64 ^ m as u64;
        let mut seed = seed0;
        let mut want = template(2048, &mut seed);
        if m > 0 {
            let mut s = seed ^ 0x1234_5678_9abc_def0;
            for _ in 0..8 {
                let st = rnd(&mut s, 2048 - 64 + 1) as usize;
                want[st..st + 64].reverse();
            }
        }
        assert_eq!(verify_length(m, 2048, 64), Some(want));
    }
}

#[test]
fn all_methods_pass_the_trial_by_size() {
    let mut seed = 5u64;
    let tmpl = template(1024, &mut seed);
    for m in 0..8usize {
        let mut want = tmpl.clone();
        if m > 0 {
            let mut s = 0xabcd_ef01_2345_6789u64 ^ m as u64 ^ 1024;
            for _ in 0..200 {
                let (l, r) = draw_range(&mut s, 1024);
                want[l as usize..=r as usize].reverse();
            }
        }
        for b in [0u32, 64, 128] {
            assert_eq!(verify_batch(m, 1024, &tmpl, b), Some(want.clone()));
        }
    }
}

#[test]
fn sums_cannot_see_a_run() {
    let mut s = 44u64;
    let a = template(500, &mut s);
    let mut ds = DS::new(6, &a, 1, 0);
    let mut x = 3u64;
    batch_ops(&mut ds, &mut x, 500, 30);
    length_ops(&mut ds, &mut x, 500, 100, 30);
    let mut got = Vec::new();
    ds.collect(&mut got);
    assert_ne!(got, a);
    let before: u64 = a.iter().map(|&v| v as u64).sum();
    let after: u64 = got.iter().map(|&v| v as u64).sum();
    assert_eq!(before, after);
}

#[test]
fn comparing_sequences() {
    assert!(same(&[], &[]));
    assert!(same(&[1, 2], &[1, 2]));
    assert!(!same(&[1, 2], &[1, 3]));
    assert!(!same(&[1, 2], &[1]));
}

fn settled(q: u64, long_enough: bool) -> Option<u64> {
    match calibrate(q, long_enough) {
        Calibration::Settled { q } => Some(q),
        Calibration::Measure { .. } => None,
    }
}

fn next(q: u64) -> Option<u64> {
    match calibrate(q, false) {
        Calibration::Settled { .. } => None,
        Calibration::Measure { q } => Some(q),
    }
}

#[test]
fn calibration_steps() {
    assert_eq!(settled(1, true), Some(1));
    assert_eq!(next(1), Some(2));
    assert_eq!(settled(4096, true), Some(4096));
    assert_eq!(next(4_000_000), Some(8_000_000));
    assert_eq!(settled(4_194_304, false), Some(Q_CAP));
    assert_eq!(settled(8_000_000, false), Some(Q_CAP));
    assert_eq!(settled(u64::MAX, true), Some(Q_CAP));
}

#[test]
fn calibration_ends() {
    let mut q = 1u64;
    let mut steps = 0;
    while let Some(n) = next(q) {
        q = n;
        steps += 1;
    }
    assert_eq!(steps, 22);
    assert_eq!(settled(q, false), Some(8_000_000));
}

#[test]
fn seeds_of_rounds() {
    assert_eq!(round_seed(0x2222, 5, 1024, 0, 3), 0x2222 ^ 5 ^ 1024 ^ (3u64 << 32));
    assert_eq!(round_seed(0x4444, 7, 65536, 128, 0), 0x4444 ^ 7 ^ 65536 ^ 128);
}

#[test]
fn block_lengths() {
    for (n, b) in [
        (0usize, 64u32),
        (1, 64),
        (1024, 64),
        (1055, 64),
        (1056, 64),
        (1057, 65),
        (10_000, 200),
        (65_536, 512),
        (262_144, 1024),
        (1 << 20, 1024),
        (usize::MAX, 1024),
    ] {
        assert_eq!(auto_block(n), b, "{}", n);
    }
    for n in 0..300_000usize {
        let want = (((n as f64).sqrt() * 2.0) as u32).clamp(64, 1024);
        assert_eq!(auto_block(n), want);
    }
}
