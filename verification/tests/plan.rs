use range_reverse::plan::{BatchPhase, BatchPlan, LengthPhase, LengthPlan, SweepPlan};
use range_reverse::workload::{LEN_N, OPS, ROUNDS};

#[test]
fn lengths_in_order() {
    let mut want = Vec::new();
    let mut l = 32u32;
    while l <= 1 << 20 {
        for m in 0..8usize {
            want.push((l, m));
        }
        l <<= 1;
    }
    let mut got = Vec::new();
    let mut rounds = 0;
    let mut plan = Some(LengthPlan::first());
    while let Some(p) = plan {
        match p.phase {
            LengthPhase::Verify => rounds = 0,
            LengthPhase::Round { q, r } => {
                assert_eq!(q, 16);
                assert_eq!(r, rounds);
                rounds += 1;
            }
            LengthPhase::Report { q } => {
                assert_eq!((q, rounds), (16, 9));
                got.push((p.l, p.m));
            }
            LengthPhase::Calibrate { .. } => {}
        }
        let long_enough = p.phase == LengthPhase::Calibrate { q: 16 };
        plan = p.step(long_enough);
    }
    assert_eq!(got, want);
    assert_eq!((ROUNDS, OPS, LEN_N), (9, 5000, 1 << 20));
}

#[test]
fn lengths_that_never_take_long() {
    let mut p = LengthPlan::first();
    let mut tried = Vec::new();
    loop {
        if let LengthPhase::Calibrate { q } = p.phase {
            tried.push(q);
        }
        if let LengthPhase::Round { q, .. } = p.phase {
            assert_eq!(q, 8_000_000);
            break;
        }
        p = p.step(false).unwrap();
    }
    let want: Vec<u64> = (0..23).map(|k| 1 << k).collect();
    assert_eq!(tried, want);
}

#[test]
fn seeds_by_length() {
    let p = LengthPlan { l: 64, m: 3, phase: LengthPhase::Calibrate { q: 4 } };
    assert_eq!(p.seed(), 0x1111 ^ 3 ^ 64);
    let p = LengthPlan { l: 64, m: 3, phase: LengthPhase::Round { q: 4, r: 5 } };
    assert_eq!(p.seed(), 0x2222 ^ 3 ^ 64 ^ (5u64 << 32));
}

#[test]
fn sizes_in_order() {
    let mut verified = Vec::new();
    let mut timed = Vec::new();
    let mut reported = Vec::new();
    let mut plan = Some(BatchPlan::first());
    while let Some(p) = plan {
        match p.phase {
            BatchPhase::Verify => {
                verified.push((p.n, p.m));
                assert_eq!(reported.len(), verified.len() - 1 - p.m);
            }
            BatchPhase::Round { r } => timed.push((p.n, p.m, r)),
            BatchPhase::Report => reported.push((p.n, p.m)),
        }
        plan = p.step();
    }
    let mut want = Vec::new();
    let mut rounds = Vec::new();
    for k in 10..=20u32 {
        for m in 0..8usize {
            want.push((1 << k, m));
            for r in 0..9usize {
                rounds.push((1 << k, m, r));
            }
        }
    }
    assert_eq!(verified, want);
    assert_eq!(reported, want);
    assert_eq!(timed, rounds);
    assert_eq!(BatchPlan { n: 2048, m: 2, phase: BatchPhase::Verify }.seed(7), 0x3333 ^ 2 ^ 2048 ^ (7u64 << 32));
}

#[test]
fn sweeps_in_order() {
    let mut got = Vec::new();
    let mut rounds = 0;
    let mut plan = Some(SweepPlan::first());
    while let Some(p) = plan {
        match p.phase {
            BatchPhase::Verify => rounds = 0,
            BatchPhase::Round { .. } => rounds += 1,
            BatchPhase::Report => {
                assert_eq!(rounds, 9);
                got.push((p.n, p.block_size(), p.m));
            }
        }
        plan = p.step();
    }
    let mut want = Vec::new();
    for n in [1u32 << 16, 1 << 20] {
        for b in [64u32, 128, 256, 512, 1024, 2048, 4096, 0] {
            for m in [5usize, 6, 7] {
                want.push((n, b, m));
            }
        }
    }
    assert_eq!(got, want);
    let p = SweepPlan { n: 1 << 16, i: 1, m: 6, phase: BatchPhase::Verify };
    assert_eq!(p.seed(2), 0x4444 ^ 6 ^ 65536 ^ 128 ^ (2u64 << 32));
}
