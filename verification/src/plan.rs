//! The order of a measurement: which method is tried and timed on what, how often, and
//! from which seed. A plan says what to do now, and steps on when that is done.
use vstd::prelude::*;

use crate::ds::METHOD_COUNT;
use crate::workload::{calibrate, round_seed, Calibration, LEN_N, Q_CAP, ROUNDS};
use crate::workload::{BATCH_TRIALS, LENGTH_TRIALS, OPS};

verus! {

/// The shortest range in a measurement by length.
pub const MIN_LENGTH: u32 = 32;

/// How much is measured: nine rounds; 32 to a million, in powers of two, for the lengths,
/// a thousand to a million for the sizes; at most eight million operations by length, and
/// five thousand by size; eight reversals in a trial by length, two hundred by size; eight
/// methods.
pub proof fn law_extent()
    ensures
        ROUNDS == 9,
        METHOD_COUNT == 8,
        MIN_LENGTH == 32 && LEN_N == 32 * 32768,
        MIN_SIZE == 1024 && MAX_SIZE == 1024 * 1024,
        SWEEP_SIZE == 64 * 1024,
        Q_CAP == 8_000_000,
        OPS == 5_000,
        LENGTH_TRIALS == 8,
        BATCH_TRIALS == 200,
        SWEEP_BLOCKS == 8 && FIRST_BLOCK_METHOD == 5,
{
}

/// What to do with a method in a measurement by length.
#[derive(Clone, Copy, PartialEq, Eq, Structural, Debug)]
pub enum LengthPhase {
    /// Try it.
    Verify,
    /// Time `q` operations to find out whether they take long enough.
    Calibrate { q: u64 },
    /// Time `q` operations for round `r`.
    Round { q: u64, r: usize },
    /// Report the times of the rounds of `q` operations.
    Report { q: u64 },
}

/// A point in a measurement by length: method `m` on ranges of length `l`.
#[derive(Clone, Copy, PartialEq, Eq, Structural, Debug)]
pub struct LengthPlan {
    pub l: u32,
    pub m: usize,
    pub phase: LengthPhase,
}

impl LengthPlan {
    /// The plan keeps to the methods, lengths and rounds that there are.
    pub open spec fn valid(self) -> bool {
        &&& self.m < METHOD_COUNT
        &&& MIN_LENGTH <= self.l <= LEN_N
        &&& match self.phase {
            LengthPhase::Verify => true,
            LengthPhase::Calibrate { q } => 1 <= q <= Q_CAP,
            LengthPhase::Round { q, r } => 1 <= q <= Q_CAP && r < ROUNDS,
            LengthPhase::Report { q } => 1 <= q <= Q_CAP,
        }
    }

    /// The beginning.
    pub fn first() -> (p: LengthPlan)
        ensures
            p == (LengthPlan { l: MIN_LENGTH, m: 0, phase: LengthPhase::Verify }),
            p.valid(),
    {
        LengthPlan { l: MIN_LENGTH, m: 0, phase: LengthPhase::Verify }
    }

    /// What comes next, once the present phase is done; `long_enough` says whether
    /// the operations that were timed last took long enough.
    pub open spec fn next(self, long_enough: bool) -> Option<LengthPlan> {
        match self.phase {
            LengthPhase::Verify => Some(LengthPlan { phase: LengthPhase::Calibrate { q: 1 }, ..self }),
            LengthPhase::Calibrate { q } => Some(
                LengthPlan {
                    phase: if long_enough {
                        LengthPhase::Round { q, r: 0 }
                    } else if 2 * q > Q_CAP {
                        LengthPhase::Round { q: Q_CAP, r: 0 }
                    } else {
                        LengthPhase::Calibrate { q: (2 * q) as u64 }
                    },
                    ..self
                },
            ),
            LengthPhase::Round { q, r } => Some(
                LengthPlan {
                    phase: if r + 1 < ROUNDS {
                        LengthPhase::Round { q, r: (r + 1) as usize }
                    } else {
                        LengthPhase::Report { q }
                    },
                    ..self
                },
            ),
            LengthPhase::Report { .. } => if self.m + 1 < METHOD_COUNT {
                Some(LengthPlan { l: self.l, m: (self.m + 1) as usize, phase: LengthPhase::Verify })
            } else if 2 * self.l <= LEN_N {
                Some(LengthPlan { l: (2 * self.l) as u32, m: 0, phase: LengthPhase::Verify })
            } else {
                None
            },
        }
    }

    /// Steps on once the present phase is done; `long_enough` says whether the
    /// operations that were timed last took long enough. There is no next step when
    /// every method has been reported on every length.
    pub fn step(self, long_enough: bool) -> (p: Option<LengthPlan>)
        requires
            self.valid(),
        ensures
            p == self.next(long_enough),
            p is Some ==> p->0.valid(),
    {
        match self.phase {
            LengthPhase::Verify => Some(
                LengthPlan { l: self.l, m: self.m, phase: LengthPhase::Calibrate { q: 1 } },
            ),
            LengthPhase::Calibrate { q } => {
                let phase = match calibrate(q, long_enough) {
                    Calibration::Measure { q } => LengthPhase::Calibrate { q },
                    Calibration::Settled { q } => LengthPhase::Round { q, r: 0 },
                };
                Some(LengthPlan { l: self.l, m: self.m, phase })
            },
            LengthPhase::Round { q, r } => {
                let phase = if r + 1 < ROUNDS {
                    LengthPhase::Round { q, r: r + 1 }
                } else {
                    LengthPhase::Report { q }
                };
                Some(LengthPlan { l: self.l, m: self.m, phase })
            },
            LengthPhase::Report { .. } => if self.m + 1 < METHOD_COUNT {
                Some(LengthPlan { l: self.l, m: self.m + 1, phase: LengthPhase::Verify })
            } else if 2 * self.l <= LEN_N {
                Some(LengthPlan { l: 2 * self.l, m: 0, phase: LengthPhase::Verify })
            } else {
                None
            },
        }
    }

    /// The seed of the operations to be timed.
    pub fn seed(self) -> (s: u64)
        ensures
            s == match self.phase {
                LengthPhase::Round { r, .. } => 0x2222u64 ^ (self.m as u64) ^ (self.l as u64) ^ ((
                r as u64) << 32),
                _ => 0x1111u64 ^ (self.m as u64) ^ (self.l as u64),
            },
    {
        let (m, l): (u64, u64) = (self.m as u64, self.l as u64);
        match self.phase {
            LengthPhase::Round { r, .. } => {
                let base: u64 = 0x2222u64 ^ m ^ l;
                assert(base ^ 0u64 == base) by (bit_vector);
                round_seed(0x2222, self.m, self.l, 0, r)
            },
            _ => {
                let base: u64 = 0x1111u64 ^ m ^ l;
                assert(base ^ 0u64 ^ (0u64 << 32) == base) by (bit_vector);
                round_seed(0x1111, self.m, self.l, 0, 0)
            },
        }
    }

    /// An upper bound for the number of steps that are left.
    pub open spec fn steps_left(self) -> int {
        let pairs = (LEN_N / self.l) * METHOD_COUNT - self.m;
        let phases = match self.phase {
            LengthPhase::Verify => Q_CAP + ROUNDS + 2,
            LengthPhase::Calibrate { q } => Q_CAP - q + ROUNDS + 2,
            LengthPhase::Round { r, .. } => ROUNDS - r + 1,
            LengthPhase::Report { .. } => 1,
        };
        pairs * (Q_CAP + ROUNDS + 3) + phases
    }

    /// A measurement by length takes every method on every length, in order, each length
    /// twice the one before it: it tries a method, doubles the number of operations, up to
    /// eight million, until they take long enough, times that many nine times, and
    /// reports them.
    pub proof fn law_order(self, long_enough: bool)
        requires
            self.valid(),
        ensures
            self.next(long_enough) is None <==> self.phase is Report && self.m == 7 && self.l > 0x8_0000,
            self.next(long_enough) matches Some(n) ==> {
                &&& !(self.phase is Report) ==> n.l == self.l && n.m == self.m
                &&& self.phase is Verify ==> n.phase == (LengthPhase::Calibrate { q: 1 })
                &&& self.phase matches LengthPhase::Calibrate { q } ==> match n.phase {
                    LengthPhase::Calibrate { q: more } => !long_enough && more == q + q && more <= 8_000_000,
                    LengthPhase::Round { q: count, r } => r == 0 && if long_enough {
                        count == q
                    } else {
                        count == 8_000_000 && q + q > count
                    },
                    _ => false,
                }
                &&& self.phase matches LengthPhase::Round { q, r } ==> match n.phase {
                    LengthPhase::Round { q: count, r: next } => count == q && next == r + 1 && next <= 8,
                    LengthPhase::Report { q: count } => count == q && r == 8,
                    _ => false,
                }
                &&& self.phase is Report ==> n.phase is Verify && if self.m < 7 {
                    n.l == self.l && n.m == self.m + 1
                } else {
                    n.l == self.l + self.l && n.m == 0
                }
            },
    {
    }

    /// A measurement by length ends, whatever the clock says.
    pub proof fn law_ends(self, long_enough: bool)
        requires
            self.valid(),
            self.next(long_enough) is Some,
        ensures
            0 <= self.next(long_enough)->0.steps_left() < self.steps_left(),
    {
        let n = self.next(long_enough)->0;
        let big: int = Q_CAP + ROUNDS + 3;
        let (a, l): (int, int) = (LEN_N as int, n.l as int);
        assert(a / l >= 1) by (nonlinear_arith)
            requires
                0 < l <= a,
        ;
        if self.phase is Report {
            let p = (LEN_N / self.l) * METHOD_COUNT - self.m;
            let q = (LEN_N / n.l) * METHOD_COUNT - n.m;
            if n.l != self.l {
                let (a, l): (int, int) = (LEN_N as int, self.l as int);
                assert(a / (2 * l) < a / l) by (nonlinear_arith)
                    requires
                        0 < l,
                        2 * l <= a,
                ;
            }
            assert(q <= p - 1);
            assert(q * big <= (p - 1) * big) by (nonlinear_arith)
                requires
                    q <= p - 1,
                    big > 0,
            ;
            assert((p - 1) * big == p * big - big) by (nonlinear_arith);
        }
        let q = (LEN_N / n.l) * METHOD_COUNT - n.m;
        assert(0 <= q * big) by (nonlinear_arith)
            requires
                0 <= q,
                big > 0,
        ;
    }
}

/// The smallest and the largest number of elements in a measurement by size.
pub const MIN_SIZE: u32 = 1024;

pub const MAX_SIZE: u32 = 0x10_0000;

/// What to do with a method in a measurement by size.
#[derive(Clone, Copy, PartialEq, Eq, Structural, Debug)]
pub enum BatchPhase {
    /// Try it.
    Verify,
    /// Time it for round `r`.
    Round { r: usize },
    /// Report the times of the rounds.
    Report,
}

/// A point in a measurement by size: method `m` on `n` elements. All methods are tried
/// on a size before the first one is timed.
#[derive(Clone, Copy, PartialEq, Eq, Structural, Debug)]
pub struct BatchPlan {
    pub n: u32,
    pub m: usize,
    pub phase: BatchPhase,
}

impl BatchPlan {
    /// The plan keeps to the methods, sizes and rounds that there are.
    pub open spec fn valid(self) -> bool {
        &&& self.m < METHOD_COUNT
        &&& MIN_SIZE <= self.n <= MAX_SIZE
        &&& self.phase matches BatchPhase::Round { r } ==> r < ROUNDS
    }

    /// The beginning.
    pub fn first() -> (p: BatchPlan)
        ensures
            p == (BatchPlan { n: MIN_SIZE, m: 0, phase: BatchPhase::Verify }),
            p.valid(),
    {
        BatchPlan { n: MIN_SIZE, m: 0, phase: BatchPhase::Verify }
    }

    /// What comes next, once the present phase is done.
    pub open spec fn next(self) -> Option<BatchPlan> {
        match self.phase {
            BatchPhase::Verify => if self.m + 1 < METHOD_COUNT {
                Some(BatchPlan { m: (self.m + 1) as usize, ..self })
            } else {
                Some(BatchPlan { m: 0, phase: BatchPhase::Round { r: 0 }, ..self })
            },
            BatchPhase::Round { r } => if r + 1 < ROUNDS {
                Some(BatchPlan { phase: BatchPhase::Round { r: (r + 1) as usize }, ..self })
            } else {
                Some(BatchPlan { phase: BatchPhase::Report, ..self })
            },
            BatchPhase::Report => if self.m + 1 < METHOD_COUNT {
                Some(BatchPlan { m: (self.m + 1) as usize, phase: BatchPhase::Round { r: 0 }, ..self })
            } else if 2 * self.n <= MAX_SIZE {
                Some(BatchPlan { n: (2 * self.n) as u32, m: 0, phase: BatchPhase::Verify })
            } else {
                None
            },
        }
    }

    /// Steps on once the present phase is done. There is no next step when every
    /// method has been reported on every size.
    pub fn step(self) -> (p: Option<BatchPlan>)
        requires
            self.valid(),
        ensures
            p == self.next(),
            p is Some ==> p->0.valid(),
    {
        match self.phase {
            BatchPhase::Verify => if self.m + 1 < METHOD_COUNT {
                Some(BatchPlan { n: self.n, m: self.m + 1, phase: BatchPhase::Verify })
            } else {
                Some(BatchPlan { n: self.n, m: 0, phase: BatchPhase::Round { r: 0 } })
            },
            BatchPhase::Round { r } => {
                let phase = if r + 1 < ROUNDS {
                    BatchPhase::Round { r: r + 1 }
                } else {
                    BatchPhase::Report
                };
                Some(BatchPlan { n: self.n, m: self.m, phase })
            },
            BatchPhase::Report => if self.m + 1 < METHOD_COUNT {
                Some(BatchPlan { n: self.n, m: self.m + 1, phase: BatchPhase::Round { r: 0 } })
            } else if 2 * self.n <= MAX_SIZE {
                Some(BatchPlan { n: 2 * self.n, m: 0, phase: BatchPhase::Verify })
            } else {
                None
            },
        }
    }

    /// The seed of the operations of round `r`.
    pub fn seed(self, r: usize) -> (s: u64)
        ensures
            s == 0x3333u64 ^ (self.m as u64) ^ (self.n as u64) ^ ((r as u64) << 32),
    {
        let base: u64 = 0x3333u64 ^ (self.m as u64) ^ (self.n as u64);
        assert(base ^ 0u64 == base) by (bit_vector);
        round_seed(0x3333, self.m, self.n, 0, r)
    }

    /// An upper bound for the number of steps that are left.
    pub open spec fn steps_left(self) -> int {
        let rest = match self.phase {
            BatchPhase::Verify => 200 - self.m,
            BatchPhase::Round { r } => (METHOD_COUNT - self.m) * 20 - r,
            BatchPhase::Report => (METHOD_COUNT - self.m) * 20 - ROUNDS,
        };
        (MAX_SIZE / self.n) * 300 + rest
    }

    /// A measurement by size goes through the sizes, each twice the one before it, and on
    /// each size through 88 steps one by one: the eight trials, and then, method by
    /// method, the nine rounds and the report.
    pub proof fn law_order(self)
        requires
            self.valid(),
        ensures
            ({
                let place = |p: BatchPlan| -> int
                    {
                        match p.phase {
                            BatchPhase::Verify => p.m as int,
                            BatchPhase::Round { r } => 8 + 10 * p.m + r,
                            BatchPhase::Report => 8 + 10 * p.m + 9,
                        }
                    };
                match self.next() {
                    Some(n) => {
                        ||| n.n == self.n && place(n) == place(self) + 1 && (n.phase is Verify <==> place(n) < 8)
                        ||| n.n == self.n + self.n && place(self) == 87 && place(n) == 0 && n.phase is Verify
                    },
                    None => place(self) == 87 && self.n > 0x8_0000,
                }
            }),
    {
    }

    /// A measurement by size ends.
    pub proof fn law_ends(self)
        requires
            self.valid(),
            self.next() is Some,
        ensures
            0 <= self.next()->0.steps_left() < self.steps_left(),
    {
        let n = self.next()->0;
        let (a, l): (int, int) = (MAX_SIZE as int, self.n as int);
        if n.n != self.n {
            assert(a / (2 * l) < a / l) by (nonlinear_arith)
                requires
                    0 < l,
                    2 * l <= a,
            ;
        }
    }
}

/// The block lengths of a sweep; 0 leaves the choice to the structure.
pub open spec fn sweep_block(i: int) -> u32 {
    if i == 0 {
        64
    } else if i == 1 {
        128
    } else if i == 2 {
        256
    } else if i == 3 {
        512
    } else if i == 4 {
        1024
    } else if i == 5 {
        2048
    } else if i == 6 {
        4096
    } else {
        0
    }
}

/// The block lengths of a sweep double from 64 to 4096; the last one is left open.
pub proof fn law_sweep_blocks(i: int)
    ensures
        0 <= i < 7 ==> sweep_block(i) == 64 * vstd::arithmetic::power2::pow2(i as nat),
        i >= 7 ==> sweep_block(i) == 0,
{
    vstd::arithmetic::power2::lemma2_to64();
}

/// The number of block lengths of a sweep.
pub const SWEEP_BLOCKS: usize = 8;

/// The first of the methods with a block length.
pub const FIRST_BLOCK_METHOD: usize = 5;

/// The smaller one of the two sizes of a sweep; the other one is `MAX_SIZE`.
pub const SWEEP_SIZE: u32 = 0x1_0000;

/// A point in a sweep of block lengths: method `m` with block length number `i` on `n`
/// elements.
#[derive(Clone, Copy, PartialEq, Eq, Structural, Debug)]
pub struct SweepPlan {
    pub n: u32,
    pub i: usize,
    pub m: usize,
    pub phase: BatchPhase,
}

impl SweepPlan {
    /// The plan keeps to the methods, block lengths, sizes and rounds that there are.
    pub open spec fn valid(self) -> bool {
        &&& FIRST_BLOCK_METHOD <= self.m < METHOD_COUNT
        &&& self.i < SWEEP_BLOCKS
        &&& self.n == SWEEP_SIZE || self.n == MAX_SIZE
        &&& self.phase matches BatchPhase::Round { r } ==> r < ROUNDS
    }

    /// The beginning.
    pub fn first() -> (p: SweepPlan)
        ensures
            p == (SweepPlan { n: SWEEP_SIZE, i: 0, m: FIRST_BLOCK_METHOD, phase: BatchPhase::Verify }),
            p.valid(),
    {
        SweepPlan { n: SWEEP_SIZE, i: 0, m: FIRST_BLOCK_METHOD, phase: BatchPhase::Verify }
    }

    /// The block length.
    pub fn block_size(self) -> (b: u32)
        ensures
            b == sweep_block(self.i as int),
    {
        match self.i {
            0 => 64,
            1 => 128,
            2 => 256,
            3 => 512,
            4 => 1024,
            5 => 2048,
            6 => 4096,
            _ => 0,
        }
    }

    /// What comes next, once the present phase is done.
    pub open spec fn next(self) -> Option<SweepPlan> {
        match self.phase {
            BatchPhase::Verify => Some(SweepPlan { phase: BatchPhase::Round { r: 0 }, ..self }),
            BatchPhase::Round { r } => if r + 1 < ROUNDS {
                Some(SweepPlan { phase: BatchPhase::Round { r: (r + 1) as usize }, ..self })
            } else {
                Some(SweepPlan { phase: BatchPhase::Report, ..self })
            },
            BatchPhase::Report => if self.m + 1 < METHOD_COUNT {
                Some(SweepPlan { m: (self.m + 1) as usize, phase: BatchPhase::Verify, ..self })
            } else if self.i + 1 < SWEEP_BLOCKS {
                Some(
                    SweepPlan {
                        i: (self.i + 1) as usize,
                        m: FIRST_BLOCK_METHOD,
                        phase: BatchPhase::Verify,
                        ..self
                    },
                )
            } else if self.n == SWEEP_SIZE {
                Some(SweepPlan { n: MAX_SIZE, i: 0, m: FIRST_BLOCK_METHOD, phase: BatchPhase::Verify })
            } else {
                None
            },
        }
    }

    /// Steps on once the present phase is done. There is no next step when every
    /// method has been reported with every block length on both sizes.
    pub fn step(self) -> (p: Option<SweepPlan>)
        requires
            self.valid(),
        ensures
            p == self.next(),
            p is Some ==> p->0.valid(),
    {
        match self.phase {
            BatchPhase::Verify => Some(
                SweepPlan { n: self.n, i: self.i, m: self.m, phase: BatchPhase::Round { r: 0 } },
            ),
            BatchPhase::Round { r } => {
                let phase = if r + 1 < ROUNDS {
                    BatchPhase::Round { r: r + 1 }
                } else {
                    BatchPhase::Report
                };
                Some(SweepPlan { n: self.n, i: self.i, m: self.m, phase })
            },
            BatchPhase::Report => if self.m + 1 < METHOD_COUNT {
                Some(SweepPlan { n: self.n, i: self.i, m: self.m + 1, phase: BatchPhase::Verify })
            } else if self.i + 1 < SWEEP_BLOCKS {
                Some(
                    SweepPlan { n: self.n, i: self.i + 1, m: FIRST_BLOCK_METHOD, phase: BatchPhase::Verify },
                )
            } else if self.n == SWEEP_SIZE {
                Some(SweepPlan { n: MAX_SIZE, i: 0, m: FIRST_BLOCK_METHOD, phase: BatchPhase::Verify })
            } else {
                None
            },
        }
    }

    /// The seed of the operations of round `r`.
    pub fn seed(self, r: usize) -> (s: u64)
        ensures
            s == 0x4444u64 ^ (self.m as u64) ^ (self.n as u64) ^ (sweep_block(self.i as int) as u64) ^ ((
            r as u64) << 32),
    {
        let b: u32 = self.block_size();
        round_seed(0x4444, self.m, self.n, b, r)
    }

    /// An upper bound for the number of steps that are left.
    pub open spec fn steps_left(self) -> int {
        let size: int = if self.n == SWEEP_SIZE {
            1
        } else {
            0
        };
        let rest: int = match self.phase {
            BatchPhase::Verify => ROUNDS + 2,
            BatchPhase::Round { r } => ROUNDS + 1 - r,
            BatchPhase::Report => 1,
        };
        size * 2000 + (SWEEP_BLOCKS - self.i) * 100 + (METHOD_COUNT - self.m) * 20 + rest
    }

    /// A sweep goes through 528 steps one by one: both sizes, on each the eight block
    /// lengths, with each the three methods, and for each of these the trial, the nine
    /// rounds and the report.
    pub proof fn law_order(self)
        requires
            self.valid(),
        ensures
            ({
                let place = |p: SweepPlan| -> int
                    {
                        let size: int = if p.n == 0x1_0000 {
                            0
                        } else {
                            264
                        };
                        size + 33 * p.i + 11 * (p.m - 5) + match p.phase {
                            BatchPhase::Verify => 0,
                            BatchPhase::Round { r } => 1 + r,
                            BatchPhase::Report => 10,
                        }
                    };
                &&& 0 <= place(self) < 528
                &&& match self.next() {
                    Some(n) => n.valid() && place(n) == place(self) + 1,
                    None => place(self) == 527,
                }
            }),
    {
    }

    /// A sweep ends.
    pub proof fn law_ends(self)
        requires
            self.valid(),
            self.next() is Some,
        ensures
            0 <= self.next()->0.steps_left() < self.steps_left(),
    {
    }
}

} // verus!
