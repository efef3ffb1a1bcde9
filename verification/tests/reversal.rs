use range_reverse::brute::{reverse_avx2, reverse_range, reverse_scalar, reverse_std, toggle_mask};
use range_reverse::ds::{apply_reverse, fits, method_name, DS};
use range_reverse::splay::Splay;
use range_reverse::sqrt::Sqrt;
use range_reverse::sqrt_bitset::SqrtBitset;
use range_reverse::sqrt_bitset2::SqrtBitset2;
use range_reverse::treap::Treap;

fn numbers(n: u32) -> Vec<u32> {
    (0..n).map(|i| i.wrapping_mul(2_654_435_761) >> 7).collect()
}

fn draw(s: &mut u64, below: u32) -> u32 {
    *s = s
        .wrapping_mul(6_364_136_223_846_793_005)
        .wrapping_add(1_442_695_040_888_963_407);
    ((*s >> 33) % below as u64) as u32
}

fn agrees(m: usize, n: u32, block_size: u32, ops: u32) {
    let mut want = numbers(n);
    let mut ds = DS::new(m, &want, 7, block_size);
    let mut s = 99 + n as u64;
    let mut got = Vec::new();
    for k in 0..ops {
        let a = draw(&mut s, n);
        let b = draw(&mut s, n);
        let (l, r) = if a <= b { (a, b) } else { (b, a) };
        ds.reverse(l, r);
        want[l as usize..=r as usize].reverse();
        if k % 16 == 0 {
            ds.collect(&mut got);
            assert_eq!(got, want);
        }
    }
    ds.collect(&mut got);
    assert_eq!(got, want);
}

fn agrees_everywhere(m: usize) {
    for n in [1u32, 2, 3, 7, 64, 65, 200, 1000, 5000] {
        for block_size in [0u32, 1, 2, 3, 16] {
            agrees(m, n, block_size, 300);
        }
    }
}

#[test]
fn brute_agrees_with_slices() {
    agrees_everywhere(0);
}

#[test]
fn std_agrees_with_slices() {
    agrees_everywhere(1);
}

#[test]
fn avx2_agrees_with_slices() {
    agrees_everywhere(2);
}

#[test]
fn treap_agrees_with_slices() {
    agrees_everywhere(3);
}

#[test]
fn splay_agrees_with_slices() {
    agrees_everywhere(4);
}

#[test]
fn sqrt_agrees_with_slices() {
    agrees_everywhere(5);
}

#[test]
fn sqrt_bitset_agrees_with_slices() {
    agrees_everywhere(6);
}

#[test]
fn sqrt_bitset2_agrees_with_slices() {
    agrees_everywhere(7);
}

#[test]
fn short_ranges_at_all_places() {
    for m in 0..8 {
        let mut want = numbers(300);
        let mut ds = DS::new(m, &want, 1, 4);
        for l in 0..295u32 {
            ds.reverse(l, l + 5);
            want[l as usize..=l as usize + 5].reverse();
        }
        let mut got = Vec::new();
        ds.collect(&mut got);
        assert_eq!(got, want, "{}", method_name(m));
    }
}

#[test]
fn reversing_twice_restores() {
    for m in 0..8 {
        let a = numbers(777);
        let mut ds = DS::new(m, &a, 3, 8);
        ds.reverse(13, 700);
        let mut got = Vec::new();
        ds.collect(&mut got);
        assert_ne!(got, a);
        ds.reverse(13, 700);
        ds.collect(&mut got);
        assert_eq!(got, a);
    }
}

#[test]
fn reversing_all_reads_backwards() {
    for m in 0..8 {
        let a = numbers(513);
        let mut ds = DS::new(m, &a, 3, 0);
        ds.reverse(0, 512);
        let mut got = Vec::new();
        ds.collect(&mut got);
        let want: Vec<u32> = a.iter().rev().copied().collect();
        assert_eq!(got, want);
    }
}

#[test]
fn disjoint_reversals_trade_places() {
    for m in 0..8 {
        let a = numbers(400);
        let mut x = DS::new(m, &a, 3, 5);
        let mut y = DS::new(m, &a, 4, 5);
        x.reverse(10, 150);
        x.reverse(151, 390);
        y.reverse(151, 390);
        y.reverse(10, 150);
        let mut gx = Vec::new();
        let mut gy = Vec::new();
        x.collect(&mut gx);
        y.collect(&mut gy);
        assert_eq!(gx, gy);
    }
}

#[test]
fn reversing_rearranges_and_keeps_the_sum() {
    for m in 0..8 {
        let a = numbers(600);
        let mut ds = DS::new(m, &a, 3, 7);
        for k in 0..50u32 {
            ds.reverse(k, 599 - 3 * k);
        }
        let mut got = Vec::new();
        ds.collect(&mut got);
        let plain: u64 = a.iter().map(|&v| v as u64).sum();
        let after: u64 = got.iter().map(|&v| v as u64).sum();
        assert_eq!(plain, after);
        let mut x = a.clone();
        let mut y = got.clone();
        x.sort();
        y.sort();
        assert_eq!(x, y);
    }
}

#[test]
fn nothing_to_reverse() {
    let empty: Vec<u32> = Vec::new();
    let mut out = vec![1u32, 2];
    for m in 0..8 {
        let mut ds = DS::new(m, &empty, 5, 0);
        ds.collect(&mut out);
        assert!(out.is_empty());
        out.push(9);
    }
}

#[test]
fn one_element() {
    for m in 0..8 {
        let mut ds = DS::new(m, &[42], 5, 0);
        ds.reverse(0, 0);
        let mut out = Vec::new();
        ds.collect(&mut out);
        assert_eq!(out, vec![42]);
    }
}

#[test]
fn each_type_by_itself() {
    let a: Vec<u32> = (1..=10).collect();
    let want = vec![1u32, 2, 7, 6, 5, 4, 3, 8, 9, 10];
    let mut out = Vec::new();
    let mut t = Treap::new(&a, 11);
    t.reverse(2, 6);
    t.collect(&mut out);
    assert_eq!(out, want);
    let mut s = Splay::new(&a, 11);
    s.reverse(2, 6);
    s.collect(&mut out);
    assert_eq!(out, want);
    let mut q = Sqrt::new(&a, 11, 3);
    q.reverse(2, 6);
    q.collect(&mut out);
    assert_eq!(out, want);
    let mut b = SqrtBitset::new(&a, 11, 3);
    b.reverse(2, 6);
    b.collect(&mut out);
    assert_eq!(out, want);
    let mut c = SqrtBitset2::new(&a, 11, 3);
    c.reverse(2, 6);
    c.collect(&mut out);
    assert_eq!(out, want);
    let mut d = SqrtBitset::identity(10);
    d.reverse(2, 6);
    d.collect(&mut out);
    assert_eq!(out, want);
}

#[test]
fn ends_of_a_reversal() {
    // Blocks of three: 1 2 3 | 4 5 6 | 7 8 9 | 10.
    let a: Vec<u32> = (1..=10).collect();
    let mut b = SqrtBitset::new(&a, 11, 3);
    assert!(b.can_reverse(0, 9) && b.can_reverse(4, 4));
    assert!(b.can_reverse(4, 3) && !b.can_reverse(3, 2));
    assert!(!b.can_reverse(5, 3) && !b.can_reverse(9, 0));
    assert!(b.can_reverse(10, 2) && b.can_reverse(1, 10) && !b.can_reverse(2, 10));
    assert!(!SqrtBitset::identity(0).can_reverse(0, 0));
    let mut out = Vec::new();
    b.reverse(4, 3);
    b.collect(&mut out);
    assert_eq!(out, a);
    b.reverse(10, 2);
    b.collect(&mut out);
    assert_eq!(out, vec![3u32, 2, 1, 4, 5, 6, 7, 8, 9, 10]);
}

#[test]
fn many_superblocks() {
    let n = 40_000u32;
    let mut want = numbers(n);
    let mut ds = SqrtBitset2::new(&want, 0, 16);
    let mut s = 5u64;
    for _ in 0..400 {
        let a = draw(&mut s, n);
        let b = draw(&mut s, n);
        let (l, r) = if a <= b { (a, b) } else { (b, a) };
        ds.reverse(l, r);
        want[l as usize..=r as usize].reverse();
    }
    let mut got = Vec::new();
    ds.collect(&mut got);
    assert_eq!(got, want);
}

#[test]
fn plain_reversals_of_slices() {
    for len in 0..70usize {
        for l in 0..=len {
            let mut r = len;
            while r >= l {
                let a = numbers(len as u32);
                let mut want = a.clone();
                want[l..r].reverse();
                let mut x = a.clone();
                reverse_scalar(&mut x, l, r);
                assert_eq!(x, want);
                let mut x = a.clone();
                reverse_std(&mut x, l, r);
                assert_eq!(x, want);
                let mut x = a.clone();
                reverse_avx2(&mut x, l, r);
                assert_eq!(x, want);
                let mut x = a.clone();
                reverse_range(&mut x, l, r);
                assert_eq!(x, want);
                if r < 7 {
                    break;
                }
                r -= 7;
            }
        }
    }
}

#[test]
fn in_place_by_method() {
    for m in 0..3 {
        let mut a: Vec<u32> = (0..20).collect();
        apply_reverse(m, &mut a, 3, 17);
        let mut want: Vec<u32> = (0..20).collect();
        want[3..18].reverse();
        assert_eq!(a, want);
    }
}

#[test]
fn masks_are_toggled_in_the_range_only() {
    let mut a: Vec<u32> = (0..21).collect();
    toggle_mask(&mut a, 2, 19, 0x8000_0000);
    for i in 0..21u32 {
        let want = if (2..19).contains(&i) { i | 0x8000_0000 } else { i };
        assert_eq!(a[i as usize], want);
    }
    toggle_mask(&mut a, 2, 19, 0x8000_0000);
    assert_eq!(a, (0..21).collect::<Vec<u32>>());
}

#[test]
fn names_and_capacities() {
    let names: Vec<&str> = (0..8).map(method_name).collect();
    assert_eq!(
        names,
        vec!["brute", "std", "avx2", "treap", "splay", "sqrt", "sqrt_bitset", "sqrt_bitset2"]
    );
    assert!(fits(3, 0xffff_ffff));
    assert!(!fits(3, 0x1_0000_0000));
    assert!(fits(4, 0x7fff_fffd));
    assert!(!fits(4, 0x7fff_fffe));
    assert!(fits(6, 0x8000_0000));
    assert!(!fits(6, 0x8000_0001));
    assert!(fits(7, 0x4000_0000));
    assert!(!fits(7, 0x4000_0001));
}

#[test]
fn weighted_checksum() {
    for m in 0..8 {
        let mut ds = DS::new(m, &[1, 2, 3], 0, 0);
        let mut out = Vec::new();
        assert_eq!(ds.weighted(&[10, 100, 1000], &mut out), 3210);
        assert_eq!(out, vec![1, 2, 3]);
        ds.reverse(0, 2);
        assert_eq!(ds.weighted(&[10, 100, 1000], &mut out), 1230);
        assert_eq!(ds.weighted(&[10], &mut out), 30);
        assert_eq!(ds.weighted(&[u64::MAX, 0, 0, 5], &mut out), 3u64.wrapping_neg());
    }
}
