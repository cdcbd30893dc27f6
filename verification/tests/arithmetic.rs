use octree::single::Single;

fn same(ours: Single, theirs: f32) -> bool {
    let got = f32::from_bits(ours.to_bits());
    if theirs.is_nan() {
        got.is_nan()
    } else {
        ours.to_bits() == theirs.to_bits()
    }
}

struct Stream(u64);

impl Stream {
    fn next(&mut self) -> u32 {
        self.0 = self.0.wrapping_mul(6364136223846793005).wrapping_add(1442695040888963407);
        (self.0 >> 32) as u32
    }
}

fn edge_patterns() -> Vec<u32> {
    let mut v = vec![
        0x0000_0000, 0x8000_0000, 0x0000_0001, 0x8000_0001, 0x0000_0002, 0x0000_0003,
        0x007f_ffff, 0x0080_0000, 0x0080_0001, 0x00ff_ffff, 0x0100_0000, 0x0100_0001,
        0x0180_0000, 0x3f80_0000, 0xbf80_0000, 0x3f00_0000, 0x3e80_0000, 0x3f7f_ffff,
        0x3f80_0001, 0x4b00_0000, 0x4b7f_ffff, 0x4b80_0000, 0x4c00_0000, 0x7f7f_ffff,
        0xff7f_ffff, 0x7f00_0000, 0x7eff_ffff, 0x7f80_0000, 0xff80_0000, 0x7fc0_0000,
        0xffc0_0000, 0x7f80_0001, 0x7fff_ffff, 0x3e4c_cccd, 0x3f4c_cccd, 0x3ecc_cccd,
        0x3e99_999a, 0x3f33_3333, 0x3f66_6666, 0x3380_0000, 0x3300_0000, 0x3400_0000,
        0x3280_0000, 0x3300_0001, 0x32ff_ffff, 0xb380_0000, 0xb300_0000, 0xb300_0001,
    ];
    let more: Vec<u32> = v.iter().map(|b| b ^ 0x8000_0000).collect();
    v.extend(more);
    v
}

#[test]
fn add_matches_the_hardware_on_edge_patterns() {
    let v = edge_patterns();
    for &a in &v {
        for &b in &v {
            let ours = Single::from_bits(a).add(Single::from_bits(b));
            let theirs = f32::from_bits(a) + f32::from_bits(b);
            assert!(same(ours, theirs), "{:#010x} + {:#010x}: {:#010x} vs {:#010x}", a, b, ours.to_bits(), theirs.to_bits());
        }
    }
}

#[test]
fn sub_matches_the_hardware_on_edge_patterns() {
    let v = edge_patterns();
    for &a in &v {
        for &b in &v {
            let ours = Single::from_bits(a).sub(Single::from_bits(b));
            let theirs = f32::from_bits(a) - f32::from_bits(b);
            assert!(same(ours, theirs), "{:#010x} - {:#010x}: {:#010x} vs {:#010x}", a, b, ours.to_bits(), theirs.to_bits());
        }
    }
}

#[test]
fn lt_matches_the_hardware_on_edge_patterns() {
    let v = edge_patterns();
    for &a in &v {
        for &b in &v {
            let ours = Single::from_bits(a).lt(Single::from_bits(b));
            let theirs = f32::from_bits(a) < f32::from_bits(b);
            assert_eq!(ours, theirs, "{:#010x} < {:#010x}", a, b);
        }
    }
}

#[test]
fn half_and_quarter_match_the_hardware_on_edge_patterns() {
    for a in edge_patterns() {
        let x = Single::from_bits(a);
        assert!(same(x.half(), f32::from_bits(a) / 2.0), "{:#010x} / 2", a);
        assert!(same(x.quarter(), f32::from_bits(a) / 4.0), "{:#010x} / 4", a);
    }
}

#[test]
fn half_and_quarter_match_the_hardware_on_every_small_pattern() {
    for a in 0u32..0x0200_0000 {
        let x = Single::from_bits(a);
        assert!(same(x.half(), f32::from_bits(a) / 2.0), "{:#010x} / 2", a);
        assert!(same(x.quarter(), f32::from_bits(a) / 4.0), "{:#010x} / 4", a);
    }
}

#[test]
fn add_and_sub_match_the_hardware_on_scattered_patterns() {
    let mut s = Stream(0x2545_f491_4f6c_dd1d);
    for _ in 0..400_000 {
        let a = s.next();
        let b = s.next();
        let x = Single::from_bits(a);
        let y = Single::from_bits(b);
        assert!(same(x.add(y), f32::from_bits(a) + f32::from_bits(b)), "{:#010x} + {:#010x}", a, b);
        assert!(same(x.sub(y), f32::from_bits(a) - f32::from_bits(b)), "{:#010x} - {:#010x}", a, b);
        assert_eq!(x.lt(y), f32::from_bits(a) < f32::from_bits(b), "{:#010x} < {:#010x}", a, b);
    }
}

#[test]
fn add_and_sub_match_the_hardware_on_near_exponents() {
    let mut s = Stream(0x9e37_79b9_7f4a_7c15);
    for _ in 0..400_000 {
        let a = s.next();
        let shift = s.next() % 60;
        let frac = s.next() & 0x007f_ffff;
        let sign = s.next() & 0x8000_0000;
        let ea = (a >> 23) & 0xff;
        let eb = (ea + 30).saturating_sub(shift).min(255);
        let b = sign | (eb << 23) | frac;
        let x = Single::from_bits(a);
        let y = Single::from_bits(b);
        assert!(same(x.add(y), f32::from_bits(a) + f32::from_bits(b)), "{:#010x} + {:#010x}", a, b);
        assert!(same(x.sub(y), f32::from_bits(a) - f32::from_bits(b)), "{:#010x} - {:#010x}", a, b);
        assert_eq!(x.lt(y), f32::from_bits(a) < f32::from_bits(b), "{:#010x} < {:#010x}", a, b);
    }
}

#[test]
fn neg_flips_the_sign_bit_only() {
    for a in edge_patterns() {
        assert_eq!(Single::from_bits(a).neg().to_bits(), a ^ 0x8000_0000);
    }
}

#[test]
fn kinds_of_patterns_are_told_apart() {
    for a in edge_patterns() {
        let x = Single::from_bits(a);
        assert_eq!(x.is_nan(), f32::from_bits(a).is_nan(), "{:#010x}", a);
        assert_eq!(x.is_infinite(), f32::from_bits(a).is_infinite(), "{:#010x}", a);
    }
}

#[test]
fn sums_round_to_the_nearest_with_ties_to_even() {
    let one = Single::from_bits(0x3f80_0000);
    let tiny = Single::from_bits(0x3380_0000); // 2^-24, half of the gap above one
    assert_eq!(one.add(tiny).to_bits(), 0x3f80_0000);
    let next = Single::from_bits(0x3f80_0001);
    assert_eq!(next.add(tiny).to_bits(), 0x3f80_0002);
    let more = Single::from_bits(0x3380_0001);
    assert_eq!(one.add(more).to_bits(), 0x3f80_0001);
    assert_eq!(one.sub(Single::from_bits(0x3380_0000)).to_bits(), 0x3f7f_ffff);
    assert_eq!(one.sub(Single::from_bits(0x3300_0000)).to_bits(), 0x3f80_0000);
    assert_eq!(one.sub(Single::from_bits(0x3300_0001)).to_bits(), 0x3f7f_ffff);
    assert_eq!(one.sub(Single::from_bits(0x3280_0000)).to_bits(), 0x3f80_0000);
}

#[test]
fn sums_beyond_the_range_are_infinite() {
    let big = Single::from_bits(0x7f7f_ffff);
    assert_eq!(big.add(big).to_bits(), 0x7f80_0000);
    assert_eq!(big.neg().sub(big).to_bits(), 0xff80_0000);
    assert_eq!(big.add(Single::from_bits(0x7300_0000)).to_bits(), 0x7f80_0000);
    assert_eq!(big.add(Single::from_bits(0x72ff_ffff)).to_bits(), 0x7f7f_ffff);
}

#[test]
fn opposite_infinities_have_no_sum() {
    let inf = Single::from_bits(0x7f80_0000);
    assert!(inf.add(inf.neg()).is_nan());
    assert!(inf.sub(inf).is_nan());
    assert_eq!(inf.add(inf).to_bits(), 0x7f80_0000);
    assert_eq!(inf.sub(Single::from_bits(0x3f80_0000)).to_bits(), 0x7f80_0000);
}

#[test]
fn an_exact_zero_is_negative_only_where_both_terms_are() {
    let zero = Single::from_bits(0);
    let minus = Single::from_bits(0x8000_0000);
    let one = Single::from_bits(0x3f80_0000);
    assert_eq!(zero.add(minus).to_bits(), 0);
    assert_eq!(minus.add(minus).to_bits(), 0x8000_0000);
    assert_eq!(one.sub(one).to_bits(), 0);
    assert_eq!(one.neg().add(one).to_bits(), 0);
    assert_eq!(minus.sub(zero).to_bits(), 0x8000_0000);
}

#[test]
fn halves_and_quarters_of_the_smallest_values_are_rounded() {
    assert_eq!(Single::from_bits(1).half().to_bits(), 0);
    assert_eq!(Single::from_bits(3).half().to_bits(), 2);
    assert_eq!(Single::from_bits(2).quarter().to_bits(), 0);
    assert_eq!(Single::from_bits(3).quarter().to_bits(), 1);
    assert_eq!(Single::from_bits(6).quarter().to_bits(), 2);
    assert_eq!(Single::from_bits(0x0080_0001).half().to_bits(), 0x0040_0000);
    assert_eq!(Single::from_bits(0x0080_0003).half().to_bits(), 0x0040_0002);
    assert_eq!(Single::from_bits(0x3f80_0000).half().to_bits(), 0x3f00_0000);
    assert_eq!(Single::from_bits(0x3f80_0000).quarter().to_bits(), 0x3e80_0000);
    assert_eq!(Single::from_bits(0x8000_0001).half().to_bits(), 0x8000_0000);
}
