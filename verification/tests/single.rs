use udp_conditioner::single::Single;
use udp_conditioner::time::{Duration, Instant};

/// Bit patterns at the edges: zeros, subnormals, powers of two, infinities, no numbers.
fn edges() -> Vec<u32> {
    let magnitudes: Vec<u32> = vec![
        0, 1, 2, 3, 0x7f_ffff, 0x80_0000, 0x80_0001, 0xff_ffff, 0x100_0000, 0x100_0001,
        0x3300_0000, 0x3380_0000, 0x3f7f_ffff, 0x3f80_0000, 0x3f80_0001, 0x4000_0000,
        0x4b7f_ffff, 0x4b80_0000, 0x4b80_0001, 0x4e6e_6b28, 0x5f00_0000, 0x5f80_0000,
        0x7e80_0000, 0x7f00_0000, 0x7f7f_ffff, 0x7f80_0000, 0x7f80_0001, 0x7fc0_0000,
        0x7fff_ffff,
    ];
    let mut all = Vec::new();
    for m in magnitudes {
        all.push(m);
        all.push(m + 0x8000_0000);
    }
    all
}

/// The edges, and patterns spread over the whole range and over nearby exponents.
fn pairs() -> Vec<(u32, u32)> {
    let mut all = Vec::new();
    for a in edges() {
        for b in edges() {
            all.push((a, b));
        }
    }
    let mut state: u64 = 0x9e37_79b9_7f4a_7c15;
    for i in 0..200_000u32 {
        state = state.wrapping_mul(6364136223846793005).wrapping_add(1442695040888963407);
        let a = (state >> 32) as u32;
        state = state.wrapping_mul(6364136223846793005).wrapping_add(1442695040888963407);
        let b = (state >> 32) as u32;
        if i % 2 == 0 {
            all.push((a, b));
        } else {
            let exponent = ((a >> 23) & 0xff) as i64 + (b % 61) as i64 - 30;
            let exponent = exponent.clamp(0, 254) as u32;
            all.push((a, (b & 0x807f_ffff) | (exponent << 23)));
        }
    }
    all
}

fn same_bits(ours: Single, native: f32) -> bool {
    if native.is_nan() {
        ours.is_nan()
    } else {
        ours.bits == native.to_bits()
    }
}

fn s(bits: u32) -> Single {
    Single { bits }
}

fn f(bits: u32) -> f32 {
    f32::from_bits(bits)
}

fn single(x: f32) -> Single {
    Single { bits: x.to_bits() }
}

#[test]
fn sums_match_the_processor() {
    for (a, b) in pairs() {
        assert!(same_bits(s(a).plus(s(b)), f(a) + f(b)), "{a:#x} + {b:#x}");
    }
}

#[test]
fn differences_match_the_processor() {
    for (a, b) in pairs() {
        assert!(same_bits(s(a).minus(s(b)), f(a) - f(b)), "{a:#x} - {b:#x}");
    }
}

#[test]
fn products_match_the_processor() {
    for (a, b) in pairs() {
        assert!(same_bits(s(a).times(s(b)), f(a) * f(b)), "{a:#x} * {b:#x}");
    }
}

#[test]
fn quotients_match_the_processor() {
    for (a, b) in pairs() {
        if f(a).is_finite() && f(b).is_finite() && f(b) != 0.0 {
            assert!(same_bits(s(a).over(s(b)), f(a) / f(b)), "{a:#x} / {b:#x}");
        }
    }
}

#[test]
fn comparisons_match_the_processor() {
    for (a, b) in pairs() {
        assert_eq!(s(a).below(s(b)), f(a) < f(b), "{a:#x} < {b:#x}");
        assert_eq!(s(a).at_most(s(b)), f(a) <= f(b), "{a:#x} <= {b:#x}");
        assert_eq!(s(a).same(s(b)), f(a) == f(b), "{a:#x} == {b:#x}");
        let least = f(s(a).lesser(s(b)).bits);
        let expected = f(a).min(f(b));
        assert!(least == expected || (least.is_nan() && expected.is_nan()), "{a:#x} {b:#x}");
    }
}

#[test]
fn negation_and_tests_match_the_processor() {
    for (a, _) in pairs() {
        assert_eq!(s(a).is_nan(), f(a).is_nan());
        assert!(same_bits(s(a).negated(), -f(a)));
    }
}

#[test]
fn clamping_matches_the_processor() {
    let low = Single::zero();
    let high = single(1000.0);
    for (a, _) in pairs() {
        assert!(same_bits(s(a).clamped(low, high), f(a).clamp(0.0, 1000.0)), "{a:#x}");
    }
}

#[test]
fn whole_numbers_match_the_processor() {
    let mut n: u64 = 1;
    for i in 0..20_000u64 {
        n = n.wrapping_mul(6364136223846793005).wrapping_add(i);
        let m = n >> (i % 64);
        assert_eq!(Single::from_whole(m as u128).bits, (m as f32).to_bits(), "{m}");
    }
    for m in 0..5000u32 {
        assert_eq!(Single::from_whole(m as u128).bits, (m as f32).to_bits());
    }
    assert_eq!(Single::from_whole(u64::MAX as u128).bits, (u64::MAX as f32).to_bits());
    assert_eq!(Single::from_whole(0x100_0001).bits, 0x4b80_0000);
    assert_eq!(Single::from_whole(0x100_0003).bits, 0x4b80_0002);
}

#[test]
fn sums_have_the_expected_bits() {
    assert_eq!(single(0.1).plus(single(0.2)).bits, 0x3e99_999a);
    assert_eq!(single(1.0).times(single(0.1)).bits, single(0.1).bits);
    assert_eq!(single(1.0).over(single(3.0)).bits, 0x3eaa_aaab);
    assert_eq!(single(f32::MAX).plus(single(f32::MAX)).bits, 0x7f80_0000);
    assert_eq!(single(1e-45).over(single(2.0)).bits, 0);
}

#[test]
fn seconds_match_the_standard_library() {
    let mut n: u64 = 7;
    for i in 0..50_000u64 {
        n = n.wrapping_mul(6364136223846793005).wrapping_add(i);
        let secs = n >> (i % 64);
        let nanos = (n.wrapping_mul(31) % 1_000_000_000) as u32;
        let ours = Duration { nanos: secs as u128 * 1_000_000_000 + nanos as u128 };
        let native = std::time::Duration::new(secs, nanos);
        assert_eq!(ours.as_secs().bits, native.as_secs_f32().to_bits(), "{secs}.{nanos:09}");
    }
    assert_eq!(Duration { nanos: 0 }.as_secs().bits, 0);
    assert_eq!(Duration { nanos: 500_000_000 }.as_secs().bits, 0.5f32.to_bits());
    assert_eq!(Duration { nanos: 999_999_999 }.as_secs().bits, 1.0f32.to_bits());
}

#[test]
fn durations_count_nanoseconds() {
    assert_eq!(Duration::from_millis(3).nanos, 3_000_000);
    assert_eq!(Duration::from_millis(u64::MAX).nanos, u64::MAX as u128 * 1_000_000);
    assert_eq!(Duration::from_micros(7).nanos, 7_000);
    assert_eq!(Duration { nanos: 1_999 }.as_micros(), 1);
    assert_eq!(Duration::from_millis(1).plus(Duration::from_micros(1)).nanos, 1_001_000);
}

#[test]
fn instants_do_not_run_backwards() {
    let early = Instant { nanos: 10 };
    let late = early.plus(Duration { nanos: 5 });
    assert_eq!(late.nanos, 15);
    assert_eq!(late.saturating_duration_since(early).nanos, 5);
    assert_eq!(early.saturating_duration_since(late).nanos, 0);
    assert_eq!(early.saturating_duration_since(early).nanos, 0);
}
