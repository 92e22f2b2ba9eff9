use udp_conditioner::bucket::Bucket;
use udp_conditioner::single::Single;
use udp_conditioner::time::{Duration, Instant};

fn single(x: f32) -> Single {
    Single { bits: x.to_bits() }
}

fn level(bucket: &Bucket) -> f32 {
    f32::from_bits(bucket.current_val.bits)
}

fn at(nanos: u128) -> Instant {
    Instant { nanos }
}

const SECOND: u128 = 1_000_000_000;

#[test]
fn starts_full() {
    let bucket = Bucket::new_full(single(100.0), single(50.0), at(3));
    assert_eq!(level(&bucket), 100.0);
    assert_eq!(bucket.max_val.bits, single(100.0).bits);
    assert_eq!(bucket.refill_per_second.bits, single(50.0).bits);
    assert_eq!(bucket.current_time.nanos, 3);
}

#[test]
fn takes_tokens_while_there_are_some() {
    let mut bucket = Bucket::new_full(single(100.0), single(100.0), at(0));
    assert!(bucket.try_reserve_at(single(60.0), at(0)));
    assert_eq!(level(&bucket), 40.0);
    assert!(!bucket.try_reserve_at(single(60.0), at(0)));
    assert_eq!(level(&bucket), 40.0);
    assert!(bucket.try_reserve_at(single(40.0), at(0)));
    assert_eq!(level(&bucket), 0.0);
    assert!(bucket.try_reserve_at(single(0.0), at(0)));
}

#[test]
fn earns_tokens_with_time() {
    let mut bucket = Bucket::new_full(single(100.0), single(100.0), at(0));
    assert!(bucket.try_reserve_at(single(100.0), at(0)));
    bucket.refill(at(SECOND / 2));
    assert_eq!(level(&bucket), 50.0);
    bucket.refill(at(SECOND / 2));
    assert_eq!(level(&bucket), 50.0);
    bucket.refill(at(10 * SECOND));
    assert_eq!(level(&bucket), 100.0);
}

#[test]
fn a_clock_that_is_behind_earns_nothing() {
    let mut bucket = Bucket::new_full(single(100.0), single(100.0), at(SECOND));
    assert!(bucket.try_reserve_at(single(90.0), at(SECOND)));
    bucket.refill(at(0));
    assert_eq!(level(&bucket), 10.0);
    assert_eq!(bucket.current_time.nanos, 0);
}

#[test]
fn a_lowered_limit_cuts_the_level() {
    let mut bucket = Bucket::new_full(single(100.0), single(100.0), at(0));
    bucket.set_limit(single(30.0));
    assert_eq!(level(&bucket), 30.0);
    assert_eq!(bucket.max_val.bits, single(30.0).bits);
    assert_eq!(bucket.refill_per_second.bits, single(30.0).bits);
    assert!(!bucket.try_reserve_at(single(31.0), at(100 * SECOND)));
    assert!(bucket.try_reserve_at(single(30.0), at(100 * SECOND)));
}

#[test]
fn a_raised_limit_grants_nothing() {
    let mut bucket = Bucket::new_full(single(100.0), single(100.0), at(0));
    assert!(bucket.try_reserve_at(single(75.0), at(0)));
    bucket.set_limit(single(1000.0));
    assert_eq!(level(&bucket), 25.0);
    assert!(!bucket.try_reserve_at(single(26.0), at(0)));
    bucket.refill(at(SECOND / 2));
    assert_eq!(level(&bucket), 525.0);
}

#[test]
fn the_same_limit_changes_nothing() {
    let mut bucket = Bucket::new_full(single(100.0), single(7.0), at(0));
    bucket.set_limit(single(100.0));
    assert_eq!(level(&bucket), 100.0);
    assert_eq!(bucket.refill_per_second.bits, single(7.0).bits);
}

#[test]
fn a_limit_is_a_number_and_not_negative() {
    assert!(Bucket::is_limit(single(0.0)));
    assert!(Bucket::is_limit(single(-0.0)));
    assert!(Bucket::is_limit(single(1.0)));
    assert!(Bucket::is_limit(single(f32::INFINITY)));
    assert!(!Bucket::is_limit(single(-1.0)));
    assert!(!Bucket::is_limit(single(f32::NEG_INFINITY)));
    assert!(!Bucket::is_limit(single(f32::NAN)));
}

#[test]
fn a_limit_of_zero_lets_only_empty_packets_through() {
    let mut bucket = Bucket::new_full(single(0.0), single(0.0), at(0));
    assert!(!bucket.try_reserve_at(single(1.0), at(SECOND)));
    assert!(bucket.try_reserve_at(single(0.0), at(2 * SECOND)));
}

#[test]
fn an_infinite_limit_is_spoilt_where_no_time_has_passed() {
    let infinite = single(f32::INFINITY);
    let mut bucket = Bucket::new_full(infinite, infinite, at(0));
    assert!(bucket.try_reserve_at(single(4096.0), at(SECOND)));
    assert!(!bucket.try_reserve_at(single(1.0), at(SECOND)));
    assert!(bucket.current_val.is_nan());
    assert!(!bucket.try_reserve_at(single(1.0), at(2 * SECOND)));
    bucket.set_limit(single(10.0));
    assert_eq!(level(&bucket), 10.0);
}

#[test]
fn small_packets_do_not_count_against_a_large_level() {
    let limit = single(1073741824.0);
    let mut bucket = Bucket::new_full(limit, limit, at(0));
    assert!(bucket.try_reserve_at(single(1.0), at(0)));
    assert_eq!(level(&bucket), 1073741824.0);
    assert!(bucket.try_reserve_at(single(100.0), at(0)));
    assert_eq!(level(&bucket), 1073741696.0);
}

#[test]
fn a_burst_is_bounded_by_the_level() {
    let limit = single(10_000.5);
    let mut bucket = Bucket::new_full(limit, limit, at(5));
    let mut through: u64 = 0;
    for len in 1..2000u64 {
        if bucket.try_reserve_at(single(len as f32), at(5)) {
            through += len;
        }
    }
    assert!(through <= 10_000);
    assert_eq!(level(&bucket), 10_000.5 - through as f32);
}

#[test]
fn bandwidth_is_limited_over_time() {
    for limit in [1_000.0f32, 1073741824.0] {
        let mut bucket = Bucket::new_full(single(limit), single(limit), at(0));
        let mut through: f64 = 0.0;
        let requests = 10_000u32;
        for i in 0..requests {
            let now = i as u128 * 1_000_000;
            if bucket.try_reserve_at(single(4096.0f32.min(limit / 2.0)), at(now)) {
                through += 4096.0f64.min(limit as f64 / 2.0);
            }
        }
        let grain = (limit / 4194304.0) as f64;
        assert!(through <= limit as f64 * 11.0 + requests as f64 * grain);
    }
}

#[test]
fn bandwidth_is_a_full_bucket_and_bytes_per_second() {
    let limit = single(1000.0);
    let mut bucket = Bucket::new_full(limit, limit, at(0));
    let mut through: u32 = 0;
    for i in 0..=40u128 {
        if bucket.try_reserve_at(single(500.0), at(7 * SECOND + i * SECOND / 4)) {
            through += 500;
        }
    }
    assert_eq!(through, 11_000);
}

#[test]
fn bandwidth_keeps_to_bytes_per_second() {
    let mut state: u64 = 7;
    for limit in [0.75f32, 1_000.0, 123_456.78, 16_777_216.0, 1_073_741_824.0] {
        let mut bucket = Bucket::new_full(single(limit), single(limit), at(0));
        let mut through: f64 = 0.0;
        let start: u128 = 1_234_567;
        let mut now = start;
        let requests = 5_000u32;
        for i in 0..requests {
            state = state.wrapping_mul(6364136223846793005).wrapping_add(1442695040888963407);
            if i > 0 {
                now += ((state >> 20) % 3_000_000) as u128;
            }
            let len = ((state >> 33) % 4097) as f32;
            if bucket.try_reserve_at(single(len), at(now)) {
                through += len as f64;
            }
        }
        let seconds = (now - start) as f64 / SECOND as f64;
        let grain = (f32::from_bits(limit.to_bits() + 1) - limit) as f64;
        let earned = limit as f64 * seconds;
        assert!(
            through
                <= limit as f64 + earned * (1.0 + 1.0 / 2_097_152.0) + requests as f64 * grain
        );
    }
}

#[test]
fn a_refill_on_the_way_changes_next_to_nothing() {
    let mut state: u64 = 99;
    for limit in [1.0f32, 1000.0, 123456.78, 1073741824.0] {
        let grain = (f32::from_bits(limit.to_bits() + 1) - limit) as f64;
        for _ in 0..2_000 {
            state = state.wrapping_mul(6364136223846793005).wrapping_add(1442695040888963407);
            let first = ((state >> 20) % 700_000_000) as u128;
            let second = first + ((state >> 40) % 700_000_000) as u128;
            let mut twice = Bucket::new_full(single(limit), single(limit), at(0));
            assert!(twice.try_reserve_at(single(limit), at(0)));
            let mut once = twice;
            twice.refill(at(first));
            twice.refill(at(second));
            once.refill(at(second));
            let earned = limit as f64 * second as f64 / SECOND as f64;
            let apart = level(&twice) as f64 - level(&once) as f64;
            assert!(apart.abs() <= earned * 2.0 / 2_097_152.0 + 1.5 * grain);
        }
    }
    let mut bucket = Bucket::new_full(single(100.0), single(100.0), at(0));
    assert!(bucket.try_reserve_at(single(100.0), at(0)));
    bucket.refill(at(SECOND / 4));
    bucket.refill(at(SECOND / 2));
    assert_eq!(level(&bucket), 50.0);
}

#[test]
fn tokens_come_with_time() {
    for limit in [1000.0f32, 123456.78, 1073741824.0] {
        let mut bucket = Bucket::new_full(single(limit), single(limit), at(0));
        assert!(bucket.try_reserve_at(single(limit), at(0)));
        assert!(!bucket.try_reserve_at(single(limit / 4.0), at(SECOND / 4 - SECOND / 1000)));
        assert!(bucket.try_reserve_at(single(limit / 4.0), at(SECOND / 4 + SECOND / 1000)));
    }
}

#[test]
fn seconds_are_close() {
    assert_eq!(f32::from_bits(Duration { nanos: 0 }.as_secs().bits), 0.0);
    assert_eq!(f32::from_bits(Duration { nanos: 1_500_000_000 }.as_secs().bits), 1.5);
    let mut nanos: u128 = 1;
    while nanos < 1_000_000_000_000_000_000 {
        let seconds = f32::from_bits(Duration { nanos }.as_secs().bits) as f64;
        let exact = nanos as f64 / SECOND as f64;
        assert!((seconds - exact).abs() <= exact / 4_194_304.0);
        nanos = nanos * 7 / 4 + 1;
    }
}

/// The same bucket, computed by the processor.
struct Native {
    current_val: f32,
    current_time: u128,
    refill_per_second: f32,
    max_val: f32,
}

impl Native {
    fn set_limit(&mut self, new_limit: f32) {
        if new_limit == self.max_val {
            return;
        }
        self.max_val = new_limit;
        self.refill_per_second = new_limit;
        self.current_val = self.current_val.min(self.max_val);
    }

    fn try_reserve_at(&mut self, v: f32, time: u128) -> bool {
        let nanos = time.saturating_sub(self.current_time);
        let elapsed = std::time::Duration::from_nanos(nanos as u64);
        self.current_time = time;
        self.current_val = (self.current_val + elapsed.as_secs_f32() * self.refill_per_second)
            .clamp(0.0, self.max_val);
        if self.current_val >= v {
            self.current_val -= v;
            true
        } else {
            false
        }
    }
}

#[test]
fn long_runs_match_the_processor() {
    let mut state: u64 = 42;
    for start in [1.0f32, 1000.0, 123456.78, 16777216.0, 1073741824.0, 3.0e38] {
        let mut ours = Bucket::new_full(single(start), single(start), at(0));
        let mut native = Native {
            current_val: start,
            current_time: 0,
            refill_per_second: start,
            max_val: start,
        };
        let mut now: u128 = 0;
        for i in 0..20_000u32 {
            state = state.wrapping_mul(6364136223846793005).wrapping_add(1442695040888963407);
            let len = ((state >> 33) % 4097) as f32;
            now += ((state >> 20) % 5_000_000) as u128;
            if i % 1000 == 999 {
                let limit = start * (((state >> 40) % 100) as f32 / 50.0);
                let limit = if limit.is_finite() { limit } else { start };
                ours.set_limit(single(limit));
                native.set_limit(limit);
            }
            let r = ours.try_reserve_at(single(len), at(now));
            assert_eq!(r, native.try_reserve_at(len, now));
            assert_eq!(level(&ours), native.current_val);
        }
    }
}
