use rude_core::engine::speed::{
    eta, p75, percentile, GlobalSpeedMeter, RingSpeedMeter, SpeedSampler,
};
use std::time::{Duration, Instant};

const SECOND: u128 = 1_000_000_000;

#[test]
fn test_percentile() {
    let speeds = vec![10, 20, 30, 40, 50];
    assert_eq!(percentile(&speeds, 50), 30); // median
    assert_eq!(percentile(&speeds, 75), 40); // p75
    assert_eq!(percentile(&speeds, 0), 10);
    assert_eq!(percentile(&speeds, 100), 50);
}

#[test]
fn test_p75_small_sample() {
    let speeds = vec![100, 200];
    assert_eq!(p75(&speeds), 175); // interpolated
}

#[test]
fn test_ring_speed_meter() {
    let mut meter = RingSpeedMeter::new();

    // Add some bytes
    meter.add(1000);
    meter.sample();

    let begin = Instant::now();
    while begin.elapsed() < Duration::from_millis(100) {}
    meter.add(1000);
    meter.sample();

    let speed = meter.speed_bps();
    assert!(speed > 5000 && speed < 20000, "speed was {}", speed);
}

#[test]
fn percentiles_of_few_speeds() {
    assert_eq!(percentile(&[], 50), 0);
    assert_eq!(percentile(&[7], 99), 7);
    assert_eq!(percentile(&[50, 10, 40, 20, 30], 33), 23);
    assert_eq!(p75(&[200, 100]), 175);
}

#[test]
fn percentiles_are_rounded_as_doubles() {
    // seven hundredths of a hundred ranks are a little more than seven, and twenty-nine
    // a little less than twenty-nine
    let speeds: Vec<u64> = (0..101u64).map(|i| i * 1_000_000_000_000_000).collect();
    assert_eq!(percentile(&speeds, 7), 7_000_000_000_000_001);
    assert_eq!(percentile(&speeds, 29), 28_999_999_999_999_996);
    let odd: Vec<u64> = (0..40u64).map(|i| i.wrapping_mul(0x9E37_79B9_7F4A_7C15) >> 3).collect();
    for set in [&speeds, &odd] {
        let mut sorted = set.clone();
        sorted.sort();
        for p in 0..=100u64 {
            let at = (p as f64 / 100.0) * (sorted.len() - 1) as f64;
            let (lower, upper) = (at.floor() as usize, at.ceil() as usize);
            let (low, high) = (sorted[lower] as f64, sorted[upper] as f64);
            let expected = if lower == upper {
                sorted[lower]
            } else {
                (low + (at - lower as f64) * (high - low)) as u64
            };
            assert_eq!(percentile(set, p), expected, "percentile {}", p);
        }
    }
}

#[test]
fn speeds_are_rounded_as_doubles() {
    for bytes in [1u64, 3, 299, 1_000_003, 0x20_0000_0000_0001, 0x7FFF_FFFF_FFFF_FFFF] {
        for nanos in [10_000_000u64, 300_000_000, 1_000_000_007, 4_999_999_999] {
            let mut s = SpeedSampler::new();
            s.record_at(0, 0);
            s.record_at(bytes, nanos as u128);
            let elapsed = Duration::from_nanos(nanos).as_secs_f64();
            assert_eq!(s.speed_bps(), (bytes as f64 / elapsed) as u64, "{} in {}", bytes, nanos);
        }
    }
}

#[test]
fn sampler_speed_over_the_window() {
    let mut s = SpeedSampler::new();
    s.record_at(1000, 0);
    assert_eq!(s.speed_bps(), 0);
    s.record_at(2000, SECOND / 1000);
    assert_eq!(s.speed_bps(), 0); // less than 10 ms apart
    s.record_at(3000, 2 * SECOND);
    assert_eq!(s.speed_bps(), 3000);
    // samples more than 5 s old are dropped
    s.record_at(500, 8 * SECOND);
    assert_eq!(s.speed_bps(), 0);
    assert_eq!(s.total_bytes(), 6500);
}

#[test]
fn sampler_keeps_the_newest_samples() {
    let mut s = SpeedSampler::new();
    for i in 0..30u128 {
        s.record_at(100, i * SECOND / 10);
    }
    // twenty samples of 100 bytes over 1.9 s
    assert_eq!(s.speed_bps(), 2000 * 10 / 19);
}

#[test]
fn global_meter_measures_between_snapshots() {
    let mut m = GlobalSpeedMeter::new();
    m.add(500);
    assert_eq!(m.speed_bps_at(SECOND / 20), 0); // too soon
    assert_eq!(m.speed_bps_at(SECOND), 500);
    m.add(1500);
    assert_eq!(m.speed_bps_at(4 * SECOND), 500);
    assert_eq!(m.total_bytes(), 2000);
    assert_eq!(m.speed_bps_at(4 * SECOND + SECOND / 100), 0);
}

#[test]
fn global_meter_is_too_soon_right_away() {
    let mut m = GlobalSpeedMeter::new();
    m.add(1_000_000);
    assert_eq!(m.speed_bps(), 0);
}

#[test]
fn ring_meter_spans_the_ring() {
    let mut m = RingSpeedMeter::default();
    assert_eq!(m.speed_bps(), 0);
    for i in 0..60u128 {
        m.sample_at(i * SECOND / 10);
        m.add(100);
    }
    // the last fifty samples: 4900 bytes in 4.9 s, which is a little more as a double
    assert_eq!(m.speed_bps(), 999);
    assert_eq!(m.total_bytes(), 6000);
}

#[test]
fn eta_needs_a_size_and_a_speed() {
    assert_eq!(eta(None, 5, 5), None);
    assert_eq!(eta(Some(100), 5, 0), None);
    assert_eq!(eta(Some(100), 10, 8), Some(11));
    assert_eq!(eta(Some(100), 200, 8), Some(0));
}
