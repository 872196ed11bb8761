use netctl::stats::{floor_sqrt, jitter, loss, max, mean, min, std_dev, total, PingStats};

fn series(sent: u32, samples: &[u32]) -> PingStats {
    let mut stats = PingStats::new("example.org".to_string(), "192.0.2.1".to_string(), sent);
    for s in samples {
        assert!(stats.record(*s));
    }
    stats
}

#[test]
fn statistics_of_ten_twenty_thirty_milliseconds() {
    let stats = series(3, &[10_000, 20_000, 30_000]);
    assert_eq!(stats.avg(), 20_000);
    assert_eq!(stats.min(), 10_000);
    assert_eq!(stats.max(), 30_000);
    assert_eq!(stats.std_dev(), 10_000);
    assert_eq!(stats.jitter(), 10_000);
    assert_eq!(stats.total_time(), 60_000);
}

#[test]
fn loss_of_two_out_of_ten_is_twenty_percent() {
    assert_eq!(loss(10, 8), 20_000);
    let stats = series(10, &[1, 2, 3, 4, 5, 6, 7, 8]);
    assert_eq!(stats.loss_pct(), 20_000);
}

#[test]
fn loss_with_nothing_sent_is_zero() {
    assert_eq!(loss(0, 0), 0);
    let stats = series(0, &[]);
    assert_eq!(stats.loss_pct(), 0);
}

#[test]
fn loss_rounds_down_to_thousandths_of_a_percent() {
    assert_eq!(loss(3, 2), 33_333);
    assert_eq!(loss(3, 0), 100_000);
    assert_eq!(loss(3, 3), 0);
    assert_eq!(loss(u32::MAX, 0), 100_000);
}

#[test]
fn loss_with_more_replies_than_probes_is_zero() {
    assert_eq!(loss(2, 5), 0);
}

#[test]
fn empty_series_reports_zero_everywhere() {
    let stats = series(5, &[]);
    assert_eq!(stats.min(), 0);
    assert_eq!(stats.max(), 0);
    assert_eq!(stats.avg(), 0);
    assert_eq!(stats.std_dev(), 0);
    assert_eq!(stats.jitter(), 0);
    assert_eq!(stats.total_time(), 0);
    assert_eq!(stats.received(), 0);
    assert_eq!(stats.loss_pct(), 100_000);
}

#[test]
fn single_sample_has_no_spread() {
    let stats = series(1, &[42_000]);
    assert_eq!(stats.min(), 42_000);
    assert_eq!(stats.max(), 42_000);
    assert_eq!(stats.avg(), 42_000);
    assert_eq!(stats.std_dev(), 0);
    assert_eq!(stats.jitter(), 0);
}

#[test]
fn statistics_are_the_same_when_asked_twice() {
    let stats = series(4, &[12_000, 48_000, 7_000, 31_000]);
    assert_eq!(stats.avg(), stats.avg());
    assert_eq!(stats.min(), stats.min());
    assert_eq!(stats.max(), stats.max());
    assert_eq!(stats.std_dev(), stats.std_dev());
    assert_eq!(stats.jitter(), stats.jitter());
    assert_eq!(stats.loss_pct(), stats.loss_pct());
    let again = series(4, &[12_000, 48_000, 7_000, 31_000]);
    assert_eq!(stats.avg(), again.avg());
    assert_eq!(stats.std_dev(), again.std_dev());
    assert_eq!(stats.jitter(), again.jitter());
}

#[test]
fn jitter_follows_emission_order() {
    assert_eq!(jitter(&[10_000, 30_000, 20_000]), 15_000);
    assert_eq!(jitter(&[10_000, 20_000, 30_000]), 10_000);
    assert_eq!(jitter(&[5, 5, 5, 5]), 0);
    assert_eq!(jitter(&[0, u32::MAX]), u32::MAX);
}

#[test]
fn mean_rounds_down() {
    assert_eq!(mean(&[1, 2]), 1);
    assert_eq!(mean(&[u32::MAX, u32::MAX]), u32::MAX);
    assert_eq!(total(&[u32::MAX, u32::MAX]), 2 * (u32::MAX as u128));
}

#[test]
fn min_and_max_pick_the_extremes() {
    assert_eq!(min(&[7, 3, 9]), 3);
    assert_eq!(max(&[7, 3, 9]), 9);
    assert_eq!(min(&[0, 4]), 0);
    assert_eq!(max(&[0, 0]), 0);
}

#[test]
fn standard_deviation_uses_the_sample_divisor() {
    // Deviations from the mean 5: 9 + 1 + 1 + 1 + 0 + 0 + 4 + 16 = 32; 32 / 7 = 4.57..
    assert_eq!(std_dev(&[2, 4, 4, 4, 5, 5, 7, 9]), 2);
    // Two samples 0 and 10: variance 50, root 7.07..
    assert_eq!(std_dev(&[0, 10]), 7);
    assert_eq!(std_dev(&[0, u32::MAX]), 3_037_000_499);
}

#[test]
fn floor_sqrt_is_exact_at_squares() {
    assert_eq!(floor_sqrt(0), 0);
    assert_eq!(floor_sqrt(1), 1);
    assert_eq!(floor_sqrt(99), 9);
    assert_eq!(floor_sqrt(100), 10);
    assert_eq!(floor_sqrt(u128::MAX), u64::MAX);
}

#[test]
fn record_stops_at_the_number_sent() {
    let mut stats = PingStats::new("h".to_string(), "h".to_string(), 2);
    assert!(stats.record(1));
    assert!(stats.record(2));
    assert!(!stats.record(3));
    assert_eq!(stats.received(), 2);
    assert_eq!(stats.latencies(), &[1, 2]);
    assert_eq!(stats.sent(), 2);
    assert_eq!(stats.host(), "h");
    assert_eq!(stats.ip(), "h");
}
