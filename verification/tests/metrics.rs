use rcof::double::Double;
use rcof::metrics::{add, get, monotonic_us, raise, Metrics, Timing};

#[test]
fn histogram_reports_upper_bounds() {
    let mut timing = Timing::new();
    assert_eq!(timing.snapshot().samples, 0);
    assert_eq!(timing.snapshot().p50_upper_us, None);
    timing.record(0);
    assert_eq!(timing.snapshot().p50_upper_us, Some(0));
    for micros in [1u64, 2, 3, 4, 1000, 1023, 1024] {
        timing.record(micros);
    }
    let report = timing.snapshot();
    assert_eq!(report.samples, 8);
    assert_eq!(report.p50_upper_us, Some(3));
    assert_eq!(report.p95_upper_us, Some(2047));
    let mut long = Timing::new();
    long.record(u64::MAX);
    assert_eq!(long.snapshot().p95_upper_us, Some((1u64 << 31) - 1));
}

#[test]
fn counters_add_and_keep_peaks() {
    let mut value = 5u64;
    add(&mut value, 7);
    assert_eq!(get(&value), 12);
    raise(&mut value, 3);
    assert_eq!(value, 12);
    raise(&mut value, 30);
    assert_eq!(value, 30);
    value = u64::MAX;
    add(&mut value, 2);
    assert_eq!(value, 1);
    assert_eq!(monotonic_us(3, 4_567_999), 3_004_567);
}

#[test]
fn summary_copies_the_counters() {
    let mut metrics = Metrics::new();
    metrics.rx_frames = 4;
    metrics.gaps = 2;
    metrics.decode_time.record(5);
    let summary = metrics.summary("a", Double { bits: 2.5f64.to_bits() }, "left");
    assert_eq!(summary.id, "a");
    assert_eq!(f64::from_bits(summary.elapsed_seconds.bits), 2.5);
    assert_eq!(summary.outcome, "left");
    assert_eq!(summary.rx_frames, 4);
    assert_eq!(summary.sequence_gaps, 2);
    assert_eq!(summary.decode.samples, 1);
    assert_eq!(summary.decode.p95_upper_us, Some(7));
}
