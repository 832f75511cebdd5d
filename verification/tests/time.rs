use earshot::time::{Duration, Instant};

#[test]
fn spans() {
    assert_eq!(Duration::from_secs(2).as_micros(), 2_000_000);
    assert_eq!(Duration::from_millis(1_500).as_secs(), 1);
    assert_eq!(Duration::from_millis(1_500).subsec_nanos(), 500_000_000);
    assert_eq!(Duration::from_micros(7).subsec_nanos(), 7_000);
    assert_eq!(Duration::new(1, 999).as_micros(), 1_000_000);
    assert!(Duration::zero().is_zero());
    assert!(!Duration::from_micros(1).is_zero());
    assert!(Duration::from_millis(1) < Duration::from_secs(1));
    assert!(Duration::new(1, 2) > Duration::new(1, 1));
    assert_eq!(Duration::from_millis(1_000), Duration::from_secs(1));
    assert_eq!(
        Duration::from_secs(3).min(Duration::from_secs(2)),
        Duration::from_secs(2)
    );
}

#[test]
fn span_arithmetic() {
    let a = Duration::new(1, 700_000_000);
    let b = Duration::new(2, 600_000_000);
    assert_eq!(a.checked_add(b), Some(Duration::new(4, 300_000_000)));
    assert_eq!(b.saturating_sub(a), Duration::new(0, 900_000_000));
    assert_eq!(a.saturating_sub(b), Duration::zero());
    assert_eq!(a.checked_mul(3), Some(Duration::new(5, 100_000_000)));
    assert_eq!(a.checked_mul(0), Some(Duration::zero()));
    let longest = Duration::new(u64::MAX, 999_999_999);
    assert_eq!(longest.checked_add(Duration::new(0, 1)), None);
    assert_eq!(longest.checked_mul(2), None);
    assert_eq!(longest.checked_mul(1), Some(longest));
}

#[test]
fn points_in_time() {
    let start = Instant::at(Duration::from_secs(10));
    let later = start.checked_add(Duration::from_millis(250)).unwrap();
    assert_eq!(
        later.saturating_duration_since(start),
        Duration::from_millis(250)
    );
    assert_eq!(start.saturating_duration_since(later), Duration::zero());
    assert!(start < later);
    assert_eq!(later.since_origin(), Duration::from_millis(10_250));
    let end = Instant::at(Duration::new(u64::MAX, 999_999_999));
    assert_eq!(end.checked_add(Duration::new(0, 1)), None);
}
