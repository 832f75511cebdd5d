use earshot::endpoint::EndpointState;
use earshot::histogram::Histogram;
use earshot::time::Duration;
use earshot::{Endpoint, Lateness, MAINNET_FEED_URL, TESTNET_FEED_URL};

fn state() -> EndpointState {
    EndpointState::new("wss://a".to_owned(), 2)
}

fn micros(n: u64) -> Option<Duration> {
    Some(Duration::from_micros(n))
}

#[test]
fn endpoints_and_their_connections() {
    let endpoint = Endpoint::new("wss://a");
    assert_eq!(endpoint.url(), "wss://a");
    assert_eq!(endpoint.connection_count(), 1);
    let endpoint = endpoint.connections(3);
    assert_eq!(endpoint.connection_count(), 3);
    assert_eq!(endpoint.clone(), endpoint);
    assert_eq!(Endpoint::mainnet().url(), MAINNET_FEED_URL);
    assert_eq!(Endpoint::testnet().url(), TESTNET_FEED_URL);
    assert_eq!(Endpoint::from("wss://b"), Endpoint::new("wss://b"));
    assert_eq!(Endpoint::new("wss://b".to_owned()).url(), "wss://b");
    assert_eq!(Endpoint::from(&"wss://b".to_owned()).url(), "wss://b");
    assert_eq!(Endpoint::new('b').connection_count(), 1);
    assert_eq!(
        Endpoint::from("wss://b".to_owned()),
        Endpoint::new("wss://b")
    );
}

#[test]
fn buckets() {
    for micros in 0..64 {
        assert_eq!(Histogram::index_of(micros), micros as usize);
        assert_eq!(Histogram::upper_bound(micros as usize), micros);
    }
    assert_eq!(Histogram::index_of(64), 64);
    assert_eq!(Histogram::index_of(65), 64);
    assert_eq!(Histogram::upper_bound(64), 65);
    assert_eq!(Histogram::index_of(66), 65);
    assert_eq!(Histogram::index_of(1_000), 190);
    assert_eq!(Histogram::upper_bound(190), 1_007);
    assert_eq!(Histogram::upper_bound(639), 16_777_215);
    assert_eq!(Histogram::index_of(16_777_215), 639);
    assert_eq!(Histogram::index_of(16_777_216), 639);
    assert_eq!(Histogram::index_of(u64::MAX), 639);
}

#[test]
fn bounds_are_close_and_ordered() {
    let mut last = 0;
    for micros in (0..5_000_000u64).step_by(997) {
        let index = Histogram::index_of(micros);
        let bound = Histogram::upper_bound(index);
        assert!(micros <= bound && 32 * (bound - micros) <= micros);
        assert!(index >= last);
        last = index;
        assert_eq!(Histogram::index_of(bound), index);
        if index < 639 {
            assert_eq!(Histogram::index_of(bound + 1), index + 1);
        }
    }
}

#[test]
fn no_samples_no_figures() {
    let stats = state().stats();
    assert_eq!(stats.lateness, Lateness::default());
    assert_eq!(stats.url, "wss://a");
    assert_eq!(stats.total_conns, 2);
    assert_eq!(stats.live_conns, 0);
    assert_eq!(stats.delivered, 0);
    assert_eq!(stats.dropped, 0);
    assert_eq!(stats.last_sequence, None);
    assert_eq!(stats.consecutive_failures, 0);
    assert_eq!(stats.last_failure, None);
}

#[test]
fn percentiles() {
    let mut endpoint = state();
    for i in 1..=100u64 {
        endpoint.discarded(i, Some(Duration::from_millis(i)));
    }
    assert!(endpoint.can_report());
    let lateness = endpoint.stats().lateness;
    assert_eq!(lateness.count, 100);
    // The 50th, 90th and 99th sample, each at most one part in 32 too high.
    assert_eq!(lateness.p50, micros(50_175));
    assert_eq!(lateness.p90, micros(90_111));
    assert_eq!(lateness.p99, micros(100_000));
    assert_eq!(lateness.max, micros(100_000));
    assert_eq!(lateness.replays, 0);
}

#[test]
fn one_sample_is_every_figure() {
    let mut endpoint = state();
    endpoint.discarded(1, Some(Duration::new(0, 1_234_567)));
    let lateness = endpoint.stats().lateness;
    assert_eq!(lateness.count, 1);
    // No percentile is above the worst sample.
    let worst = Some(Duration::new(0, 1_234_567));
    assert_eq!(lateness.p50, worst);
    assert_eq!(lateness.p90, worst);
    assert_eq!(lateness.p99, worst);
    assert_eq!(lateness.max, worst);
}

#[test]
fn the_worst_sample_is_exact() {
    let mut endpoint = state();
    endpoint.discarded(1, Some(Duration::new(0, 1_500)));
    assert_eq!(endpoint.stats().lateness.max, Some(Duration::new(0, 1_500)));
    endpoint.discarded(2, Some(Duration::new(0, 1_499)));
    assert_eq!(endpoint.stats().lateness.max, Some(Duration::new(0, 1_500)));
    endpoint.discarded(3, Some(Duration::new(0, 1_501)));
    let lateness = endpoint.stats().lateness;
    assert_eq!(lateness.max, Some(Duration::new(0, 1_501)));
    // Percentiles go by whole microseconds.
    assert_eq!(lateness.p50, micros(1));
    assert_eq!(lateness.count, 3);
}

#[test]
fn figures_come_in_order() {
    let mut endpoint = state();
    let mut sample = 1u64;
    for i in 0..1000u64 {
        sample = sample.wrapping_mul(6364136223846793005).wrapping_add(1442695040888963407);
        endpoint.discarded(i, Some(Duration::from_micros(sample % 5_000_000)));
    }
    let lateness = endpoint.stats().lateness;
    assert!(lateness.p50 <= lateness.p90);
    assert!(lateness.p90 <= lateness.p99);
    assert!(lateness.p99 <= lateness.max);
}

#[test]
fn replays_are_kept_apart() {
    let mut endpoint = state();
    endpoint.discarded(1, Some(Duration::from_secs(5)));
    endpoint.discarded(2, Some(Duration::new(5, 1)));
    let lateness = endpoint.stats().lateness;
    assert_eq!(lateness.count, 1);
    assert_eq!(lateness.replays, 1);
    assert_eq!(lateness.max, micros(5_000_000));
}

#[test]
fn a_message_is_timed_once() {
    let mut endpoint = state();
    endpoint.discarded(5, Some(Duration::from_millis(1)));
    endpoint.discarded(5, Some(Duration::from_millis(9)));
    endpoint.discarded(6, None);
    let stats = endpoint.stats();
    assert_eq!(stats.dropped, 3);
    assert_eq!(stats.lateness.count, 1);
    assert_eq!(stats.lateness.max, micros(1_000));
    endpoint.discarded(6, Some(Duration::from_millis(2)));
    assert_eq!(endpoint.stats().lateness.count, 2);
    // One that comes in out of order is timed as well, once.
    endpoint.discarded(4, Some(Duration::from_millis(3)));
    endpoint.discarded(4, Some(Duration::from_millis(9)));
    endpoint.discarded(5, Some(Duration::from_millis(9)));
    endpoint.discarded(6, Some(Duration::from_millis(9)));
    let lateness = endpoint.stats().lateness;
    assert_eq!(lateness.count, 3);
    assert_eq!(lateness.max, micros(3_000));
    // The last number there is counts once too.
    endpoint.discarded(u64::MAX, Some(Duration::from_millis(1)));
    endpoint.discarded(u64::MAX, Some(Duration::from_millis(1)));
    assert_eq!(endpoint.stats().lateness.count, 4);
}

#[test]
fn a_replay_counts_once() {
    let mut endpoint = state();
    endpoint.discarded(5, Some(Duration::from_secs(6)));
    endpoint.discarded(5, Some(Duration::from_secs(6)));
    endpoint.discarded(5, Some(Duration::from_secs(1)));
    let lateness = endpoint.stats().lateness;
    assert_eq!(lateness.replays, 1);
    assert_eq!(lateness.count, 0);
}

#[test]
fn what_was_timed_is_forgotten_on_request() {
    let mut endpoint = state();
    for n in 10..20 {
        endpoint.discarded(n, Some(Duration::from_millis(1)));
    }
    endpoint.forget_before(15);
    endpoint.discarded(15, Some(Duration::from_millis(1)));
    assert_eq!(endpoint.stats().lateness.count, 10);
    endpoint.discarded(14, Some(Duration::from_millis(1)));
    assert_eq!(endpoint.stats().lateness.count, 11);
    endpoint.forget_before(u64::MAX);
    endpoint.forget_before(0);
    endpoint.discarded(19, Some(Duration::from_millis(1)));
    assert_eq!(endpoint.stats().lateness.count, 12);
}

#[test]
fn the_highest_number_is_kept() {
    let mut endpoint = state();
    endpoint.took(7);
    endpoint.took(3);
    assert_eq!(endpoint.stats().last_sequence, Some(7));
    endpoint.discarded(9, None);
    let stats = endpoint.stats();
    assert_eq!(stats.last_sequence, Some(9));
    assert_eq!(stats.delivered, 2);
    assert_eq!(stats.dropped, 1);
}

#[test]
fn connections_come_and_go() {
    let mut endpoint = state();
    endpoint.failed("first");
    endpoint.failed("second");
    assert_eq!(endpoint.stats().consecutive_failures, 2);
    assert_eq!(endpoint.stats().last_failure, Some("second".to_owned()));
    assert_eq!(endpoint.stats().live_conns, 0);
    endpoint.connected();
    endpoint.connected();
    assert_eq!(endpoint.stats().live_conns, 2);
    assert_eq!(endpoint.stats().consecutive_failures, 0);
    assert_eq!(endpoint.stats().last_failure, None);
    endpoint.disconnected("gone");
    endpoint.disconnected("gone");
    endpoint.disconnected("gone");
    assert_eq!(endpoint.stats().live_conns, 0);
    assert_eq!(endpoint.stats().consecutive_failures, 3);
    assert_eq!(endpoint.url(), "wss://a");
    assert_eq!(endpoint.total_conns(), 2);
}

#[test]
fn quantiles_of_counts() {
    let mut counts = vec![0u64; 640];
    counts[1] = 3;
    counts[10] = 1;
    assert_eq!(Histogram::quantile(&counts, 4, 3, 4, None), micros(1));
    assert_eq!(Histogram::quantile(&counts, 4, 4, 5, None), micros(10));
    assert_eq!(Histogram::quantile(&counts, 4, 4, 5, micros(8)), micros(8));
    assert_eq!(Histogram::quantile(&counts, 4, 2, 1, micros(8)), micros(8));
    assert_eq!(Histogram::quantile(&vec![0; 640], 0, 1, 2, micros(8)), None);
    assert_eq!(earshot::histogram::total_of(&counts), 4);
}
