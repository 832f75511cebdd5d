use earshot::endpoint::EndpointState;
use earshot::merge::{Merge, Step};
use earshot::time::{Duration, Instant};
use earshot::{Address, Bytes, FeedMessage, MessageHeader, MessageKind};

fn at(millis: u64) -> Instant {
    Instant::at(Duration::from_millis(millis))
}

fn message(sequence_number: u64, millis: u64) -> FeedMessage {
    FeedMessage {
        sequence_number,
        missed_before: 0,
        block_hash: None,
        delayed_messages_read: 0,
        header: MessageHeader {
            kind: MessageKind::L2Message,
            sender: Address::zero(),
            l1_block_number: 0,
            timestamp: 0,
            request_id: None,
            l1_base_fee: 0,
        },
        l2_msg: Bytes::from(Vec::new()),
        transactions: Vec::new(),
        parse_error: None,
        received_at: at(millis),
    }
}

struct Client {
    merge: Merge,
    endpoints: Vec<EndpointState>,
}

impl Client {
    fn new(resume_after: Option<u64>, capacity: usize) -> Self {
        Self {
            merge: Merge::new(resume_after, Duration::from_millis(250), capacity),
            endpoints: vec![
                EndpointState::new("wss://a".to_owned(), 1),
                EndpointState::new("wss://b".to_owned(), 1),
            ],
        }
    }

    fn offer(&mut self, endpoint: usize, sequence_number: u64, millis: u64) {
        self.merge.offer(
            &mut self.endpoints,
            endpoint,
            message(sequence_number, millis),
        );
    }

    /// Everything that goes out at a point in time, with what was missed
    /// before each.
    fn drain(&mut self, millis: u64) -> Vec<(u64, u64)> {
        let mut out = Vec::new();
        loop {
            match self.merge.next(&mut self.endpoints, at(millis)) {
                Step::Deliver(message) => {
                    out.push((message.sequence_number, message.missed_before))
                }
                Step::Wait(_) => return out,
            }
        }
    }

    fn waits_until(&mut self, millis: u64) -> Option<Instant> {
        match self.merge.next(&mut self.endpoints, at(millis)) {
            Step::Deliver(message) => panic!("{} went out", message.sequence_number),
            Step::Wait(until) => until,
        }
    }
}

#[test]
fn a_contiguous_stream_is_not_held() {
    let mut client = Client::new(None, 8);
    assert_eq!(client.waits_until(0), None);
    for n in 10..20 {
        client.offer(0, n, n);
        assert_eq!(client.drain(n), vec![(n, 0)]);
        assert_eq!(client.waits_until(n), None);
    }
}

#[test]
fn copies_go_out_once() {
    let mut client = Client::new(None, 8);
    client.offer(0, 1, 0);
    client.offer(1, 1, 3);
    assert_eq!(client.drain(3), vec![(1, 0)]);
    client.offer(1, 1, 5);
    assert!(client.drain(5).is_empty());
    assert_eq!(client.merge.suppressed(), 2);
    let winner = client.endpoints[0].stats();
    let loser = client.endpoints[1].stats();
    assert_eq!(winner.delivered, 1);
    assert_eq!(winner.dropped, 0);
    assert_eq!(loser.delivered, 0);
    assert_eq!(loser.dropped, 2);
    // Timed on the first of its copies only.
    assert_eq!(loser.lateness.count, 1);
    assert_eq!(loser.lateness.max, Some(Duration::from_millis(3)));
}

#[test]
fn a_late_copy_is_timed_against_the_one_that_went_out() {
    let mut client = Client::new(None, 8);
    for n in 1..=3 {
        client.offer(0, n, 10 * n);
    }
    assert_eq!(client.drain(30), vec![(1, 0), (2, 0), (3, 0)]);
    client.offer(1, 2, 27);
    // Its own copy says nothing about an endpoint.
    client.offer(0, 3, 90);
    let own = client.endpoints[0].stats().lateness;
    let other = client.endpoints[1].stats().lateness;
    assert_eq!(own.count, 0);
    assert_eq!(other.count, 1);
    assert_eq!(other.max, Some(Duration::from_millis(7)));
}

#[test]
fn a_gap_that_fills_loses_nothing() {
    let mut client = Client::new(None, 8);
    client.offer(0, 1, 0);
    assert_eq!(client.drain(0), vec![(1, 0)]);
    client.offer(0, 3, 10);
    assert_eq!(client.waits_until(10), Some(at(260)));
    // The timer is not restarted.
    client.offer(0, 4, 100);
    assert_eq!(client.waits_until(100), Some(at(260)));
    client.offer(1, 2, 200);
    assert_eq!(client.drain(200), vec![(2, 0), (3, 0), (4, 0)]);
    assert_eq!(client.waits_until(300), None);
}

#[test]
fn a_gap_that_does_not_fill_is_reported() {
    let mut client = Client::new(None, 8);
    client.offer(0, 1, 0);
    assert_eq!(client.drain(0), vec![(1, 0)]);
    client.offer(0, 5, 10);
    client.offer(0, 7, 10);
    assert!(client.drain(10).is_empty());
    assert!(client.drain(259).is_empty());
    // Each gap gets its own time.
    assert_eq!(client.drain(260), vec![(5, 3)]);
    assert_eq!(client.drain(510), vec![(7, 1)]);
    // What was given up on is dropped when it arrives after all, and not
    // timed, since nothing else won it.
    client.offer(1, 3, 600);
    assert!(client.drain(600).is_empty());
    assert_eq!(client.endpoints[1].stats().dropped, 1);
    assert_eq!(client.endpoints[1].stats().lateness.count, 0);
}

#[test]
fn a_later_gap_gets_its_own_time() {
    let mut client = Client::new(Some(9), 8);
    client.offer(0, 12, 0);
    assert_eq!(client.waits_until(0), Some(at(250)));
    client.offer(0, 15, 200);
    client.offer(1, 10, 200);
    client.offer(1, 11, 200);
    assert_eq!(client.drain(200), vec![(10, 0), (11, 0), (12, 0)]);
    assert_eq!(client.waits_until(200), Some(at(450)));
    assert_eq!(client.waits_until(449), Some(at(450)));
    assert_eq!(client.drain(450), vec![(15, 2)]);
    assert_eq!(client.waits_until(450), None);
}

#[test]
fn a_gap_that_shrinks_keeps_its_time() {
    let mut client = Client::new(Some(9), 8);
    client.offer(0, 15, 0);
    assert_eq!(client.waits_until(0), Some(at(250)));
    // From the front, and in the middle.
    client.offer(1, 10, 100);
    assert_eq!(client.drain(100), vec![(10, 0)]);
    assert_eq!(client.waits_until(100), Some(at(250)));
    client.offer(1, 13, 200);
    assert_eq!(client.waits_until(200), Some(at(250)));
    assert_eq!(client.drain(250), vec![(13, 2)]);
    assert_eq!(client.waits_until(250), Some(at(500)));
    client.offer(1, 14, 300);
    assert_eq!(client.drain(300), vec![(14, 0), (15, 0)]);
}

#[test]
fn a_replayed_backlog_loses_nothing() {
    let mut client = Client::new(None, 64);
    for n in 1..=5 {
        client.offer(0, n, n);
        assert_eq!(client.drain(n), vec![(n, 0)]);
    }
    // The connection drops; others run ahead; the backlog comes again.
    for n in [9, 8, 12] {
        client.offer(1, n, 20);
        assert!(client.drain(20).is_empty());
    }
    let mut out = Vec::new();
    for n in 2..=12 {
        client.offer(0, n, 100);
        out.extend(client.drain(100));
    }
    let expected: Vec<_> = (6..=12).map(|n| (n, 0)).collect();
    assert_eq!(out, expected);
}

#[test]
fn the_last_number_is_held_but_cannot_go_out() {
    let mut client = Client::new(Some(9), 8);
    assert!(!client.merge.delivered());
    client.offer(0, u64::MAX, 0);
    assert!(client.merge.can_advance(at(0)));
    assert_eq!(client.waits_until(0), Some(at(250)));
    assert!(client.merge.can_advance(at(249)));
    assert!(!client.merge.can_advance(at(250)));
    client.offer(1, 10, 100);
    assert!(client.merge.can_advance(at(250)));
    assert_eq!(client.drain(100), vec![(10, 0)]);
    assert!(client.merge.delivered());
}

#[test]
fn a_gap_that_the_clock_cannot_measure() {
    let mut client = Client::new(Some(9), 8);
    let end = Instant::at(Duration::new(u64::MAX, 999_999_999));
    assert!(client.merge.can_advance(end));
    client.offer(0, 12, 0);
    assert!(!client.merge.can_advance(end));
    assert!(client.merge.can_advance(at(0)));
    assert_eq!(client.waits_until(0), Some(at(250)));
    assert!(client.merge.can_advance(end));
}

#[test]
fn every_message_of_a_slower_endpoint_is_timed() {
    let mut client = Client::new(None, 8);
    for n in 1..=3 {
        client.offer(0, n, n);
        assert_eq!(client.drain(n), vec![(n, 0)]);
    }
    // Two sockets of one endpoint, each in order, one ahead of the other.
    for (n, millis) in [(2, 10), (3, 10), (1, 11), (2, 12), (3, 13)] {
        client.offer(1, n, millis);
    }
    let lateness = client.endpoints[1].stats().lateness;
    assert_eq!(lateness.count, 3);
    assert_eq!(lateness.max, Some(Duration::from_millis(10)));
}

#[test]
fn a_backlog_that_was_timed_is_not_timed_again() {
    let mut client = Client::new(None, 8);
    for n in 0..10_000 {
        client.offer(0, n, n);
        assert_eq!(client.drain(n), vec![(n, 0)]);
        client.offer(1, n, n + 1);
    }
    assert_eq!(client.endpoints[1].stats().lateness.count, 10_000);
    for n in 0..10_000 {
        client.offer(1, n, 10_000);
    }
    let stats = client.endpoints[1].stats();
    assert_eq!(stats.lateness.count, 10_000);
    assert_eq!(stats.lateness.replays, 0);
    assert_eq!(stats.lateness.max, Some(Duration::from_millis(1)));
    assert_eq!(stats.dropped, 20_000);
}

#[test]
fn a_full_hold_is_confirmed_early() {
    let mut client = Client::new(None, 2);
    client.offer(0, 1, 0);
    assert_eq!(client.drain(0), vec![(1, 0)]);
    client.offer(0, 5, 1);
    assert!(client.drain(1).is_empty());
    client.offer(0, 6, 2);
    assert_eq!(client.drain(2), vec![(5, 3), (6, 0)]);
}

#[test]
fn resuming_drops_what_was_processed() {
    let mut client = Client::new(Some(100), 8);
    for n in 95..=100 {
        client.offer(0, n, 0);
    }
    assert!(client.drain(0).is_empty());
    client.offer(0, 101, 0);
    assert_eq!(client.drain(0), vec![(101, 0)]);

    let mut client = Client::new(Some(100), 8);
    client.offer(0, 111, 0);
    assert!(client.drain(0).is_empty());
    assert_eq!(client.drain(250), vec![(111, 10)]);
}

#[test]
fn resuming_after_the_last_number_delivers_nothing_before_it() {
    let mut client = Client::new(Some(u64::MAX), 8);
    client.offer(0, u64::MAX - 1, 0);
    assert!(client.drain(1_000).is_empty());
}

#[test]
fn the_first_message_is_measured_against_nothing() {
    let mut client = Client::new(None, 8);
    client.offer(0, 500, 0);
    client.offer(0, 499, 0);
    assert_eq!(client.drain(0), vec![(499, 0), (500, 0)]);
}

#[test]
fn any_interleaving_comes_out_in_order() {
    let mut client = Client::new(None, 16);
    let mut seed = 7u64;
    let mut out = Vec::new();
    let mut heads = [0u64, 0];
    for step in 0..3_000u64 {
        seed = seed.wrapping_mul(6364136223846793005).wrapping_add(1442695040888963407);
        let endpoint = (seed >> 33) as usize % 2;
        // Endpoints skip now and then, and now and then replay a backlog.
        heads[endpoint] = match (seed >> 40) % 100 {
            0 => heads[endpoint].saturating_sub(30),
            1..=5 => heads[endpoint] + 4,
            _ => heads[endpoint] + 1,
        };
        let head = heads[endpoint];
        client.offer(endpoint, head, 10 * step);
        out.extend(client.drain(10 * step));
    }
    out.extend(client.drain(1_000_000));
    assert!(out.len() > 1_000);
    for pair in out.windows(2) {
        assert_eq!(pair[1].0, pair[0].0 + 1 + pair[1].1);
    }
}

#[test]
fn the_history_of_winners_is_bounded() {
    let mut client = Client::new(None, 8);
    for n in 0..5_000 {
        client.offer(0, n, n);
        assert_eq!(client.drain(n), vec![(n, 0)]);
    }
    // 904 is the oldest winner that is still known.
    client.offer(1, 903, 5_000);
    assert_eq!(client.endpoints[1].stats().lateness.count, 0);
    client.offer(1, 904, 5_000);
    assert_eq!(client.endpoints[1].stats().lateness.count, 1);
    client.offer(1, 4_999, 5_000);
    assert_eq!(client.endpoints[1].stats().lateness.count, 2);
}

#[test]
fn steps_of_their_own() {
    let mut client = Client::new(Some(1), 8);
    client.offer(0, 4, 0);
    assert!(client.merge.take_ready(&mut client.endpoints).is_none());
    assert!(!client.merge.must_confirm(at(0)));
    assert_eq!(client.merge.deadline(at(100)), Some(at(250)));
    assert!(client.merge.must_confirm(at(250)));
    client.merge.confirm_gap();
    let taken = client.merge.take_ready(&mut client.endpoints).unwrap();
    assert_eq!((taken.sequence_number, taken.missed_before), (4, 2));
    assert_eq!(client.merge.deadline(at(300)), None);
}
