use earshot::client::{endpoint_states, total_connections, Readiness};
use earshot::config::Config;
use earshot::conn::{Arrival, Attempts, DialFailure, Dialled, Ended, Pump, Reaction, Supervisor};
use earshot::endpoint::EndpointState;
use earshot::time::{Duration, Instant};
use earshot::{Endpoint, Error};

fn millis(n: u64) -> Duration {
    Duration::from_millis(n)
}

fn at(n: u64) -> Instant {
    Instant::at(millis(n))
}

fn config() -> Config {
    Config {
        reconnect_min: millis(100),
        reconnect_max: millis(1_000),
        endpoints: vec![Endpoint::new("wss://a").connections(2), Endpoint::new("wss://b")],
        ..Config::default()
    }
}

fn endpoint() -> EndpointState {
    EndpointState::new("wss://a".to_owned(), 1)
}

fn rejected() -> Error {
    Error::Rejected {
        url: "wss://a".to_owned(),
        status: 429,
    }
}

fn unreachable() -> Error {
    Error::Connect {
        url: "wss://a".to_owned(),
        message: "no route".to_owned(),
    }
}

fn reason(ended: Option<Ended>) -> String {
    match ended {
        Some(Ended::Failed(reason)) => reason,
        Some(Ended::Dropped(_)) => panic!("dropped"),
        Some(Ended::Shutdown) => panic!("shut down"),
        None => panic!("up"),
    }
}

#[test]
fn the_backoff_doubles_up_to_the_ceiling() {
    let mut supervisor = Supervisor::new(0, &config());
    let delays: Vec<_> = (0..6).map(|_| supervisor.back_off().unwrap()).collect();
    assert_eq!(
        delays,
        vec![
            millis(100),
            millis(200),
            millis(400),
            millis(800),
            millis(1_000),
            millis(1_000)
        ]
    );
}

#[test]
fn connections_of_one_endpoint_are_staggered() {
    let mut supervisor = Supervisor::new(3, &config());
    assert_eq!(supervisor.back_off(), Some(millis(400)));
    assert_eq!(supervisor.back_off(), Some(millis(500)));
    let mut supervisor = Supervisor::new(usize::MAX, &config());
    assert_eq!(supervisor.back_off(), Some(millis(1_000)));
}

#[test]
fn a_delay_beyond_every_span_is_none() {
    let forever = Duration::new(u64::MAX, 0);
    let long = Config {
        reconnect_min: forever,
        reconnect_max: forever,
        ..config()
    };
    assert_eq!(Supervisor::new(2, &long).back_off(), None);
    // A delay that exists is given, though its double does not.
    let mut supervisor = Supervisor::new(0, &long);
    assert_eq!(supervisor.back_off(), Some(forever));
    assert_eq!(supervisor.back_off(), Some(forever));
}

#[test]
fn no_ceiling_is_a_ceiling() {
    let forever = Duration::new(u64::MAX, 999_999_999);
    let open = Config {
        reconnect_max: forever,
        ..config()
    };
    let mut supervisor = Supervisor::new(0, &open);
    assert_eq!(supervisor.back_off(), Some(millis(100)));
    assert_eq!(supervisor.back_off(), Some(millis(200)));
    let mut state = endpoint();
    supervisor.dialled(&mut state, Dialled::Failed(rejected()));
    assert_eq!(supervisor.back_off(), Some(forever));
    assert_eq!(supervisor.back_off(), Some(forever));
    supervisor.dialled(&mut state, Dialled::Connected);
    assert_eq!(supervisor.back_off(), Some(millis(100)));
}

#[test]
fn the_last_address_says_why() {
    let none = Attempts::new().into_failure().into_error("wss://a");
    assert_eq!(
        none,
        Error::Connect {
            url: "wss://a".to_owned(),
            message: "hostname resolved to no addresses".to_owned(),
        }
    );
    let mut attempts = Attempts::new();
    attempts.refused("refused".to_owned());
    attempts.refused("unreachable".to_owned());
    assert_eq!(
        attempts.into_failure().into_error("wss://a"),
        Error::Connect {
            url: "wss://a".to_owned(),
            message: "unreachable".to_owned(),
        }
    );
}

#[test]
fn a_refusal_waits_the_ceiling() {
    let mut supervisor = Supervisor::new(0, &config());
    let mut state = endpoint();
    let after = supervisor.dialled(&mut state, Dialled::Failed(rejected()));
    assert_eq!(after.report, Some(Err(rejected())));
    assert_eq!(
        reason(after.ended),
        "the relay at wss://a refused the upgrade with HTTP 429"
    );
    assert_eq!(supervisor.back_off(), Some(millis(1_000)));
    // Coming up starts over from the floor.
    let after = supervisor.dialled(&mut state, Dialled::Connected);
    assert_eq!(after.report, None);
    assert!(after.ended.is_none());
    assert_eq!(supervisor.back_off(), Some(millis(100)));
}

#[test]
fn only_the_first_attempt_is_reported() {
    let mut supervisor = Supervisor::new(0, &config());
    let mut state = endpoint();
    let after = supervisor.dialled(&mut state, Dialled::TimedOut("10s".to_owned()));
    assert_eq!(
        after.report,
        Some(Err(Error::Connect {
            url: "wss://a".to_owned(),
            message: "dialling timed out after 10s".to_owned(),
        }))
    );
    assert_eq!(reason(after.ended), "dialling timed out after 10s");
    let after = supervisor.dialled(&mut state, Dialled::Failed(unreachable()));
    assert_eq!(after.report, None);
    assert_eq!(
        reason(after.ended),
        "could not open the feed at wss://a: no route"
    );
    let after = supervisor.dialled(&mut state, Dialled::TimedOut("10s".to_owned()));
    assert_eq!(after.report, None);

    let mut supervisor = Supervisor::new(0, &config());
    let after = supervisor.dialled(&mut state, Dialled::Connected);
    assert_eq!(after.report, Some(Ok(())));
    assert_eq!(state.stats().live_conns, 1);
}

#[test]
fn endings_are_recorded() {
    let mut state = endpoint();
    state.connected();
    assert!(Supervisor::ended(
        &mut state,
        &Ended::Dropped("gone".to_owned())
    ));
    assert_eq!(state.stats().live_conns, 0);
    assert_eq!(state.stats().last_failure, Some("gone".to_owned()));
    assert!(Supervisor::ended(
        &mut state,
        &Ended::Failed("down".to_owned())
    ));
    assert_eq!(state.stats().consecutive_failures, 2);
    assert!(!Supervisor::ended(&mut state, &Ended::Shutdown));
    assert_eq!(state.stats().last_failure, Some("down".to_owned()));
}

#[test]
fn dial_failures() {
    let error = |failure: DialFailure| failure.into_error("wss://a");
    assert_eq!(
        error(DialFailure::Resolve {
            host: "a".to_owned(),
            reason: "no such name".to_owned(),
        }),
        Error::Dns {
            host: "a".to_owned(),
            source: "no such name".to_owned(),
        }
    );
    let connect = |message: &str| Error::Connect {
        url: "wss://a".to_owned(),
        message: message.to_owned(),
    };
    assert_eq!(
        error(DialFailure::Unreachable { last: None }),
        connect("hostname resolved to no addresses")
    );
    assert_eq!(
        error(DialFailure::Unreachable {
            last: Some("refused".to_owned()),
        }),
        connect("refused")
    );
    assert_eq!(
        error(DialFailure::BadUrl),
        Error::Url("wss://a".to_owned())
    );
    assert_eq!(
        error(DialFailure::Tls {
            reason: "bad cert".to_owned(),
        }),
        connect("TLS handshake failed: bad cert")
    );
    assert_eq!(error(DialFailure::Status { status: 429 }), rejected());
    assert_eq!(
        error(DialFailure::Upgrade {
            reason: "eof".to_owned(),
        }),
        connect("websocket upgrade failed: eof")
    );
}

#[test]
fn the_read_budget_runs_from_the_last_frame() {
    let mut pump = Pump::new(at(0));
    assert_eq!(pump.budget(millis(30), at(0)), millis(30));
    assert_eq!(pump.budget(millis(30), at(20)), millis(10));
    assert_eq!(pump.budget(millis(30), at(40)), Duration::zero());
    assert!(matches!(
        pump.arrived(Arrival::Control, at(25)),
        Reaction::Continue
    ));
    assert_eq!(pump.budget(millis(30), at(40)), millis(15));
    match pump.arrived(Arrival::Payload(vec![1, 2]), at(50)) {
        Reaction::Parse(bytes) => assert_eq!(bytes, vec![1, 2]),
        _ => panic!("not parsed"),
    }
    assert_eq!(pump.budget(millis(30), at(60)), millis(20));
}

#[test]
fn what_ends_a_connection() {
    let mut pump = Pump::new(at(0));
    for (arrival, expected) in [
        (Arrival::Close, "relay sent a close frame"),
        (Arrival::End, "relay closed the connection"),
        (Arrival::Broken("reset".to_owned()), "reset"),
        (
            Arrival::Silence("30s".to_owned()),
            "nothing received for 30s",
        ),
        (Arrival::PingFailed("eof".to_owned()), "ping failed: eof"),
    ] {
        match pump.arrived(arrival, at(1)) {
            Reaction::Stop(Ended::Dropped(reason)) => assert_eq!(reason, expected),
            _ => panic!("{expected}"),
        }
    }
    assert!(matches!(
        pump.arrived(Arrival::Shutdown, at(1)),
        Reaction::Stop(Ended::Shutdown)
    ));
}

#[test]
fn one_endpoint_up_is_enough() {
    let mut readiness = Readiness::new();
    assert_eq!(readiness.report(Some(Err(unreachable())), &config()), None);
    assert_eq!(
        readiness.report(Some(Ok(())), &config()),
        Some(Ok(()))
    );
}

#[test]
fn every_endpoint_down_is_a_failure() {
    let mut readiness = Readiness::new();
    assert_eq!(readiness.report(Some(Err(unreachable())), &config()), None);
    assert_eq!(readiness.report(Some(Err(rejected())), &config()), None);
    assert_eq!(
        readiness.report(None, &config()),
        Some(Err(rejected()))
    );
    let mut readiness = Readiness::new();
    assert_eq!(
        readiness.report(None, &config()),
        Some(Err(Error::Connect {
            url: "wss://a, wss://b".to_owned(),
            message: "the connection tasks stopped before connecting".to_owned(),
        }))
    );
}

#[test]
fn endpoints_start_fresh() {
    let states = endpoint_states(&config());
    assert_eq!(states.len(), 2);
    assert_eq!(states[0].url(), "wss://a");
    assert_eq!(states[0].total_conns(), 2);
    assert_eq!(states[1].stats().delivered, 0);
    assert_eq!(total_connections(&config()), Some(3));
    let many = Config {
        endpoints: vec![
            Endpoint::new("wss://a").connections(usize::MAX),
            Endpoint::new("wss://b"),
        ],
        ..config()
    };
    assert_eq!(total_connections(&many), None);
}
