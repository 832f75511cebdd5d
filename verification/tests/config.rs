use earshot::config::{Config, Target, FEED_CLIENT_VERSION};
use earshot::time::Duration;
use earshot::{
    ClientBuilder, Endpoint, Error, MAINNET_CHAIN_ID, MAINNET_FEED_URL, TESTNET_CHAIN_ID,
    TESTNET_FEED_URL,
};

fn target(url: &str) -> (String, u16) {
    let target = Target::parse(url).unwrap();
    (target.host, target.port)
}

#[test]
fn constants() {
    assert_eq!(
        MAINNET_FEED_URL,
        "wss://feed.mainnet.chain.robinhood.com/feed"
    );
    assert_eq!(
        TESTNET_FEED_URL,
        "wss://feed.testnet.chain.robinhood.com/feed"
    );
    assert_eq!(MAINNET_CHAIN_ID, 4663);
    assert_eq!(TESTNET_CHAIN_ID, 46630);
    assert_eq!(FEED_CLIENT_VERSION, "2");
}

#[test]
fn urls_with_a_host() {
    assert_eq!(
        target(MAINNET_FEED_URL),
        ("feed.mainnet.chain.robinhood.com".to_owned(), 443)
    );
    assert_eq!(target("wss://a"), ("a".to_owned(), 443));
    assert_eq!(target("wss://a:1/b"), ("a".to_owned(), 1));
    assert_eq!(target("wss://a:65535?x"), ("a".to_owned(), 65535));
    assert_eq!(target("wss://a:+80#x"), ("a".to_owned(), 80));
    assert_eq!(target("wss://a:b:80"), ("a:b".to_owned(), 80));
    assert_eq!(target("wss://[::1]/x"), ("::1".to_owned(), 443));
    assert_eq!(target("wss://[::1]:8443"), ("::1".to_owned(), 8443));
    assert_eq!(target("wss://[::1]x:8443"), ("::1".to_owned(), 443));
    assert_eq!(target("wss://é:7"), ("é".to_owned(), 7));
}

#[test]
fn urls_without_one() {
    for url in [
        "", "ws://a", "WSS://a", "wss:/a", "wss://", "wss:///a", "wss://:80", "wss://a:",
        "wss://a:65536", "wss://a:x", "wss://[::1", "wss://[]", "wss://[]:1", "wss://[::1]:",
        "wss://a:-1", "wss://?a",
    ] {
        assert_eq!(Target::parse(url).unwrap_err(), Error::Url(url.to_owned()));
    }
}

fn config() -> Config {
    Config {
        endpoints: vec![Endpoint::mainnet()],
        ..Config::default()
    }
}

fn problem(config: Config) -> String {
    match config.validate().unwrap_err() {
        Error::Config(reason) => reason,
        other => panic!("{other:?}"),
    }
}

#[test]
fn defaults() {
    let config = Config::default();
    assert!(config.endpoints.is_empty());
    assert_eq!(config.connect_timeout, Duration::from_secs(10));
    assert_eq!(config.gap_grace, Duration::from_millis(250));
    assert_eq!(config.read_timeout, Duration::from_secs(30));
    assert_eq!(config.ping_interval, Duration::from_secs(15));
    assert_eq!(config.reconnect_min, Duration::from_millis(250));
    assert_eq!(config.reconnect_max, Duration::from_secs(10));
    assert_eq!(config.capacity, 1024);
    assert_eq!(config.resume_after, None);
    assert_eq!(config.max_frame_bytes, 16 * 1024 * 1024);
}

#[test]
fn settings_that_do_not_make_sense() {
    assert_eq!(config().validate(), Ok(()));
    assert_eq!(
        problem(Config::default()),
        "at least one endpoint is required"
    );
    assert_eq!(
        problem(Config {
            capacity: 0,
            ..config()
        }),
        "capacity must be at least 1"
    );
    assert_eq!(
        problem(Config {
            ping_interval: Duration::zero(),
            ..config()
        }),
        "ping_interval must not be zero"
    );
    assert_eq!(
        problem(Config {
            read_timeout: Duration::zero(),
            ..config()
        }),
        "read_timeout must not be zero"
    );
    assert_eq!(
        problem(Config {
            connect_timeout: Duration::zero(),
            ..config()
        }),
        "connect_timeout must not be zero"
    );
    assert_eq!(
        problem(Config {
            reconnect_min: Duration::from_secs(11),
            ..config()
        }),
        "reconnect_min must not exceed reconnect_max"
    );
    assert_eq!(
        problem(Config {
            endpoints: vec![Endpoint::mainnet(), Endpoint::new("wss://a").connections(0)],
            ..config()
        }),
        "endpoint `wss://a` was given zero connections"
    );
}

#[test]
fn the_first_problem_is_the_one_reported() {
    let wrong = Config {
        capacity: 0,
        read_timeout: Duration::zero(),
        endpoints: vec![Endpoint::new("x")],
        ..Config::default()
    };
    assert_eq!(problem(wrong), "capacity must be at least 1");
    let wrong = Config {
        endpoints: vec![Endpoint::new("x").connections(0), Endpoint::new("y")],
        ..Config::default()
    };
    assert_eq!(problem(wrong), "endpoint `x` was given zero connections");
    let wrong = Config {
        endpoints: vec![Endpoint::mainnet(), Endpoint::new("y")],
        ..Config::default()
    };
    assert_eq!(wrong.validate(), Err(Error::Url("y".to_owned())));
}

#[test]
fn builder_sets_what_it_says() {
    let config = ClientBuilder::default()
        .endpoints(vec![Endpoint::testnet()])
        .gap_grace(Duration::from_millis(1))
        .connect_timeout(Duration::from_millis(2))
        .read_timeout(Duration::from_millis(3))
        .ping_interval(Duration::from_millis(4))
        .reconnect_backoff(Duration::from_millis(5), Duration::from_millis(6))
        .capacity(7)
        .resume_after(8)
        .max_frame_bytes(9)
        .prepare()
        .unwrap();
    assert_eq!(config.endpoints, vec![Endpoint::testnet()]);
    assert_eq!(config.gap_grace, Duration::from_millis(1));
    assert_eq!(config.connect_timeout, Duration::from_millis(2));
    assert_eq!(config.read_timeout, Duration::from_millis(3));
    assert_eq!(config.ping_interval, Duration::from_millis(4));
    assert_eq!(config.reconnect_min, Duration::from_millis(5));
    assert_eq!(config.reconnect_max, Duration::from_millis(6));
    assert_eq!(config.capacity, 7);
    assert_eq!(config.resume_after, Some(8));
    assert_eq!(config.max_frame_bytes, 9);
}

#[test]
fn mainnet_is_filled_in() {
    let config = ClientBuilder::default().prepare().unwrap();
    assert_eq!(config.endpoints, vec![Endpoint::mainnet()]);
    assert_eq!(
        ClientBuilder::default().capacity(0).prepare().unwrap_err(),
        Error::Config("capacity must be at least 1".to_owned())
    );
}

#[test]
fn errors_in_words() {
    assert_eq!(
        Error::Config("x".to_owned()).to_string(),
        "invalid configuration: x"
    );
    assert_eq!(
        Error::Url("u".to_owned()).to_string(),
        "invalid feed URL `u`"
    );
    let dns = Error::Dns {
        host: "h".to_owned(),
        source: "s".to_owned(),
    };
    assert_eq!(dns.to_string(), "DNS resolution for `h` failed: s");
    let rejected = Error::Rejected {
        url: "u".to_owned(),
        status: 429,
    };
    assert_eq!(
        rejected.to_string(),
        "the relay at u refused the upgrade with HTTP 429"
    );
    let connect = Error::Connect {
        url: "u".to_owned(),
        message: "m".to_owned(),
    };
    assert_eq!(connect.to_string(), "could not open the feed at u: m");
}

#[test]
fn a_long_authority_is_searched_to_its_end() {
    let host = "a".repeat(2_000_000);
    let target = Target::parse(&format!("wss://{host}:1234/feed")).unwrap();
    assert_eq!(target.host, host);
    assert_eq!(target.port, 1234);
    let target = Target::parse(&format!("wss://{host}")).unwrap();
    assert_eq!(target.host, host);
    assert_eq!(target.port, 443);
    let target = Target::parse("wss://a?b/c").unwrap();
    assert_eq!(target.host, "a");
    let target = Target::parse("wss://a#b:7").unwrap();
    assert_eq!((target.host.as_str(), target.port), ("a", 443));
}
