//! Configuring a client, and telling when it is up.

use vstd::prelude::*;
use vstd::string::*;

use crate::config;
use crate::config::{Config, MAINNET_FEED_URL};
use crate::endpoint::{Endpoint, EndpointConfig, EndpointState, EndpointView};
use crate::error::{Error, ErrorView};
use crate::time::Duration;

verus! {

/// Configures a client before it connects.
#[derive(Debug, Clone)]
pub struct ClientBuilder {
    config: Config,
}

impl View for ClientBuilder {
    type V = Config;

    /// What the client would be told.
    closed spec fn view(&self) -> Config {
        self.config
    }
}

impl Default for ClientBuilder {
    fn default() -> (out: Self)
        ensures
            out@.endpoints@.len() == 0,
            out@.connect_timeout@ == 10_000_000_000,
            out@.gap_grace@ == 250_000_000,
            out@.read_timeout@ == 30_000_000_000,
            out@.ping_interval@ == 15_000_000_000,
            out@.reconnect_min@ == 250_000_000,
            out@.reconnect_max@ == 10_000_000_000,
            out@.capacity == 1024,
            out@.resume_after is None,
            out@.max_frame_bytes == 16 * 1024 * 1024,
    {
        Self { config: Config::default() }
    }
}

/// What `config` comes to when it names no endpoint: mainnet stands in.
pub open spec fn mainnet() -> EndpointConfig {
    EndpointConfig { url: MAINNET_FEED_URL@, connections: 1 }
}

/// Whether `full` is `config` with mainnet in place of an empty list.
pub open spec fn fills_in(config: Config, full: Config) -> bool {
    if config.endpoints@.len() > 0 {
        full == config
    } else {
        &&& full == (Config { endpoints: full.endpoints, ..config })
        &&& full.endpoints@.len() == 1
        &&& full.endpoints@[0]@ == mainnet()
    }
}

/// What is wrong with the settings once mainnet is filled in, if anything is.
pub open spec fn prepared_problem(config: Config) -> Option<ErrorView> {
    match config.settings_problem() {
        Some(problem) => Some(problem),
        None => if config.endpoints@.len() > 0 {
            config::endpoints_problem(config.endpoints@, 0)
        } else {
            config::endpoint_problem(mainnet())
        },
    }
}

impl ClientBuilder {
    /// Read several relays at once, taking whichever delivers each message
    /// first.
    ///
    /// This is the strongest thing the client can do about latency, and the
    /// only thing it can do about a relay falling behind. Independent relays
    /// stall independently: a message is delivered as soon as the luckiest of
    /// them has it, and one that drops out or drifts is simply outrun rather
    /// than noticed. The merged stream stays ordered and free of duplicates
    /// however many are listed, so the cost is bandwidth and nothing else.
    ///
    /// **Every endpoint must serve the same chain.** Deduplication is by
    /// sequence number and nothing else, so relays for two different chains
    /// do not merge, they collide: the one with larger sequence numbers drives
    /// the high-water mark and the other is discarded wholesale, silently and
    /// with every counter looking healthy. There is no check for this, because
    /// a message carries nothing that identifies its chain.
    #[must_use]
    pub fn endpoints(self, endpoints: Vec<Endpoint>) -> (out: Self)
        ensures
            out@ == (Config { endpoints, ..self@ }),
    {
        let mut config = self.config;
        config.endpoints = endpoints;
        Self { config }
    }

    /// How long a gap is held open for another endpoint to fill before it is
    /// reported. Defaults to 250ms.
    ///
    /// A message arriving ahead of the expected sequence number means the
    /// endpoint that sent it is missing what comes between. Another endpoint
    /// may still have it, so the merge waits this long before deciding the
    /// messages are gone, and stops waiting the moment one of them arrives.
    /// Nothing is held while the stream is contiguous, so the cost falls only
    /// where there was already a hole.
    ///
    /// No time at all reports a gap on the first evidence of it: the lowest
    /// latency, and the least chance of the redundancy helping.
    #[must_use]
    pub fn gap_grace(self, grace: Duration) -> (out: Self)
        ensures
            out@ == (Config { gap_grace: grace, ..self@ }),
    {
        let mut config = self.config;
        config.gap_grace = grace;
        Self { config }
    }

    /// Budget for opening a connection — name resolution, TCP, TLS and the
    /// websocket upgrade together. Defaults to 10s.
    ///
    /// Each of those can block on a peer that accepts a connection and then
    /// says nothing, and an attempt still in flight is one that connecting may
    /// be waiting on.
    #[must_use]
    pub fn connect_timeout(self, timeout: Duration) -> (out: Self)
        ensures
            out@ == (Config { connect_timeout: timeout, ..self@ }),
    {
        let mut config = self.config;
        config.connect_timeout = timeout;
        Self { config }
    }

    /// How long a connection may go without receiving anything — including
    /// the relay's own pings — before it is treated as dead. Defaults to 30s.
    #[must_use]
    pub fn read_timeout(self, timeout: Duration) -> (out: Self)
        ensures
            out@ == (Config { read_timeout: timeout, ..self@ }),
    {
        let mut config = self.config;
        config.read_timeout = timeout;
        Self { config }
    }

    /// How often to send a websocket ping. Defaults to 15s.
    #[must_use]
    pub fn ping_interval(self, interval: Duration) -> (out: Self)
        ensures
            out@ == (Config { ping_interval: interval, ..self@ }),
    {
        let mut config = self.config;
        config.ping_interval = interval;
        Self { config }
    }

    /// The first and longest delays between reconnection attempts.
    /// Defaults to 250ms and 10s.
    #[must_use]
    pub fn reconnect_backoff(self, min: Duration, max: Duration) -> (out: Self)
        ensures
            out@ == (Config { reconnect_min: min, reconnect_max: max, ..self@ }),
    {
        let mut config = self.config;
        config.reconnect_min = min;
        config.reconnect_max = max;
        Self { config }
    }

    /// How many messages may sit buffered at each stage before the reader
    /// stalls the connections. Defaults to 1024.
    ///
    /// The buffer exists to absorb bursts, not to let a slow consumer fall
    /// arbitrarily behind: once it fills, reads stop and the relay eventually
    /// drops the connection rather than the client silently losing messages.
    ///
    /// Three things are bounded by this number — what the connections have
    /// handed the merge, what the merge is holding across an open gap, and
    /// what is waiting to be taken by the subscriber — so a client can hold up
    /// to three times it. A gap that reaches the bound is confirmed early
    /// rather than held any longer.
    #[must_use]
    pub fn capacity(self, capacity: usize) -> (out: Self)
        ensures
            out@ == (Config { capacity, ..self@ }),
    {
        let mut config = self.config;
        config.capacity = capacity;
        Self { config }
    }

    /// Carry deduplication across a restart, by naming the last sequence
    /// number that was already processed.
    ///
    /// The relay replays a backlog to every new subscriber, so a process that
    /// restarts is handed messages it has already seen and — worse — cannot
    /// tell from a message's `missed_before` whether it also missed something
    /// while it was down, since a fresh client has no previous message to
    /// compare against. Persist the sequence number of the last message you
    /// finished with and pass it back here: the replayed prefix is dropped as
    /// usual, and the first message delivered reports the real gap across the
    /// downtime.
    ///
    /// A value older than the relay's backlog cannot be stitched to, and is
    /// not pretended otherwise: the first message delivered then reports how
    /// far short the replay fell.
    ///
    /// A value *ahead* of the chain suppresses every message until the chain
    /// reaches it, so a stale or foreign one looks like a client that never
    /// delivers. The statistics are what shows it: endpoints connected, their
    /// sequence numbers climbing, and every message dropped rather than
    /// delivered.
    #[must_use]
    pub fn resume_after(self, sequence_number: u64) -> (out: Self)
        ensures
            out@ == (Config { resume_after: Some(sequence_number), ..self@ }),
    {
        let mut config = self.config;
        config.resume_after = Some(sequence_number);
        Self { config }
    }

    /// Largest websocket message to accept. Defaults to 16 MiB.
    #[must_use]
    pub fn max_frame_bytes(self, bytes: usize) -> (out: Self)
        ensures
            out@ == (Config { max_frame_bytes: bytes, ..self@ }),
    {
        let mut config = self.config;
        config.max_frame_bytes = bytes;
        Self { config }
    }

    /// The settings to connect with: mainnet where no endpoint is named, and
    /// refused where they do not make sense.
    ///
    /// # Errors
    ///
    /// Returns [`Error::Config`] or [`Error::Url`] if the settings do not make
    /// sense.
    pub fn prepare(self) -> (out: Result<Config, Error>)
        ensures
            match prepared_problem(self@) {
                None => out matches Ok(full) && fills_in(self@, full) && full.problem() is None,
                Some(problem) => out matches Err(e) && e@ == problem,
            },
    {
        let mut config = self.config;
        if config.endpoints.len() == 0 {
            let mut endpoints: Vec<Endpoint> = Vec::new();
            endpoints.push(Endpoint::new(MAINNET_FEED_URL));
            config.endpoints = endpoints;
        }
        proof {
            reveal_with_fuel(config::endpoints_problem, 2);
            assert(config.settings_problem() == self@.settings_problem());
        }
        match config.validate() {
            Ok(()) => Ok(config),
            Err(e) => Err(e),
        }
    }
}

/// Nothing known of an endpoint but its configuration.
pub open spec fn fresh_endpoint(endpoint: Endpoint) -> EndpointView {
    EndpointView::fresh(endpoint@.url, endpoint@.connections as usize)
}

/// The state of every endpoint before any of them is connected.
pub fn endpoint_states(config: &Config) -> (out: Vec<EndpointState>)
    ensures
        out@.len() == config.endpoints@.len(),
        forall|i: int|
            0 <= i < out@.len() ==> (#[trigger] out@[i]).wf() && out@[i]@ == fresh_endpoint(
                config.endpoints@[i],
            ),
{
    let mut out: Vec<EndpointState> = Vec::new();
    let mut i: usize = 0;
    while i < config.endpoints.len()
        invariant
            i <= config.endpoints@.len(),
            out@.len() == i,
            forall|j: int|
                0 <= j < i ==> (#[trigger] out@[j]).wf() && out@[j]@ == fresh_endpoint(
                    config.endpoints@[j],
                ),
        decreases config.endpoints@.len() - i,
    {
        let endpoint = &config.endpoints[i];
        out.push(EndpointState::new(endpoint.url().to_owned(), endpoint.connection_count()));
        i += 1;
    }
    out
}

/// How many connections the first `len` endpoints open together.
pub open spec fn connections_of(endpoints: Seq<Endpoint>, len: nat) -> nat
    decreases len,
{
    if len == 0 {
        0
    } else {
        connections_of(endpoints, (len - 1) as nat) + endpoints[len - 1]@.connections
    }
}

/// How many connections there will be in all. `None` if there is no number for
/// that many.
pub fn total_connections(config: &Config) -> (out: Option<usize>)
    ensures
        match out {
            Some(total) => total as nat == connections_of(
                config.endpoints@,
                config.endpoints@.len(),
            ),
            None => connections_of(config.endpoints@, config.endpoints@.len()) > usize::MAX,
        },
{
    let mut total: usize = 0;
    let mut i: usize = 0;
    while i < config.endpoints.len()
        invariant
            i <= config.endpoints@.len(),
            total as nat == connections_of(config.endpoints@, i as nat),
        decreases config.endpoints@.len() - i,
    {
        proof {
            lemma_connections_grow(config.endpoints@, i as nat + 1, config.endpoints@.len());
        }
        total = match total.checked_add(config.endpoints[i].connection_count()) {
            Some(total) => total,
            None => {
                return None;
            },
        };
        i += 1;
    }
    Some(total)
}

proof fn lemma_connections_grow(endpoints: Seq<Endpoint>, a: nat, b: nat)
    requires
        a <= b,
    ensures
        connections_of(endpoints, a) <= connections_of(endpoints, b),
    decreases b,
{
    if a < b {
        lemma_connections_grow(endpoints, a, (b - 1) as nat);
    }
}

/// The URLs of the endpoints from `from` on, with commas between them.
pub open spec fn joined_urls(endpoints: Seq<Endpoint>, from: int) -> Seq<char>
    decreases endpoints.len() - from,
{
    if from >= endpoints.len() {
        Seq::empty()
    } else if from == endpoints.len() - 1 {
        endpoints[from]@.url
    } else {
        endpoints[from]@.url + ", "@ + joined_urls(endpoints, from + 1)
    }
}

/// The URLs of all endpoints, with commas between them.
fn join_urls(endpoints: &Vec<Endpoint>) -> (out: String)
    ensures
        out@ == joined_urls(endpoints@, 0),
{
    let mut out = String::new();
    let mut i: usize = 0;
    assert(out@ + joined_urls(endpoints@, 0) =~= joined_urls(endpoints@, 0));
    while i < endpoints.len()
        invariant
            i <= endpoints@.len(),
            joined_urls(endpoints@, 0) == out@ + joined_urls(endpoints@, i as int),
        decreases endpoints@.len() - i,
    {
        let ghost before = out@;
        out.append(endpoints[i].url());
        if i + 1 < endpoints.len() {
            out.append(", ");
        }
        i += 1;
        assert(before + joined_urls(endpoints@, i - 1) =~= out@ + joined_urls(
            endpoints@,
            i as int,
        ));
    }
    assert(out@ + joined_urls(endpoints@, i as int) =~= out@);
    out
}

/// Whether a client is up, from what its first attempts report.
///
/// One endpoint coming up is enough to start, since the point of listing
/// several is that they fail independently. Only a client where every first
/// attempt failed is reported as a failure to connect, rather than one that
/// quietly never yields a message.
pub struct Readiness {
    last: Option<Error>,
}

/// An error that may be missing.
pub open spec fn error_view(e: Option<Error>) -> Option<ErrorView> {
    match e {
        Some(e) => Some(e@),
        None => None,
    }
}

impl View for Readiness {
    type V = Option<ErrorView>;

    /// The last failure reported.
    closed spec fn view(&self) -> Option<ErrorView> {
        error_view(self.last)
    }
}

impl Readiness {
    /// Nothing reported yet.
    pub fn new() -> (out: Self)
        ensures
            out@ is None,
    {
        Self { last: None }
    }

    /// Take a report, or the news that there will be none any more. Returns
    /// what connecting comes to, or `None` to wait for the next report.
    pub fn report(&mut self, report: Option<Result<(), Error>>, config: &Config) -> (out: Option<
        Result<(), Error>,
    >)
        ensures
            match report {
                Some(Ok(())) => out == Some(Ok::<(), Error>(())) && final(self)@ == old(self)@,
                Some(Err(e)) => out is None && final(self)@ == Some(e@),
                None => out matches Some(Err(e)) && e@ == match old(self)@ {
                    Some(last) => last,
                    None => ErrorView::Connect {
                        url: joined_urls(config.endpoints@, 0),
                        message: "the connection tasks stopped before connecting"@,
                    },
                },
            },
    {
        match report {
            Some(Ok(())) => Some(Ok(())),
            Some(Err(e)) => {
                self.last = Some(e);
                None
            },
            None => match self.last.take() {
                Some(last) => Some(Err(last)),
                None => Some(
                    Err(
                        Error::Connect {
                            url: join_urls(&config.endpoints),
                            message: "the connection tasks stopped before connecting".to_owned(),
                        },
                    ),
                ),
            },
        }
    }
}

/// Settings left as they are connect to mainnet.
pub proof fn defaults_make_sense(config: Config)
    requires
        config.settings_problem() is None,
        config.endpoints@.len() == 0,
    ensures
        prepared_problem(config) is None,
{
    config::mainnet_has_a_host();
}

/// Every setting changes what it is named after and nothing else.
pub proof fn settings_are_kept_apart(
    builder: ClientBuilder,
    out: ClientBuilder,
    endpoints: Vec<Endpoint>,
    span: Duration,
    longest: Duration,
    size: usize,
    number: u64,
)
    ensures
        call_ensures(ClientBuilder::endpoints, (builder, endpoints), out) ==> out@.endpoints
            == endpoints && same_settings(builder@, out@, 0),
        call_ensures(ClientBuilder::connect_timeout, (builder, span), out)
            ==> out@.connect_timeout == span && same_settings(builder@, out@, 1),
        call_ensures(ClientBuilder::gap_grace, (builder, span), out) ==> out@.gap_grace == span
            && same_settings(builder@, out@, 2),
        call_ensures(ClientBuilder::read_timeout, (builder, span), out) ==> out@.read_timeout
            == span && same_settings(builder@, out@, 3),
        call_ensures(ClientBuilder::ping_interval, (builder, span), out) ==> out@.ping_interval
            == span && same_settings(builder@, out@, 4),
        call_ensures(ClientBuilder::reconnect_backoff, (builder, span, longest), out)
            ==> out@.reconnect_min == span && out@.reconnect_max == longest && same_settings(
            builder@,
            out@,
            5,
        ),
        call_ensures(ClientBuilder::capacity, (builder, size), out) ==> out@.capacity == size
            && same_settings(builder@, out@, 6),
        call_ensures(ClientBuilder::resume_after, (builder, number), out) ==> out@.resume_after
            == Some(number) && same_settings(builder@, out@, 7),
        call_ensures(ClientBuilder::max_frame_bytes, (builder, size), out)
            ==> out@.max_frame_bytes == size && same_settings(builder@, out@, 8),
{
}

/// Whether two configurations agree in every setting but one.
pub open spec fn same_settings(a: Config, b: Config, but: int) -> bool {
    &&& but == 0 || a.endpoints == b.endpoints
    &&& but == 1 || a.connect_timeout == b.connect_timeout
    &&& but == 2 || a.gap_grace == b.gap_grace
    &&& but == 3 || a.read_timeout == b.read_timeout
    &&& but == 4 || a.ping_interval == b.ping_interval
    &&& but == 5 || (a.reconnect_min == b.reconnect_min && a.reconnect_max == b.reconnect_max)
    &&& but == 6 || a.capacity == b.capacity
    &&& but == 7 || a.resume_after == b.resume_after
    &&& but == 8 || a.max_frame_bytes == b.max_frame_bytes
}

/// Settings that make sense are what a client connects with, unchanged. Without
/// an endpoint, mainnet over one connection stands in, and only then.
pub proof fn sensible_settings_are_used(builder: ClientBuilder, out: Result<Config, Error>)
    requires
        call_ensures(ClientBuilder::prepare, (builder,), out),
    ensures
        out is Ok <==> config::settings_work(builder@) && forall|i: int|
            0 <= i < builder@.endpoints@.len() ==> config::endpoint_works(
                #[trigger] builder@.endpoints@[i],
            ),
        out matches Ok(used) ==> {
            &&& same_settings(builder@, used, 0)
            &&& builder@.endpoints@.len() > 0 ==> used.endpoints@ == builder@.endpoints@
            &&& builder@.endpoints@.len() == 0 ==> used.endpoints@.len() == 1
                && used.endpoints@[0]@.url == MAINNET_FEED_URL@
                && used.endpoints@[0]@.connections == 1
        },
{
    config::mainnet_has_a_host();
    config::lemma_all_work(builder@.endpoints@, 0);
}

/// What is refused is refused for the same reason as it would be with mainnet
/// filled in by hand.
pub proof fn refusals_are_those_of_the_settings(
    builder: ClientBuilder,
    out: Result<Config, Error>,
    filled: &Config,
    checked: Result<(), Error>,
)
    requires
        call_ensures(ClientBuilder::prepare, (builder,), out),
        call_ensures(Config::validate, (filled,), checked),
        same_settings(builder@, *filled, 0),
        builder@.endpoints@.len() > 0 ==> filled.endpoints@ == builder@.endpoints@,
        builder@.endpoints@.len() == 0 ==> filled.endpoints@.len() == 1
            && filled.endpoints@[0]@.url == MAINNET_FEED_URL@
            && filled.endpoints@[0]@.connections == 1,
    ensures
        out is Ok <==> checked is Ok,
        out matches Err(e) ==> (checked matches Err(also) && e@ == also@),
{
    config::mainnet_has_a_host();
    config::lemma_all_work(builder@.endpoints@, 0);
    config::lemma_all_work(filled.endpoints@, 0);
    if builder@.endpoints@.len() == 0 {
        assert(config::endpoint_works(filled.endpoints@[0]));
    }
}

/// There is a state for every endpoint, in the order configured and under its
/// own name, and nothing has happened to any of them.
pub proof fn every_endpoint_has_a_state(config: &Config, states: Vec<EndpointState>, i: int)
    requires
        call_ensures(endpoint_states, (config,), states),
        0 <= i < config.endpoints@.len(),
    ensures
        states@.len() == config.endpoints@.len(),
        states@[i].wf(),
        states@[i]@.url == config.endpoints@[i]@.url,
        config.endpoints@[i]@.connections <= usize::MAX ==> states@[i]@.total_conns
            == config.endpoints@[i]@.connections,
        states@[i]@.live == 0,
        states@[i]@.delivered == 0,
        states@[i]@.dropped == 0,
        states@[i]@.last_sequence == u64::MAX,
        states@[i]@.samples.len() == 0,
        states@[i]@.replays == 0,
        states@[i]@.consecutive_failures == 0,
        states@[i]@.last_failure is None,
        forall|number: u64| !#[trigger] states@[i]@.timed.contains(number),
{
}

/// The connections of some endpoints and of others add up to those of all, and
/// those of one endpoint are its own.
pub proof fn connections_add_up(first: Seq<Endpoint>, second: Seq<Endpoint>, one: Endpoint)
    ensures
        connections_of(first + second, first.len() + second.len()) == connections_of(
            first,
            first.len(),
        ) + connections_of(second, second.len()),
        connections_of(seq![one], 1) == one@.connections,
        connections_of(Seq::empty(), 0) == 0,
    decreases second.len(),
{
    reveal_with_fuel(connections_of, 2);
    if second.len() == 0 {
        lemma_connections_front(first + second, first, first.len());
    } else {
        let n = (second.len() - 1) as nat;
        connections_add_up(first, second.drop_last(), one);
        lemma_connections_front(
            first + second,
            first + second.drop_last(),
            first.len() + n,
        );
        lemma_connections_front(second, second.drop_last(), n);
    }
}

proof fn lemma_connections_front(a: Seq<Endpoint>, b: Seq<Endpoint>, len: nat)
    requires
        len <= a.len(),
        len <= b.len(),
        forall|i: int| 0 <= i < len ==> a[i] == #[trigger] b[i],
    ensures
        connections_of(a, len) == connections_of(b, len),
    decreases len,
{
    if len > 0 {
        lemma_connections_front(a, b, (len - 1) as nat);
        assert(a[len - 1] == b[len - 1]);
    }
}

/// The number of connections in all is that of all endpoints together, unless
/// it is larger than any number there is.
pub proof fn total_is_of_all(config: &Config, total: Option<usize>)
    requires
        call_ensures(total_connections, (config,), total),
    ensures
        total matches Some(total) ==> total == connections_of(
            config.endpoints@,
            config.endpoints@.len(),
        ),
        total is None <==> connections_of(config.endpoints@, config.endpoints@.len())
            > usize::MAX,
{
}

/// The URLs of some endpoints and of others, with a comma between, are those of
/// all, and the URL of one endpoint stands alone.
pub proof fn urls_are_joined(first: Seq<Endpoint>, second: Seq<Endpoint>, one: Endpoint)
    requires
        first.len() > 0,
        second.len() > 0,
    ensures
        joined_urls(first + second, 0) == joined_urls(first, 0) + seq![',', ' '] + joined_urls(
            second,
            0,
        ),
        joined_urls(seq![one], 0) == one@.url,
        joined_urls(Seq::empty(), 0).len() == 0,
{
    reveal_strlit(", ");
    assert(", "@ =~= seq![',', ' ']);
    lemma_joined(first, second, 0);
    lemma_joined_back(first, second, 0);
    assert(joined_urls(seq![one], 0) =~= one@.url);
}

proof fn lemma_joined(first: Seq<Endpoint>, second: Seq<Endpoint>, from: int)
    requires
        0 <= from < first.len(),
        second.len() > 0,
    ensures
        joined_urls(first + second, from) == joined_urls(first, from) + ", "@ + joined_urls(
            first + second,
            first.len() as int,
        ),
    decreases first.len() - from,
{
    let all = first + second;
    assert(all[from] == first[from]);
    if from < first.len() - 1 {
        lemma_joined(first, second, from + 1);
        assert(joined_urls(all, from) =~= joined_urls(first, from) + ", "@ + joined_urls(
            all,
            first.len() as int,
        ));
    }
}

proof fn lemma_joined_back(first: Seq<Endpoint>, second: Seq<Endpoint>, from: int)
    requires
        0 <= from <= second.len(),
    ensures
        joined_urls(first + second, first.len() + from) == joined_urls(second, from),
    decreases second.len() - from,
{
    let all = first + second;
    if from < second.len() {
        assert(all[first.len() + from] == second[from]);
        lemma_joined_back(first, second, from + 1);
    }
}

/// One connection that comes up is enough, at once and whatever failed before.
/// A failure alone decides nothing. Only when nothing more will be reported is
/// connecting a failure: the last one reported.
pub proof fn one_up_is_enough(
    readiness: &mut Readiness,
    report: Option<Result<(), Error>>,
    config: &Config,
    out: Option<Result<(), Error>>,
)
    requires
        call_ensures(Readiness::report, (readiness, report, config), out),
    ensures
        out matches Some(Ok(_)) <==> report matches Some(Ok(_)),
        out is None <==> report matches Some(Err(_)),
        out matches Some(Err(_)) <==> report is None,
        report matches Some(Err(e)) ==> final(readiness)@ == Some(e@),
        report is None ==> (old(readiness)@ matches Some(last) ==> (out matches Some(Err(e)) && e@
            == last)),
{
}

/// When nothing was ever reported, connecting fails with the URLs of all
/// endpoints, in the same words whatever they are.
pub proof fn silence_is_a_failure(
    readiness: &mut Readiness,
    fresh: Readiness,
    config: &Config,
    out: Option<Result<(), Error>>,
    other_readiness: &mut Readiness,
    other_config: &Config,
    other: Option<Result<(), Error>>,
)
    requires
        call_ensures(Readiness::new, (), fresh),
        old(readiness)@ == fresh@,
        old(other_readiness)@ == fresh@,
        call_ensures(Readiness::report, (readiness, None, config), out),
        call_ensures(Readiness::report, (other_readiness, None, other_config), other),
    ensures
        out matches Some(Err(e)) && (e@ matches ErrorView::Connect { url, message } && url
            == joined_urls(config.endpoints@, 0) && (other matches Some(Err(also)) && (
        also@ matches ErrorView::Connect { url: _, message: words } && words == message))),
{
}

/// A client that is told nothing has the settings that a configuration starts
/// with, and those make sense.
pub proof fn untold_clients_have_the_defaults(
    builder: ClientBuilder,
    config: Config,
    out: Result<Config, Error>,
)
    requires
        call_ensures(<ClientBuilder as Default>::default, (), builder),
        call_ensures(<Config as Default>::default, (), config),
        call_ensures(ClientBuilder::prepare, (builder,), out),
    ensures
        builder@.endpoints@.len() == 0 && config.endpoints@.len() == 0,
        builder@.connect_timeout@ == config.connect_timeout@,
        builder@.gap_grace@ == config.gap_grace@,
        builder@.read_timeout@ == config.read_timeout@,
        builder@.ping_interval@ == config.ping_interval@,
        builder@.reconnect_min@ == config.reconnect_min@,
        builder@.reconnect_max@ == config.reconnect_max@,
        builder@.capacity == config.capacity,
        builder@.resume_after is None && config.resume_after is None,
        builder@.max_frame_bytes == config.max_frame_bytes,
        config.gap_grace@ == 250 * 1_000_000,
        config.connect_timeout@ == 10 * 1_000_000_000,
        config.read_timeout@ == 30 * 1_000_000_000,
        config.ping_interval@ == 15 * 1_000_000_000,
        config.reconnect_min@ == 250 * 1_000_000,
        config.reconnect_max@ == 10 * 1_000_000_000,
        config.capacity == 1024,
        config.max_frame_bytes == 16 * 1024 * 1024,
        out is Ok,
{
    sensible_settings_are_used(builder, out);
}

} // verus!
