//! Endpoints and tunables.

use vstd::prelude::*;
use vstd::string::*;

use crate::endpoint::{Endpoint, EndpointConfig};
use crate::error;
use crate::error::{Error, ErrorView};
use crate::text;
use crate::time::Duration;

verus! {

/// Sequencer feed for the Robinhood chain mainnet.
pub const MAINNET_FEED_URL: &'static str = "wss://feed.mainnet.chain.robinhood.com/feed";

/// Sequencer feed for the Robinhood chain testnet.
pub const TESTNET_FEED_URL: &'static str = "wss://feed.testnet.chain.robinhood.com/feed";

/// Chain id of the Robinhood chain mainnet.
pub const MAINNET_CHAIN_ID: u64 = 4663;

/// Chain id of the Robinhood chain testnet.
pub const TESTNET_CHAIN_ID: u64 = 46630;

/// Sent as `Arbitrum-Feed-Client-Version`, matching what Nitro's own feed
/// client reports.
pub const FEED_CLIENT_VERSION: &'static str = "2";

/// Everything a client can be told.
#[derive(Debug, Clone)]
pub struct Config {
    /// The relays to read. Empty stands for the mainnet default.
    pub endpoints: Vec<Endpoint>,
    /// Budget for opening a connection, from name resolution to the upgrade.
    pub connect_timeout: Duration,
    /// How long a gap is held open for another endpoint to fill.
    pub gap_grace: Duration,
    /// How long a connection may be silent.
    pub read_timeout: Duration,
    /// How often to send a websocket ping.
    pub ping_interval: Duration,
    /// The first delay between reconnection attempts.
    pub reconnect_min: Duration,
    /// The longest delay between reconnection attempts.
    pub reconnect_max: Duration,
    /// How many messages may sit buffered at each stage.
    pub capacity: usize,
    /// The last sequence number already processed.
    pub resume_after: Option<u64>,
    /// Largest websocket message to accept.
    pub max_frame_bytes: usize,
}

impl Default for Config {
    fn default() -> (out: Self)
        ensures
            out.endpoints@.len() == 0,
            out.connect_timeout@ == 10_000_000_000,
            out.gap_grace@ == 250_000_000,
            out.read_timeout@ == 30_000_000_000,
            out.ping_interval@ == 15_000_000_000,
            out.reconnect_min@ == 250_000_000,
            out.reconnect_max@ == 10_000_000_000,
            out.capacity == 1024,
            out.resume_after is None,
            out.max_frame_bytes == 16 * 1024 * 1024,
    {
        Self {
            // Empty stands for the mainnet default, which is filled in when
            // the client connects.
            endpoints: Vec::new(),
            // Covers DNS, TCP, TLS and the upgrade together. A peer that
            // accepts a connection and then says nothing would otherwise hold
            // the attempt open for as long as the kernel allows.
            connect_timeout: Duration::from_secs(10),
            // How long a gap is held open for another endpoint to fill before
            // it is reported. Long enough to cover an endpoint that is merely
            // slow — their lateness runs to about 190ms at the 90th
            // percentile — and short enough that confirming a real gap is not
            // itself a delay worth noticing.
            gap_grace: Duration::from_millis(250),
            // This chain produces about ten blocks a second and the relay
            // pings besides, so half a minute of complete silence means the
            // socket is dead rather than the chain being quiet.
            read_timeout: Duration::from_secs(30),
            ping_interval: Duration::from_secs(15),
            reconnect_min: Duration::from_millis(250),
            reconnect_max: Duration::from_secs(10),
            capacity: 1024,
            resume_after: None,
            max_frame_bytes: 16 * 1024 * 1024,
        }
    }
}

/// What is wrong with an endpoint, if anything is.
pub open spec fn endpoint_problem(endpoint: EndpointConfig) -> Option<ErrorView> {
    if endpoint.connections == 0 {
        Some(
            ErrorView::Config(
                "endpoint `"@ + endpoint.url + "` was given zero connections"@,
            ),
        )
    } else if target_of(endpoint.url) is None {
        Some(ErrorView::Url(endpoint.url))
    } else {
        None
    }
}

/// What is wrong with the first endpoint, from `from` on, that something is
/// wrong with.
pub open spec fn endpoints_problem(endpoints: Seq<Endpoint>, from: int) -> Option<ErrorView>
    decreases endpoints.len() - from,
{
    if from >= endpoints.len() {
        None
    } else {
        match endpoint_problem(endpoints[from]@) {
            Some(problem) => Some(problem),
            None => endpoints_problem(endpoints, from + 1),
        }
    }
}

impl Config {
    /// The first setting that does not make sense, endpoints aside.
    pub open spec fn settings_problem(self) -> Option<ErrorView> {
        if self.capacity == 0 {
            Some(ErrorView::Config("capacity must be at least 1"@))
        } else if self.ping_interval@ == 0 {
            Some(ErrorView::Config("ping_interval must not be zero"@))
        } else if self.read_timeout@ == 0 {
            Some(ErrorView::Config("read_timeout must not be zero"@))
        } else if self.connect_timeout@ == 0 {
            Some(ErrorView::Config("connect_timeout must not be zero"@))
        } else if self.reconnect_min@ > self.reconnect_max@ {
            Some(ErrorView::Config("reconnect_min must not exceed reconnect_max"@))
        } else {
            None
        }
    }

    /// The first thing that does not make sense, if anything does not.
    pub open spec fn problem(self) -> Option<ErrorView> {
        if self.endpoints@.len() == 0 {
            Some(ErrorView::Config("at least one endpoint is required"@))
        } else {
            match self.settings_problem() {
                Some(problem) => Some(problem),
                None => endpoints_problem(self.endpoints@, 0),
            }
        }
    }

    /// Refuse settings that do not make sense.
    pub fn validate(&self) -> (out: Result<(), Error>)
        ensures
            error::outcome(out) == match self.problem() {
                Some(problem) => Err(problem),
                None => Ok(()),
            },
    {
        if self.endpoints.len() == 0 {
            return Err(Error::Config("at least one endpoint is required".to_owned()));
        }
        if self.capacity == 0 {
            return Err(Error::Config("capacity must be at least 1".to_owned()));
        }
        // A timer with a zero period never settles, and a zero read budget
        // expires the moment it is granted.
        if self.ping_interval.is_zero() {
            return Err(Error::Config("ping_interval must not be zero".to_owned()));
        }
        if self.read_timeout.is_zero() {
            return Err(Error::Config("read_timeout must not be zero".to_owned()));
        }
        if self.connect_timeout.is_zero() {
            return Err(Error::Config("connect_timeout must not be zero".to_owned()));
        }
        if self.reconnect_min > self.reconnect_max {
            return Err(Error::Config("reconnect_min must not exceed reconnect_max".to_owned()));
        }
        let mut i: usize = 0;
        while i < self.endpoints.len()
            invariant
                i <= self.endpoints@.len(),
                self.problem() == endpoints_problem(self.endpoints@, i as int),
            decreases self.endpoints@.len() - i,
        {
            let endpoint = &self.endpoints[i];
            if endpoint.connection_count() == 0 {
                let mut reason = String::new();
                reason.append("endpoint `");
                reason.append(endpoint.url());
                reason.append("` was given zero connections");
                assert(reason@ =~= "endpoint `"@ + endpoint@.url
                    + "` was given zero connections"@);
                return Err(Error::Config(reason));
            }
            match Target::parse(endpoint.url()) {
                Ok(_) => {},
                Err(e) => {
                    return Err(e);
                },
            }
            i += 1;
        }
        Ok(())
    }
}

/// Whether `front` is what `text` starts with.
pub open spec fn starts_with(text: Seq<char>, front: Seq<char>) -> bool {
    text.len() >= front.len() && text.take(front.len() as int) == front
}

/// Whether a character ends the authority of a URL.
pub open spec fn ends_authority(c: char) -> bool {
    c == '/' || c == '?' || c == '#'
}

/// The front of a text up to where its authority ends.
pub open spec fn authority_of(text: Seq<char>) -> Seq<char>
    decreases text.len(),
{
    if text.len() == 0 || ends_authority(text[0]) {
        Seq::empty()
    } else {
        seq![text[0]] + authority_of(text.skip(1))
    }
}

/// Where a character first occurs, at or behind `from`.
pub open spec fn first_index(text: Seq<char>, c: char, from: int) -> Option<int>
    decreases text.len() - from,
{
    if from >= text.len() {
        None
    } else if text[from] == c {
        Some(from)
    } else {
        first_index(text, c, from + 1)
    }
}

/// Where a character last occurs in the first `len` characters.
pub open spec fn last_index(text: Seq<char>, c: char, len: int) -> Option<int>
    decreases len,
{
    if len <= 0 {
        None
    } else if text[len - 1] == c {
        Some(len - 1)
    } else {
        last_index(text, c, len - 1)
    }
}

/// The host in an authority, and the text of the port if it names one. An IPv6
/// literal is bracketed, so only behind the closing bracket is there a port.
pub open spec fn host_and_port(authority: Seq<char>) -> Option<(Seq<char>, Option<Seq<char>>)> {
    if authority.len() > 0 && authority[0] == '[' {
        match first_index(authority, ']', 1) {
            None => None,
            Some(close) => {
                let tail = authority.skip(close + 1);
                let port = if tail.len() > 0 && tail[0] == ':' {
                    Some(tail.skip(1))
                } else {
                    None
                };
                Some((authority.subrange(1, close), port))
            },
        }
    } else {
        match last_index(authority, ':', authority.len() as int) {
            None => Some((authority, None)),
            Some(colon) => Some((authority.take(colon), Some(authority.skip(colon + 1)))),
        }
    }
}

/// The port that a text names, 443 if there is none.
pub open spec fn port_of(port: Option<Seq<char>>) -> Option<nat> {
    match port {
        None => Some(443),
        Some(text) => text::unsigned_value(text, 10, u16::MAX as nat),
    }
}

/// Where a feed URL points, as text and a number.
pub struct TargetView {
    pub host: Seq<char>,
    pub port: nat,
}

/// The host and the port of a `wss://` URL, if it is one with a host.
pub open spec fn target_of(url: Seq<char>) -> Option<TargetView> {
    if !starts_with(url, "wss://"@) {
        None
    } else {
        match host_and_port(authority_of(url.skip(6))) {
            None => None,
            Some((host, port)) => match port_of(port) {
                Some(port) => if host.len() == 0 {
                    None
                } else {
                    Some(TargetView { host, port })
                },
                None => None,
            },
        }
    }
}

/// Where a feed URL points.
#[derive(Debug, Clone)]
pub struct Target {
    pub host: String,
    pub port: u16,
}

impl View for Target {
    type V = TargetView;

    open spec fn view(&self) -> TargetView {
        TargetView { host: self.host@, port: self.port as nat }
    }
}

/// Where the authority ends that starts at `from`.
fn authority_end(chars: &Vec<char>, from: usize) -> (end: usize)
    requires
        from <= chars@.len(),
    ensures
        from <= end <= chars@.len(),
        authority_of(chars@.skip(from as int)) == chars@.subrange(from as int, end as int),
{
    let mut end: usize = from;
    while end < chars.len() && !(chars[end] == '/' || chars[end] == '?' || chars[end] == '#')
        invariant
            from <= end <= chars@.len(),
            forall|i: int| from <= i < end ==> !ends_authority(#[trigger] chars@[i]),
        decreases chars@.len() - end,
    {
        end += 1;
    }
    proof {
        let text = chars@.skip(from as int);
        lemma_authority(text, end - from);
        assert(text.take(end - from) =~= chars@.subrange(from as int, end as int));
    }
    end
}

/// Where the host stands in a URL, and the port if it names one.
struct Layout {
    host_start: usize,
    host_end: usize,
    port_start: Option<usize>,
}

/// Find the host and the port in the authority between `start` and `end`.
fn layout_of(chars: &Vec<char>, start: usize, end: usize) -> (out: Option<Layout>)
    requires
        start <= end <= chars@.len(),
    ensures
        match (out, host_and_port(chars@.subrange(start as int, end as int))) {
            (None, None) => true,
            (Some(layout), Some((host, port))) => {
                &&& start <= layout.host_start <= layout.host_end <= end
                &&& host == chars@.subrange(layout.host_start as int, layout.host_end as int)
                &&& match (layout.port_start, port) {
                    (None, None) => true,
                    (Some(at), Some(port)) => at <= end && port == chars@.subrange(
                        at as int,
                        end as int,
                    ),
                    _ => false,
                }
            },
            _ => false,
        },
{
    let ghost authority = chars@.subrange(start as int, end as int);
    if start < end && chars[start] == '[' {
        let mut close: usize = start + 1;
        while close < end
            invariant
                start < close <= end <= chars@.len(),
                authority == chars@.subrange(start as int, end as int),
                authority[0] == '[',
                first_index(authority, ']', 1) == first_index(authority, ']', close - start),
            decreases end - close,
        {
            if chars[close] == ']' {
                let ghost tail = authority.skip(close - start + 1);
                assert(authority.subrange(1, close - start) =~= chars@.subrange(
                    start + 1,
                    close as int,
                ));
                let port_start = if close + 1 < end && chars[close + 1] == ':' {
                    assert(tail.skip(1) =~= chars@.subrange(close + 2, end as int));
                    Some(close + 2)
                } else {
                    None
                };
                return Some(Layout { host_start: start + 1, host_end: close, port_start });
            }
            close += 1;
        }
        return None;
    }
    let mut colon: usize = end;
    while colon > start
        invariant
            start <= colon <= end <= chars@.len(),
            authority == chars@.subrange(start as int, end as int),
            authority.len() == 0 || authority[0] != '[',
            last_index(authority, ':', authority.len() as int) == last_index(
                authority,
                ':',
                colon - start,
            ),
        decreases colon,
    {
        if chars[colon - 1] == ':' {
            assert(authority.take(colon - 1 - start) =~= chars@.subrange(
                start as int,
                colon - 1,
            ));
            assert(authority.skip(colon - start) =~= chars@.subrange(colon as int, end as int));
            return Some(
                Layout { host_start: start, host_end: colon - 1, port_start: Some(colon) },
            );
        }
        colon -= 1;
    }
    Some(Layout { host_start: start, host_end: end, port_start: None })
}

impl Target {
    /// Pull the host and port out of a `wss://` URL.
    ///
    /// Only `wss` is accepted. Accepting `ws` as well would mean carrying a
    /// second stream type through the connection code for relays that are all
    /// TLS terminated.
    pub fn parse(url: &str) -> (out: Result<Self, Error>)
        ensures
            match target_of(url@) {
                Some(target) => out matches Ok(found) && found@ == target,
                None => out matches Err(Error::Url(given)) && given@ == url@,
            },
    {
        let chars = text::chars_of(url);
        proof {
            reveal_strlit("wss://");
        }
        if chars.len() < 6 || !(chars[0] == 'w' && chars[1] == 's' && chars[2] == 's' && chars[3]
            == ':' && chars[4] == '/' && chars[5] == '/') {
            proof {
                if starts_with(url@, "wss://"@) {
                    let front = url@.take(6);
                    assert(front[0] == 'w' && front[1] == 's' && front[2] == 's' && front[3] == ':'
                        && front[4] == '/' && front[5] == '/');
                }
            }
            return Err(Error::Url(url.to_owned()));
        }
        assert(url@.take(6) =~= "wss://"@);
        let end = authority_end(&chars, 6);
        let layout = match layout_of(&chars, 6, end) {
            Some(layout) => layout,
            None => {
                return Err(Error::Url(url.to_owned()));
            },
        };
        if layout.host_start == layout.host_end {
            return Err(Error::Url(url.to_owned()));
        }
        let port: u16 = match layout.port_start {
            None => 443,
            Some(at) => match text::parse_unsigned(
                url.substring_char(at, end),
                10,
                u16::MAX as u128,
            ) {
                Some(port) => port as u16,
                None => {
                    return Err(Error::Url(url.to_owned()));
                },
            },
        };
        Ok(
            Self {
                host: url.substring_char(layout.host_start, layout.host_end).to_owned(),
                port,
            },
        )
    }
}

/// Settings that were not refused can be worked with: there is room for
/// messages, every span that has to be is longer than nothing, the backoff has
/// its floor below its ceiling, and every endpoint has a connection and a host
/// to make it to.
pub proof fn accepted_settings_work(config: Config, i: int)
    requires
        config.problem() is None,
        0 <= i < config.endpoints@.len(),
    ensures
        config.capacity > 0,
        config.ping_interval@ > 0,
        config.read_timeout@ > 0,
        config.connect_timeout@ > 0,
        config.reconnect_min@ <= config.reconnect_max@,
        config.endpoints@[i]@.connections > 0,
        target_of(config.endpoints@[i]@.url) is Some,
{
    lemma_endpoints_work(config.endpoints@, 0, i);
}

proof fn lemma_endpoints_work(endpoints: Seq<Endpoint>, from: int, i: int)
    requires
        endpoints_problem(endpoints, from) is None,
        0 <= from <= i < endpoints.len(),
    ensures
        endpoint_problem(endpoints[i]@) is None,
    decreases i - from,
{
    if from < i {
        lemma_endpoints_work(endpoints, from + 1, i);
    }
}

/// The mainnet URL points where it should.
pub proof fn mainnet_has_a_host()
    ensures
        target_of(MAINNET_FEED_URL@) == Some(
            TargetView { host: "feed.mainnet.chain.robinhood.com"@, port: 443 },
        ),
{
    reveal_strlit("wss://");
    reveal_strlit("wss://feed.mainnet.chain.robinhood.com/feed");
    reveal_strlit("feed.mainnet.chain.robinhood.com");
    let url = MAINNET_FEED_URL@;
    let host = "feed.mainnet.chain.robinhood.com"@;
    assert(url.take(6) =~= "wss://"@);
    let rest = url.skip(6);
    assert(rest.take(32) =~= host);
    assert(rest[32] == '/');
    lemma_authority(rest, 32);
    lemma_no_index(host, ':', 32);
}

/// The authority ends where the first character is that ends it, or with the
/// text.
proof fn lemma_authority(text: Seq<char>, len: int)
    requires
        0 <= len <= text.len(),
        len == text.len() || ends_authority(text[len]),
        forall|i: int| 0 <= i < len ==> !ends_authority(#[trigger] text[i]),
    ensures
        authority_of(text) == text.take(len),
    decreases len,
{
    if len > 0 {
        lemma_authority(text.skip(1), len - 1);
        assert(seq![text[0]] + text.skip(1).take(len - 1) =~= text.take(len));
    } else {
        assert(text.take(0) =~= Seq::empty());
    }
}

/// What does not occur has no place.
proof fn lemma_no_index(text: Seq<char>, c: char, len: int)
    requires
        0 <= len <= text.len(),
        forall|i: int| 0 <= i < len ==> #[trigger] text[i] != c,
    ensures
        last_index(text, c, len) is None,
    decreases len,
{
    if len > 0 {
        lemma_no_index(text, c, len - 1);
    }
}

/// Whether an endpoint can be worked with: it has a connection, and its URL
/// names a host.
pub open spec fn endpoint_works(endpoint: Endpoint) -> bool {
    endpoint@.connections >= 1 && target_of(endpoint@.url) is Some
}

/// Whether the settings, endpoints aside, can be worked with.
pub open spec fn settings_work(config: Config) -> bool {
    &&& config.capacity >= 1
    &&& config.ping_interval@ > 0
    &&& config.read_timeout@ > 0
    &&& config.connect_timeout@ > 0
    &&& config.reconnect_min@ <= config.reconnect_max@
}

/// Settings that make sense are accepted, and no others are: there is room for
/// a message, no span that has to last is nothing, the first delay is at most
/// the longest, and every one of at least one endpoints has one connection or
/// more and a URL with a host.
pub proof fn sensible_settings_are_accepted(config: &Config, out: Result<(), Error>)
    requires
        call_ensures(Config::validate, (config,), out),
    ensures
        out is Ok <==> {
            &&& config.endpoints@.len() >= 1
            &&& settings_work(*config)
            &&& forall|i: int|
                0 <= i < config.endpoints@.len() ==> endpoint_works(#[trigger] config.endpoints@[i])
        },
{
    lemma_all_work(config.endpoints@, 0);
}

/// Endpoints have no problem exactly when every one of them works.
pub proof fn lemma_all_work(endpoints: Seq<Endpoint>, from: int)
    requires
        0 <= from <= endpoints.len(),
    ensures
        endpoints_problem(endpoints, from) is None <==> forall|i: int|
            from <= i < endpoints.len() ==> endpoint_works(#[trigger] endpoints[i]),
    decreases endpoints.len() - from,
{
    if from < endpoints.len() {
        lemma_all_work(endpoints, from + 1);
        if endpoint_problem(endpoints[from]@) is None {
            assert(endpoint_works(endpoints[from]));
        } else {
            assert(!endpoint_works(endpoints[from]));
        }
    }
}

/// What is refused is refused for what is wrong with it. A URL that points
/// nowhere is given back if everything else is in order, and of several
/// endpoints it is the first that does not work that is named.
pub proof fn first_bad_endpoint_is_named(config: &Config, out: Result<(), Error>, bad: int)
    requires
        call_ensures(Config::validate, (config,), out),
        settings_work(*config),
        0 <= bad < config.endpoints@.len(),
        !endpoint_works(config.endpoints@[bad]),
        forall|i: int| 0 <= i < bad ==> endpoint_works(#[trigger] config.endpoints@[i]),
    ensures
        config.endpoints@[bad]@.connections >= 1 ==> (out matches Err(Error::Url(url)) && url@
            == config.endpoints@[bad]@.url),
        config.endpoints@[bad]@.connections == 0 ==> (out matches Err(Error::Config(reason))
            && exists|at: int|
            0 <= at && at + config.endpoints@[bad]@.url.len() <= reason@.len()
                && #[trigger] reason@.subrange(at, at + config.endpoints@[bad]@.url.len())
                == config.endpoints@[bad]@.url),
{
    lemma_first_bad(config.endpoints@, 0, bad);
    let url = config.endpoints@[bad]@.url;
    let front = "endpoint `"@;
    let text = front + url + "` was given zero connections"@;
    assert(text.subrange(front.len() as int, (front.len() + url.len()) as int) =~= url);
}

proof fn lemma_first_bad(endpoints: Seq<Endpoint>, from: int, bad: int)
    requires
        0 <= from <= bad < endpoints.len(),
        !endpoint_works(endpoints[bad]),
        forall|i: int| from <= i < bad ==> endpoint_works(#[trigger] endpoints[i]),
    ensures
        endpoints_problem(endpoints, from) == endpoint_problem(endpoints[bad]@),
        endpoint_problem(endpoints[bad]@) is Some,
    decreases bad - from,
{
    if from < bad {
        assert(endpoint_works(endpoints[from]));
        lemma_first_bad(endpoints, from + 1, bad);
    }
}

/// Whether settings have a fault, in the order in which faults are looked for:
/// no endpoint, no room, no time between pings, none to read, none to connect,
/// and a first delay longer than the longest.
pub open spec fn has_fault(config: Config, which: int) -> bool {
    ||| which == 0 && config.endpoints@.len() == 0
    ||| which == 1 && config.capacity == 0
    ||| which == 2 && config.ping_interval@ == 0
    ||| which == 3 && config.read_timeout@ == 0
    ||| which == 4 && config.connect_timeout@ == 0
    ||| which == 5 && config.reconnect_min@ > config.reconnect_max@
}

/// Whether a fault is the first that settings have.
pub open spec fn first_fault(config: Config, which: int) -> bool {
    has_fault(config, which) && forall|earlier: int|
        0 <= earlier < which ==> !#[trigger] has_fault(config, earlier)
}

/// Settings that do not make sense are refused as such, not as a bad URL, and
/// told apart by the first thing that is wrong with them, whatever else is.
pub proof fn bad_settings_are_told_apart(
    config: &Config,
    out: Result<(), Error>,
    which: int,
    other: &Config,
    other_out: Result<(), Error>,
    other_which: int,
)
    requires
        call_ensures(Config::validate, (config,), out),
        call_ensures(Config::validate, (other,), other_out),
        first_fault(*config, which),
        first_fault(*other, other_which),
    ensures
        out matches Err(Error::Config(reason)) && (other_out matches Err(Error::Config(also)) && (
        reason@ == also@ <==> which == other_which)),
{
    reveal_strlit("at least one endpoint is required");
    reveal_strlit("capacity must be at least 1");
    reveal_strlit("ping_interval must not be zero");
    reveal_strlit("read_timeout must not be zero");
    reveal_strlit("connect_timeout must not be zero");
    reveal_strlit("reconnect_min must not exceed reconnect_max");
    lemma_fault(*config, which);
    lemma_fault(*other, other_which);
    lemma_refusal(out);
    lemma_refusal(other_out);
    assert("connect_timeout must not be zero"@[0] == 'c');
    assert("at least one endpoint is required"@[0] == 'a');
    assert("ping_interval must not be zero"@[0] == 'p');
    assert("read_timeout must not be zero"@[0] == 'r' && "read_timeout must not be zero"@[2]
        == 'a');
    assert("reconnect_min must not exceed reconnect_max"@[2] == 'c');
    assert("capacity must be at least 1"@[1] == 'a' && "connect_timeout must not be zero"@[1]
        == 'o');
}

spec fn fault_text(which: int) -> Seq<char> {
    if which == 0 {
        "at least one endpoint is required"@
    } else if which == 1 {
        "capacity must be at least 1"@
    } else if which == 2 {
        "ping_interval must not be zero"@
    } else if which == 3 {
        "read_timeout must not be zero"@
    } else if which == 4 {
        "connect_timeout must not be zero"@
    } else {
        "reconnect_min must not exceed reconnect_max"@
    }
}

proof fn lemma_fault(config: Config, which: int)
    requires
        first_fault(config, which),
    ensures
        config.problem() == Some(ErrorView::Config(fault_text(which))),
        0 <= which <= 5,
{
    assert(which > 0 ==> !has_fault(config, 0));
    assert(which > 1 ==> !has_fault(config, 1));
    assert(which > 2 ==> !has_fault(config, 2));
    assert(which > 3 ==> !has_fault(config, 3));
    assert(which > 4 ==> !has_fault(config, 4));
}

proof fn lemma_refusal(out: Result<(), Error>)
    ensures
        error::outcome(out) matches Err(ErrorView::Config(reason)) ==> (
        out matches Err(Error::Config(given)) && given@ == reason),
{
}

/// Whether the authority of a URL ends where `rest` begins.
pub open spec fn authority_ends_before(authority: Seq<char>, rest: Seq<char>) -> bool {
    &&& forall|i: int|
        0 <= i < authority.len() ==> #[trigger] authority[i] != '/' && authority[i] != '?'
            && authority[i] != '#'
    &&& rest.len() > 0 ==> rest[0] == '/' || rest[0] == '?' || rest[0] == '#'
}

/// Whether a character does not occur in a text.
pub open spec fn lacks(text: Seq<char>, c: char) -> bool {
    forall|i: int| 0 <= i < text.len() ==> #[trigger] text[i] != c
}

/// A URL of a host alone points to that host, at port 443, whatever path,
/// query or fragment follows.
pub proof fn host_alone_is_read(host: Seq<char>, rest: Seq<char>)
    requires
        authority_ends_before(host, rest),
        lacks(host, ':'),
        host.len() > 0 ==> host[0] != '[',
    ensures
        target_of("wss://"@ + host + rest) == if host.len() > 0 {
            Some(TargetView { host, port: 443 })
        } else {
            None
        },
{
    lemma_authority_of_url(host, rest);
    lemma_no_index(host, ':', host.len() as int);
}

/// A port stands behind the last colon. The URL points there if it is a number
/// that a port can be, and to nowhere if it is not, or if there is no host.
pub proof fn port_is_read(host: Seq<char>, port: Seq<char>, rest: Seq<char>)
    requires
        authority_ends_before(host + seq![':'] + port, rest),
        lacks(port, ':'),
        host.len() > 0 ==> host[0] != '[',
    ensures
        target_of("wss://"@ + host + seq![':'] + port + rest) == match text::unsigned_value(
            port,
            10,
            65535,
        ) {
            Some(number) => if host.len() > 0 {
                Some(TargetView { host, port: number })
            } else {
                None
            },
            None => None,
        },
{
    let authority = host + seq![':'] + port;
    lemma_authority_of_url(authority, rest);
    assert("wss://"@ + host + seq![':'] + port + rest =~= "wss://"@ + authority + rest);
    assert(authority[host.len() as int] == ':');
    assert forall|i: int| host.len() + 1 <= i < authority.len() implies #[trigger] authority[i]
        != ':' by {
        assert(authority[i] == port[i - host.len() - 1]);
    }
    lemma_last_index(authority, ':', authority.len() as int, host.len() as int);
    assert(authority.take(host.len() as int) =~= host);
    assert(authority.skip((host.len() + 1) as int) =~= port);
    assert(authority[0] != '[') by {
        if host.len() > 0 {
            assert(authority[0] == host[0]);
        }
    }
}

/// A host in brackets is read without them, colons and all. Behind the closing
/// one there may be a port; anything else there is passed over.
pub proof fn bracketed_host_is_read(
    host: Seq<char>,
    port: Seq<char>,
    other: Seq<char>,
    rest: Seq<char>,
)
    requires
        authority_ends_before(seq!['['] + host + seq![']', ':'] + port, rest),
        authority_ends_before(seq!['['] + host + seq![']'] + other, rest),
        lacks(host, ']'),
        other.len() > 0 ==> other[0] != ':',
        host.len() > 0,
    ensures
        target_of("wss://"@ + (seq!['['] + host + seq![']', ':'] + port) + rest)
            == match text::unsigned_value(port, 10, 65535) {
            Some(number) => Some(TargetView { host, port: number }),
            None => None,
        },
        target_of("wss://"@ + (seq!['['] + host + seq![']'] + other) + rest) == Some(
            TargetView { host, port: 443 },
        ),
{
    let close: int = (host.len() + 1) as int;
    let a = seq!['['] + host + seq![']', ':'] + port;
    lemma_authority_of_url(a, rest);
    assert forall|i: int| 1 <= i < close implies #[trigger] a[i] != ']' by {
        assert(a[i] == host[i - 1]);
    }
    assert(a[0] == '[' && a[close] == ']');
    lemma_first_index(a, ']', 1, close);
    assert(a.subrange(1, close) =~= host);
    assert(a.skip(close + 1) =~= seq![':'] + port);
    assert((seq![':'] + port).skip(1) =~= port);
    let b = seq!['['] + host + seq![']'] + other;
    lemma_authority_of_url(b, rest);
    assert forall|i: int| 1 <= i < close implies #[trigger] b[i] != ']' by {
        assert(b[i] == host[i - 1]);
    }
    assert(b[0] == '[' && b[close] == ']');
    lemma_first_index(b, ']', 1, close);
    assert(b.subrange(1, close) =~= host);
    assert(b.skip(close + 1) =~= other);
}

/// Brackets that are not closed, or that nothing stands in, point nowhere; nor
/// does anything that does not start with `wss://`.
pub proof fn what_points_nowhere(
    host: Seq<char>,
    behind: Seq<char>,
    rest: Seq<char>,
    url: Seq<char>,
)
    requires
        authority_ends_before(seq!['['] + host, rest),
        authority_ends_before(seq!['[', ']'] + behind, rest),
        lacks(host, ']'),
        url.len() < 6 || url.take(6) != "wss://"@,
    ensures
        target_of("wss://"@ + (seq!['['] + host) + rest) is None,
        target_of("wss://"@ + (seq!['[', ']'] + behind) + rest) is None,
        target_of(url) is None,
{
    reveal_strlit("wss://");
    let a = seq!['['] + host;
    lemma_authority_of_url(a, rest);
    assert forall|i: int| 1 <= i < a.len() implies #[trigger] a[i] != ']' by {
        assert(a[i] == host[i - 1]);
    }
    lemma_no_first_index(a, ']', 1);
    let b = seq!['[', ']'] + behind;
    lemma_authority_of_url(b, rest);
    assert(b[0] == '[' && b[1] == ']');
    lemma_first_index(b, ']', 1, 1);
    assert(b.subrange(1, 1) =~= Seq::empty());
}

proof fn lemma_authority_of_url(authority: Seq<char>, rest: Seq<char>)
    requires
        authority_ends_before(authority, rest),
    ensures
        starts_with("wss://"@ + authority + rest, "wss://"@),
        authority_of(("wss://"@ + authority + rest).skip(6)) == authority,
        "wss://"@.len() == 6,
{
    reveal_strlit("wss://");
    let url = "wss://"@ + authority + rest;
    assert(url.take(6) =~= "wss://"@);
    assert(url.skip(6) =~= authority + rest);
    let text = authority + rest;
    assert forall|i: int| 0 <= i < authority.len() implies !ends_authority(#[trigger] text[i]) by {
        assert(text[i] == authority[i]);
    }
    if rest.len() > 0 {
        assert(text[authority.len() as int] == rest[0]);
    }
    lemma_authority(text, authority.len() as int);
    assert(text.take(authority.len() as int) =~= authority);
}

proof fn lemma_last_index(text: Seq<char>, c: char, len: int, at: int)
    requires
        0 <= at < len <= text.len(),
        text[at] == c,
        forall|i: int| at < i < len ==> #[trigger] text[i] != c,
    ensures
        last_index(text, c, len) == Some(at),
    decreases len,
{
    if at < len - 1 {
        lemma_last_index(text, c, len - 1, at);
    }
}

proof fn lemma_first_index(text: Seq<char>, c: char, from: int, at: int)
    requires
        0 <= from <= at < text.len(),
        text[at] == c,
        forall|i: int| from <= i < at ==> #[trigger] text[i] != c,
    ensures
        first_index(text, c, from) == Some(at),
    decreases at - from,
{
    if from < at {
        lemma_first_index(text, c, from + 1, at);
    }
}

proof fn lemma_no_first_index(text: Seq<char>, c: char, from: int)
    requires
        0 <= from <= text.len(),
        forall|i: int| from <= i < text.len() ==> #[trigger] text[i] != c,
    ensures
        first_index(text, c, from) is None,
    decreases text.len() - from,
{
    if from < text.len() {
        lemma_no_first_index(text, c, from + 1);
    }
}

/// Reading a URL gives where it points, and gives it back if that is nowhere.
pub proof fn urls_point_somewhere_or_come_back(url: &str, out: Result<Target, Error>)
    requires
        call_ensures(Target::parse, (url,), out),
    ensures
        out is Ok <==> target_of(url@) is Some,
        out matches Ok(target) ==> target_of(url@) == Some(
            TargetView { host: target.host@, port: target.port as nat },
        ),
        out matches Err(e) ==> e@ == ErrorView::Url(url@),
{
}

} // verus!
