//! One websocket connection to the relay, kept up: what is decided along the
//! way.
//!
//! Dialling, sleeping and reading are someone else's. Whoever does them says
//! what came of it, and is told what to do next.

use vstd::prelude::*;
use vstd::string::*;

use crate::config::Config;
use crate::endpoint::{EndpointState, EndpointView};
use crate::error::{Error, ErrorView};
use crate::time;
use crate::time::{Duration, Instant};

verus! {

/// What a step of dialling failed with.
pub enum DialFailure {
    /// Name resolution.
    Resolve {
        host: String,
        reason: String,
    },
    /// Every address refused; why the last one did, if there was one.
    Unreachable {
        last: Option<String>,
    },
    /// The host is not one that a certificate can name, or the URL is not one
    /// that a request can be made to.
    BadUrl,
    /// The TLS handshake.
    Tls {
        reason: String,
    },
    /// The relay answered the upgrade with this HTTP status.
    Status {
        status: u16,
    },
    /// The websocket upgrade.
    Upgrade {
        reason: String,
    },
}

/// The error that a failure to dial `url` is reported as.
pub open spec fn dial_error(url: Seq<char>, failure: DialFailure) -> ErrorView {
    match failure {
        DialFailure::Resolve { host, reason } => ErrorView::Dns { host: host@, source: reason@ },
        DialFailure::Unreachable { last } => ErrorView::Connect {
            url,
            message: match last {
                Some(last) => last@,
                None => "hostname resolved to no addresses"@,
            },
        },
        DialFailure::BadUrl => ErrorView::Url(url),
        DialFailure::Tls { reason } => ErrorView::Connect {
            url,
            message: "TLS handshake failed: "@ + reason@,
        },
        // A status instead of a 101 means the relay is up and has turned this
        // connection away, which is a different problem from not reaching it
        // at all.
        DialFailure::Status { status } => ErrorView::Rejected { url, status },
        DialFailure::Upgrade { reason } => ErrorView::Connect {
            url,
            message: "websocket upgrade failed: "@ + reason@,
        },
    }
}

/// Two texts, one behind the other.
fn join(front: &str, back: &str) -> (out: String)
    ensures
        out@ == front@ + back@,
{
    let mut out = front.to_owned();
    out.append(back);
    out
}

impl DialFailure {
    /// The error that this failure to dial `url` is reported as.
    pub fn into_error(self, url: &str) -> (out: Error)
        ensures
            out@ == dial_error(url@, self),
    {
        match self {
            Self::Resolve { host, reason } => Error::Dns { host, source: reason },
            Self::Unreachable { last } => Error::Connect {
                url: url.to_owned(),
                message: match last {
                    Some(last) => last,
                    None => "hostname resolved to no addresses".to_owned(),
                },
            },
            Self::BadUrl => Error::Url(url.to_owned()),
            Self::Tls { reason } => Error::Connect {
                url: url.to_owned(),
                message: join("TLS handshake failed: ", reason.as_str()),
            },
            Self::Status { status } => Error::Rejected { url: url.to_owned(), status },
            Self::Upgrade { reason } => Error::Connect {
                url: url.to_owned(),
                message: join("websocket upgrade failed: ", reason.as_str()),
            },
        }
    }
}

/// The addresses of a host that were tried, one after the other. The first
/// that answers is taken.
pub struct Attempts {
    last: Option<String>,
}

impl View for Attempts {
    type V = Option<Seq<char>>;

    /// Why the last one refused, if any was tried.
    closed spec fn view(&self) -> Option<Seq<char>> {
        match self.last {
            Some(reason) => Some(reason@),
            None => None,
        }
    }
}

impl Attempts {
    /// No address tried yet.
    pub fn new() -> (out: Self)
        ensures
            out@ is None,
    {
        Self { last: None }
    }

    /// An address refused.
    pub fn refused(&mut self, reason: String)
        ensures
            final(self)@ == Some(reason@),
    {
        self.last = Some(reason);
    }

    /// What dialling failed with, now that every address refused: why the last
    /// one did. A host without addresses is said to have none.
    pub fn into_failure(self) -> (out: DialFailure)
        ensures
            forall|url: Seq<char>| #[trigger]
                dial_error(url, out) == (ErrorView::Connect {
                    url,
                    message: match self@ {
                        Some(reason) => reason,
                        None => "hostname resolved to no addresses"@,
                    },
                }),
    {
        DialFailure::Unreachable { last: self.last }
    }
}

/// What came of dialling.
pub enum Dialled {
    /// The connection is up.
    Connected,
    /// It could not be established.
    Failed(Error),
    /// It was not established within this long; in words.
    TimedOut(String),
}

/// Why an attempt at staying connected ended.
pub enum Ended {
    /// A connection that had been established went away: the peer closed, the
    /// socket broke, or nothing arrived in time.
    Dropped(String),
    /// A connection was never established.
    Failed(String),
    /// The client is going away and nothing should be retried.
    Shutdown,
}

/// What to do once dialling is over.
pub struct AfterDial {
    /// What to report of this first attempt. `None` from the second on.
    pub report: Option<Result<(), Error>>,
    /// Why the attempt is over, or `None` to read from the connection.
    pub ended: Option<Ended>,
}

/// What the supervisor of a connection knows.
#[verifier::ext_equal]
pub struct SupervisorView {
    /// Which connection of its endpoint it is.
    pub id: nat,
    /// The delay before the next attempt, in nanoseconds.
    pub backoff: nat,
    /// Whether its first attempt has been reported.
    pub reported: bool,
    /// The first and the longest delay.
    pub min: nat,
    pub max: nat,
}

/// The lesser of two numbers.
pub open spec fn lesser(a: nat, b: nat) -> nat {
    if a <= b {
        a
    } else {
        b
    }
}

impl SupervisorView {
    /// Nothing tried yet.
    pub open spec fn fresh(id: nat, min: nat, max: nat) -> Self {
        SupervisorView { id, backoff: min, reported: false, min, max }
    }

    /// Whether the delay is between the first and the longest.
    pub open spec fn wf(self) -> bool {
        self.min <= self.backoff <= self.max
    }

    /// Dialling is over: a connection that came up starts the backoff over,
    /// and a refusal is not a blip, so it goes straight to the ceiling.
    pub open spec fn dialled(self, dialled: Dialled) -> Self {
        SupervisorView {
            reported: true,
            backoff: match dialled {
                Dialled::Connected => self.min,
                Dialled::Failed(Error::Rejected { .. }) => self.max,
                _ => self.backoff,
            },
            ..self
        }
    }

    /// What is added to the delay to keep the connections of one endpoint from
    /// returning at the same instant.
    pub open spec fn stagger(self) -> nat {
        self.min * lesser(self.id, u32::MAX as nat)
    }

    /// How long to wait before the next attempt.
    pub open spec fn delay(self) -> nat {
        lesser(self.backoff + self.stagger(), self.max)
    }

    /// Whether there is a span as long as the backoff and the stagger together.
    pub open spec fn delay_exists(self) -> bool {
        self.backoff + self.stagger() <= time::max_nanos()
    }

    /// The attempt after this one waits twice as long, up to the ceiling.
    pub open spec fn backed_off(self) -> Self {
        SupervisorView { backoff: lesser(self.backoff * 2, self.max), ..self }
    }
}

/// That dialling took longer than `budget`.
pub open spec fn timed_out_after(budget: Seq<char>) -> Seq<char> {
    "dialling timed out after "@ + budget
}

/// What is to be reported of an attempt to dial `url`.
pub open spec fn report_of(url: Seq<char>, dialled: Dialled) -> Result<(), ErrorView> {
    match dialled {
        Dialled::Connected => Ok(()),
        Dialled::Failed(e) => Err(e@),
        Dialled::TimedOut(budget) => Err(
            ErrorView::Connect { url, message: timed_out_after(budget@) },
        ),
    }
}

/// Why an attempt that did not come up is over.
pub open spec fn failure_of(dialled: Dialled) -> Option<Seq<char>> {
    match dialled {
        Dialled::Connected => None,
        Dialled::Failed(e) => Some(e@.text()),
        Dialled::TimedOut(budget) => Some(timed_out_after(budget@)),
    }
}

/// What becomes of an endpoint when an attempt on it ends.
pub open spec fn endpoint_after(endpoint: EndpointView, ended: Ended) -> EndpointView {
    match ended {
        Ended::Dropped(reason) => endpoint.disconnected(reason@),
        Ended::Failed(reason) => endpoint.failed(reason@),
        Ended::Shutdown => endpoint,
    }
}

/// Keeps one connection to the feed up for as long as anyone is listening.
pub struct Supervisor {
    id: usize,
    backoff: Duration,
    reported: bool,
    min: Duration,
    max: Duration,
}

impl View for Supervisor {
    type V = SupervisorView;

    closed spec fn view(&self) -> SupervisorView {
        SupervisorView {
            id: self.id as nat,
            backoff: self.backoff@,
            reported: self.reported,
            min: self.min@,
            max: self.max@,
        }
    }
}

impl Supervisor {
    /// The supervisor of connection `id` of an endpoint.
    pub fn new(id: usize, config: &Config) -> (out: Self)
        ensures
            out@ == SupervisorView::fresh(
                id as nat,
                config.reconnect_min@,
                config.reconnect_max@,
            ),
    {
        Self {
            id,
            backoff: config.reconnect_min,
            reported: false,
            min: config.reconnect_min,
            max: config.reconnect_max,
        }
    }

    /// Take in what came of dialling.
    ///
    /// The first attempt is reported either way, so a caller learns about a
    /// typo or a dead route instead of waiting on a client that will never
    /// yield.
    pub fn dialled(&mut self, endpoint: &mut EndpointState, dialled: Dialled) -> (out: AfterDial)
        requires
            old(endpoint).wf(),
        ensures
            final(self)@ == old(self)@.dialled(dialled),
            final(endpoint).wf(),
            final(endpoint)@ == if dialled is Connected {
                old(endpoint)@.connected()
            } else {
                old(endpoint)@
            },
            if old(self)@.reported {
                out.report is None
            } else {
                match report_of(old(endpoint)@.url, dialled) {
                    Ok(()) => out.report == Some(Ok::<(), Error>(())),
                    Err(e) => out.report matches Some(Err(given)) && given@ == e,
                }
            },
            match failure_of(dialled) {
                None => out.ended is None,
                Some(why) => out.ended matches Some(Ended::Failed(reason)) && reason@ == why,
            },
    {
        let first = !self.reported;
        self.reported = true;
        match dialled {
            Dialled::Connected => {
                endpoint.connected();
                self.backoff = self.min;
                let report = if first {
                    Some(Ok(()))
                } else {
                    None
                };
                AfterDial { report, ended: None }
            },
            Dialled::Failed(e) => {
                let reason = e.to_string();
                // A refusal is not a blip. Climbing the backoff from its floor
                // would spend several attempts on an endpoint that has already
                // answered, so start at the ceiling.
                if matches!(e, Error::Rejected { .. }) {
                    self.backoff = self.max;
                }
                let report = if first {
                    Some(Err(e))
                } else {
                    None
                };
                AfterDial { report, ended: Some(Ended::Failed(reason)) }
            },
            Dialled::TimedOut(budget) => {
                let message = join("dialling timed out after ", budget.as_str());
                let report = if first {
                    Some(
                        Err(
                            Error::Connect {
                                url: endpoint.url().to_owned(),
                                message: message.clone(),
                            },
                        ),
                    )
                } else {
                    None
                };
                AfterDial { report, ended: Some(Ended::Failed(message)) }
            },
        }
    }

    /// Record against the endpoint why an attempt ended. Returns whether to go
    /// on, which is not the case when the client is going away.
    pub fn ended(endpoint: &mut EndpointState, ended: &Ended) -> (out: bool)
        requires
            old(endpoint).wf(),
        ensures
            final(endpoint).wf(),
            final(endpoint)@ == endpoint_after(old(endpoint)@, *ended),
            out <==> !(ended is Shutdown),
    {
        match ended {
            Ended::Shutdown => false,
            Ended::Dropped(reason) => {
                endpoint.disconnected(reason.as_str());
                true
            },
            Ended::Failed(reason) => {
                endpoint.failed(reason.as_str());
                true
            },
        }
    }

    /// How long to wait before dialling again. The wait after that is twice as
    /// long. `None`, with nothing changed, if there is no span that long.
    ///
    /// Staggers the connections within an endpoint, so several sockets to one
    /// relay do not return at the same instant. Endpoints are not staggered
    /// against each other: they are separate hosts, and delaying one would
    /// only make the fastest of them come back later.
    pub fn back_off(&mut self) -> (out: Option<Duration>)
        ensures
            match out {
                Some(delay) => {
                    &&& old(self)@.delay_exists()
                    &&& delay@ == old(self)@.delay()
                    &&& final(self)@ == old(self)@.backed_off()
                },
                None => !old(self)@.delay_exists() && final(self)@ == old(self)@,
            },
            old(self)@.id == 0 ==> out is Some,
    {
        let times: u32 = if self.id <= u32::MAX as usize {
            self.id as u32
        } else {
            u32::MAX
        };
        assert(times == 0 ==> self.min@ * times as nat == 0) by (nonlinear_arith);
        let stagger = match self.min.checked_mul(times) {
            Some(stagger) => stagger,
            None => {
                return None;
            },
        };
        let sum = match self.backoff.checked_add(stagger) {
            Some(sum) => sum,
            None => {
                return None;
            },
        };
        let delay = sum.min(self.max);
        self.backoff = match self.backoff.checked_mul(2) {
            Some(doubled) => doubled.min(self.max),
            // Twice the backoff is beyond every span, so beyond the ceiling.
            None => self.max,
        };
        Some(delay)
    }
}

/// What arrived on an open connection, or did not.
pub enum Arrival {
    /// A frame with something to parse.
    Payload(Vec<u8>),
    /// A ping, a pong or part of a frame. Neither carries anything to parse,
    /// but each renews the read budget, which is what keeps a quiet chain from
    /// being mistaken for a dead socket.
    Control,
    /// A close frame.
    Close,
    /// The end of the stream.
    End,
    /// The socket broke; in words.
    Broken(String),
    /// Nothing arrived for this long; in words.
    Silence(String),
    /// A ping could not be sent; in words.
    PingFailed(String),
    /// The client is going away.
    Shutdown,
}

/// What to do about an arrival.
pub enum Reaction {
    /// Parse this frame, then read on.
    Parse(Vec<u8>),
    /// Read on.
    Continue,
    /// Stop reading.
    Stop(Ended),
}

/// Whether an arrival is a frame, which renews the read budget.
pub open spec fn is_frame(arrival: Arrival) -> bool {
    arrival is Payload || arrival is Control || arrival is Close
}

/// Why an arrival ends the connection, if it does.
pub open spec fn drop_reason(arrival: Arrival) -> Option<Seq<char>> {
    match arrival {
        Arrival::Payload(_) => None,
        Arrival::Control => None,
        Arrival::Close => Some("relay sent a close frame"@),
        Arrival::End => Some("relay closed the connection"@),
        Arrival::Broken(reason) => Some(reason@),
        Arrival::Silence(budget) => Some("nothing received for "@ + budget@),
        Arrival::PingFailed(reason) => Some("ping failed: "@ + reason@),
        Arrival::Shutdown => None,
    }
}

/// Reads one connection until it ends.
///
/// The read budget runs from the last frame, not from the last time anything
/// was waited for. A ping that is sent restarts the wait, so a budget granted
/// per wait would be reset by the keepalive itself and could never run out.
pub struct Pump {
    last_frame: Instant,
}

impl View for Pump {
    type V = nat;

    /// When the last frame arrived.
    closed spec fn view(&self) -> nat {
        self.last_frame@
    }
}

/// How much of a budget is left at `now` when it runs from `since`.
pub open spec fn budget_left(budget: nat, since: nat, now: nat) -> nat {
    let used = if now >= since {
        (now - since) as nat
    } else {
        0
    };
    if budget >= used {
        (budget - used) as nat
    } else {
        0
    }
}

impl Pump {
    /// A connection that came up at `now`.
    pub fn new(now: Instant) -> (out: Self)
        ensures
            out@ == now@,
    {
        Self { last_frame: now }
    }

    /// How long to wait for the next frame.
    pub fn budget(&self, read_timeout: Duration, now: Instant) -> (out: Duration)
        ensures
            out@ == budget_left(read_timeout@, self@, now@),
    {
        read_timeout.saturating_sub(now.saturating_duration_since(self.last_frame))
    }

    /// Take in what arrived at `now`.
    pub fn arrived(&mut self, arrival: Arrival, now: Instant) -> (out: Reaction)
        ensures
            final(self)@ == if is_frame(arrival) {
                now@
            } else {
                old(self)@
            },
            match arrival {
                Arrival::Payload(bytes) => out == Reaction::Parse(bytes),
                Arrival::Control => out == Reaction::Continue,
                Arrival::Shutdown => out == Reaction::Stop(Ended::Shutdown),
                _ => out matches Reaction::Stop(Ended::Dropped(reason)) && drop_reason(arrival)
                    == Some(reason@),
            },
    {
        match arrival {
            Arrival::Payload(bytes) => {
                self.last_frame = now;
                Reaction::Parse(bytes)
            },
            Arrival::Control => {
                self.last_frame = now;
                Reaction::Continue
            },
            Arrival::Close => {
                self.last_frame = now;
                Reaction::Stop(Ended::Dropped("relay sent a close frame".to_owned()))
            },
            Arrival::End => Reaction::Stop(
                Ended::Dropped("relay closed the connection".to_owned()),
            ),
            Arrival::Broken(reason) => Reaction::Stop(Ended::Dropped(reason)),
            Arrival::Silence(budget) => Reaction::Stop(
                Ended::Dropped(join("nothing received for ", budget.as_str())),
            ),
            Arrival::PingFailed(reason) => Reaction::Stop(
                Ended::Dropped(join("ping failed: ", reason.as_str())),
            ),
            Arrival::Shutdown => Reaction::Stop(Ended::Shutdown),
        }
    }
}

/// The wait between attempts is never longer than the ceiling, and never
/// shorter than the backoff asks for.
pub proof fn delay_is_bounded(supervisor: SupervisorView)
    requires
        supervisor.wf(),
    ensures
        supervisor.backoff <= supervisor.delay() <= supervisor.max,
{
    assert(supervisor.stagger() >= 0);
}

/// The backoff starts between its floor and its ceiling and stays there,
/// whatever comes of dialling.
pub proof fn backoff_stays_in_bounds(supervisor: SupervisorView, dialled: Dialled)
    requires
        supervisor.wf(),
    ensures
        SupervisorView::fresh(supervisor.id, supervisor.min, supervisor.max).wf(),
        supervisor.dialled(dialled).wf(),
        supervisor.backed_off().wf(),
{
}

/// The supervisor once some attempts after this one have failed too, each
/// after its wait.
pub open spec fn after_failures(
    supervisor: SupervisorView,
    failures: Seq<Dialled>,
) -> SupervisorView
    decreases failures.len(),
{
    if failures.len() == 0 {
        supervisor
    } else {
        after_failures(supervisor, failures.drop_last()).backed_off().dialled(failures.last())
    }
}

/// Whether every attempt failed, and none with a refusal.
pub open spec fn plain_failures(failures: Seq<Dialled>) -> bool {
    forall|i: int|
        0 <= i < failures.len() ==> match #[trigger] failures[i] {
            Dialled::Connected => false,
            Dialled::Failed(e) => !(e is Rejected),
            Dialled::TimedOut(_) => true,
        }
}

/// The backoff doubles with every attempt that fails, up to the ceiling.
pub proof fn backoff_doubles(supervisor: SupervisorView, failures: Seq<Dialled>)
    requires
        supervisor.wf(),
        plain_failures(failures),
    ensures
        after_failures(supervisor, failures).backoff == lesser(
            supervisor.backoff * vstd::arithmetic::power2::pow2(failures.len()),
            supervisor.max,
        ),
        after_failures(supervisor, failures).id == supervisor.id,
        after_failures(supervisor, failures).min == supervisor.min,
        after_failures(supervisor, failures).max == supervisor.max,
    decreases failures.len(),
{
    let n = failures.len();
    if n == 0 {
        vstd::arithmetic::power2::lemma2_to64();
        assert(supervisor.backoff * 1 == supervisor.backoff);
    } else {
        let front = failures.drop_last();
        assert forall|i: int| 0 <= i < front.len() implies match #[trigger] front[i] {
            Dialled::Connected => false,
            Dialled::Failed(e) => !(e is Rejected),
            Dialled::TimedOut(_) => true,
        } by {
            assert(front[i] == failures[i]);
        }
        backoff_doubles(supervisor, front);
        assert(failures[n - 1] == failures.last());
        vstd::arithmetic::power2::lemma_pow2_unfold(n);
        let p = vstd::arithmetic::power2::pow2((n - 1) as nat);
        let b = supervisor.backoff;
        assert(b * (2 * p) == (b * p) * 2) by (nonlinear_arith);
    }
}

/// The waits of an endpoint's first connection start at the floor, on the
/// first attempt as after a connection that had come up, and double with every
/// attempt that fails, up to the ceiling.
pub proof fn delays_double(supervisor: SupervisorView, failures: Seq<Dialled>)
    requires
        supervisor.id == 0,
        supervisor.min <= supervisor.max,
        plain_failures(failures),
    ensures
        ({
            let first = SupervisorView::fresh(0, supervisor.min, supervisor.max);
            let again = supervisor.dialled(Dialled::Connected);
            let delay = lesser(
                supervisor.min * vstd::arithmetic::power2::pow2(failures.len()),
                supervisor.max,
            );
            &&& after_failures(first, failures).delay() == delay
            &&& after_failures(again, failures).delay() == delay
        }),
{
    let first = SupervisorView::fresh(0, supervisor.min, supervisor.max);
    let again = supervisor.dialled(Dialled::Connected);
    backoff_doubles(first, failures);
    backoff_doubles(again, failures);
    assert(supervisor.min * 0 == 0);
}

/// A refusal waits the whole ceiling, and a connection that comes up starts
/// over from the floor.
pub proof fn refusal_waits_longest(supervisor: SupervisorView, e: Error)
    requires
        e is Rejected,
    ensures
        supervisor.dialled(Dialled::Failed(e)).delay() == supervisor.max,
        supervisor.dialled(Dialled::Connected).backoff == supervisor.min,
{
    assert(supervisor.stagger() >= 0);
}

/// Only the first attempt of a connection is ever reported.
pub proof fn reported_once(supervisor: SupervisorView, dialled: Dialled)
    ensures
        supervisor.dialled(dialled).reported,
        supervisor.dialled(dialled).backed_off().reported,
        supervisor.backed_off().reported == supervisor.reported,
{
}

/// Sending a ping, or waiting again, leaves the read budget as it is: it only
/// ever runs down until a frame arrives, and a frame grants it anew.
pub proof fn budget_runs_down(budget: nat, since: nat, now: nat, later: nat)
    requires
        since <= now <= later,
    ensures
        budget_left(budget, since, later) <= budget_left(budget, since, now),
        later >= since + budget ==> budget_left(budget, since, later) == 0,
        budget_left(budget, now, now) == budget,
{
}

/// The read budget lasts until the read timeout and not longer: as long as no
/// frame arrives, what was spent since the last one and what is left add up to
/// the timeout, and once that much was spent nothing is left. A reading of the
/// clock from before the last frame leaves it whole.
pub proof fn budget_adds_up(pump: &Pump, read_timeout: Duration, now: Instant, left: Duration)
    requires
        call_ensures(Pump::budget, (pump, read_timeout, now), left),
    ensures
        pump@ <= now@ <= pump@ + read_timeout@ ==> (now@ - pump@) + left@ == read_timeout@,
        now@ > pump@ + read_timeout@ ==> left@ == 0,
        now@ <= pump@ ==> left@ == read_timeout@,
{
}

/// A connection that came up, or that a frame arrived on, has the whole read
/// timeout from then on. Every frame renews it, whatever it carries, and
/// nothing else does.
pub proof fn frames_renew_the_budget(
    pump: &mut Pump,
    arrival: Arrival,
    now: Instant,
    reaction: Reaction,
    fresh: Pump,
)
    requires
        call_ensures(Pump::arrived, (pump, arrival, now), reaction),
        call_ensures(Pump::new, (now,), fresh),
    ensures
        fresh@ == now@,
        match arrival {
            Arrival::Payload(_) | Arrival::Control | Arrival::Close => final(pump)@ == now@,
            _ => final(pump)@ == old(pump)@,
        },
{
}

/// A payload is parsed as it came, and only a payload is. A ping, a pong or
/// part of a frame is read past. Everything else ends the connection, and all
/// of that counts as a dropped connection unless the client is going away.
pub proof fn arrivals_are_told_apart(
    pump: &mut Pump,
    arrival: Arrival,
    now: Instant,
    reaction: Reaction,
)
    requires
        call_ensures(Pump::arrived, (pump, arrival, now), reaction),
    ensures
        match reaction {
            Reaction::Parse(bytes) => arrival == Arrival::Payload(bytes),
            Reaction::Continue => arrival is Control,
            Reaction::Stop(Ended::Shutdown) => arrival is Shutdown,
            Reaction::Stop(Ended::Dropped(_)) => !(arrival is Payload || arrival is Control
                || arrival is Shutdown),
            Reaction::Stop(Ended::Failed(_)) => false,
        },
{
}

/// Whether `text` is some `front` and then `part`, the same `front` for every
/// `part`.
pub open spec fn ends_alike(
    text: Seq<char>,
    part: Seq<char>,
    other_text: Seq<char>,
    other_part: Seq<char>,
) -> bool {
    &&& text.len() >= part.len()
    &&& text.skip(text.len() - part.len()) == part
    &&& other_text.len() - other_part.len() == text.len() - part.len()
    &&& other_text.skip(other_text.len() - other_part.len()) == other_part
    &&& other_text.take(other_text.len() - other_part.len()) == text.take(text.len() - part.len())
}

/// A connection that broke says why in the words that came with it, whole and
/// at the end; what stands in front does not depend on them.
pub proof fn drops_say_why(
    pump: &mut Pump,
    arrival: Arrival,
    now: Instant,
    reason: String,
    other_pump: &mut Pump,
    other_arrival: Arrival,
    other_now: Instant,
    other_reason: String,
)
    requires
        call_ensures(
            Pump::arrived,
            (pump, arrival, now),
            Reaction::Stop(Ended::Dropped(reason)),
        ),
        call_ensures(
            Pump::arrived,
            (other_pump, other_arrival, other_now),
            Reaction::Stop(Ended::Dropped(other_reason)),
        ),
    ensures
        arrival matches Arrival::Broken(why) ==> reason@ == why@,
        arrival matches Arrival::Silence(why) ==> (other_arrival matches Arrival::Silence(other)
            ==> ends_alike(reason@, why@, other_reason@, other@)),
        arrival matches Arrival::PingFailed(why) ==> (
        other_arrival matches Arrival::PingFailed(other) ==> ends_alike(
            reason@,
            why@,
            other_reason@,
            other@,
        )),
        arrival is Close && other_arrival is Close ==> reason@ == other_reason@,
        arrival is End && other_arrival is End ==> reason@ == other_reason@,
{
    if let (Arrival::Silence(why), Arrival::Silence(other)) = (arrival, other_arrival) {
        lemma_ends_alike("nothing received for "@, why@, other@);
    }
    if let (Arrival::PingFailed(why), Arrival::PingFailed(other)) = (arrival, other_arrival) {
        lemma_ends_alike("ping failed: "@, why@, other@);
    }
}

proof fn lemma_ends_alike(front: Seq<char>, part: Seq<char>, other: Seq<char>)
    ensures
        ends_alike(front + part, part, front + other, other),
{
    assert((front + part).skip(front.len() as int) =~= part);
    assert((front + other).skip(front.len() as int) =~= other);
    assert((front + part).take(front.len() as int) =~= front);
    assert((front + other).take(front.len() as int) =~= front);
}

/// What dialling came to moves the backoff and nothing else of the supervisor:
/// back to the floor once a connection is up, to the ceiling on a refusal, and
/// not at all on another failure.
pub proof fn dialling_moves_the_backoff(
    supervisor: &mut Supervisor,
    endpoint: &mut EndpointState,
    dialled: Dialled,
    out: AfterDial,
)
    requires
        call_ensures(Supervisor::dialled, (supervisor, endpoint, dialled), out),
    ensures
        final(supervisor)@.id == old(supervisor)@.id,
        final(supervisor)@.min == old(supervisor)@.min,
        final(supervisor)@.max == old(supervisor)@.max,
        final(supervisor)@.reported,
        match dialled {
            Dialled::Connected => final(supervisor)@.backoff == old(supervisor)@.min,
            Dialled::Failed(Error::Rejected { .. }) => final(supervisor)@.backoff
                == old(supervisor)@.max,
            Dialled::Failed(_) => final(supervisor)@.backoff == old(supervisor)@.backoff,
            Dialled::TimedOut(_) => final(supervisor)@.backoff == old(supervisor)@.backoff,
        },
{
}

/// A connection that is up goes on the endpoint's books at once and is read
/// from. A dial that failed leaves the endpoint alone, and its reason is the
/// error in words.
pub proof fn dialling_up_and_down(
    supervisor: &mut Supervisor,
    endpoint: &mut EndpointState,
    dialled: Dialled,
    out: AfterDial,
    words: String,
)
    requires
        call_ensures(Supervisor::dialled, (supervisor, endpoint, dialled), out),
        dialled matches Dialled::Failed(e) ==> call_ensures(Error::to_string, (&e,), words),
    ensures
        dialled is Connected <==> out.ended is None,
        dialled is Connected ==> final(endpoint)@ == old(endpoint)@.connected(),
        !(dialled is Connected) ==> final(endpoint)@ == old(endpoint)@,
        !(dialled is Connected) ==> out.ended matches Some(Ended::Failed(_)),
        dialled is Failed ==> (out.ended matches Some(Ended::Failed(reason)) && reason@ == words@),
{
}

/// The first attempt of a connection is reported, whatever it came to, and no
/// later one is. The report is the failure itself; of one that took too long,
/// that the endpoint could not be reached and for how long it was tried.
pub proof fn first_attempt_is_reported(
    supervisor: &mut Supervisor,
    endpoint: &mut EndpointState,
    dialled: Dialled,
    out: AfterDial,
)
    requires
        call_ensures(Supervisor::dialled, (supervisor, endpoint, dialled), out),
    ensures
        out.report is Some <==> !old(supervisor)@.reported,
        out.report matches Some(Ok(_)) ==> dialled is Connected,
        out.report matches Some(Err(reported)) ==> match dialled {
            Dialled::Connected => false,
            Dialled::Failed(e) => reported@ == e@,
            Dialled::TimedOut(budget) => reported@ matches ErrorView::Connect { url, message }
                && url == old(endpoint)@.url && (out.ended matches Some(Ended::Failed(reason))
                && reason@ == message),
        },
{
}

/// What is said of a dial that took too long ends with the time it was given;
/// what stands in front does not depend on it.
pub proof fn timeout_names_the_budget(
    supervisor: &mut Supervisor,
    endpoint: &mut EndpointState,
    budget: String,
    out: AfterDial,
    other_supervisor: &mut Supervisor,
    other_endpoint: &mut EndpointState,
    other: String,
    other_out: AfterDial,
)
    requires
        call_ensures(
            Supervisor::dialled,
            (supervisor, endpoint, Dialled::TimedOut(budget)),
            out,
        ),
        call_ensures(
            Supervisor::dialled,
            (other_supervisor, other_endpoint, Dialled::TimedOut(other)),
            other_out,
        ),
    ensures
        out.ended matches Some(Ended::Failed(reason)) && (
        other_out.ended matches Some(Ended::Failed(other_reason)) && ends_alike(
            reason@,
            budget@,
            other_reason@,
            other@,
        )),
{
    lemma_ends_alike("dialling timed out after "@, budget@, other@);
}

/// A supervisor starts with the floor as its backoff, and nothing reported.
pub proof fn supervisors_start_at_the_floor(id: usize, config: &Config, supervisor: Supervisor)
    requires
        call_ensures(Supervisor::new, (id, config), supervisor),
    ensures
        supervisor@.id == id,
        supervisor@.min == config.reconnect_min@,
        supervisor@.max == config.reconnect_max@,
        supervisor@.backoff == config.reconnect_min@,
        !supervisor@.reported,
{
}

/// The wait is the backoff and the floor once more for every connection of the
/// endpoint before this one, as far as 32 bits count them, cut off at the
/// ceiling. It is refused only where no span is that long. What is waited next
/// starts from twice the backoff, cut off at the ceiling.
pub proof fn waits_are_staggered(supervisor: &mut Supervisor, delay: Option<Duration>)
    requires
        call_ensures(Supervisor::back_off, (supervisor,), delay),
    ensures
        ({
            let before = old(supervisor)@;
            let ahead: nat = if before.id <= u32::MAX {
                before.id
            } else {
                u32::MAX as nat
            };
            let sum = before.backoff + ahead * before.min;
            &&& delay is Some <==> sum <= u64::MAX * 1_000_000_000 + 999_999_999
            &&& delay matches Some(delay) ==> {
                let after = final(supervisor)@;
                &&& sum <= before.max ==> delay@ == sum
                &&& sum >= before.max ==> delay@ == before.max
                &&& before.backoff * 2 <= before.max ==> after.backoff == before.backoff * 2
                &&& before.backoff * 2 >= before.max ==> after.backoff == before.max
                &&& after.id == before.id && after.min == before.min && after.max == before.max
                &&& after.reported == before.reported
            }
            &&& delay is None ==> final(supervisor)@ == before
        }),
{
    let before = old(supervisor)@;
    let ahead: nat = if before.id <= u32::MAX {
        before.id
    } else {
        u32::MAX as nat
    };
    assert(ahead * before.min == before.min * ahead) by (nonlinear_arith);
}

/// An attempt that ended is recorded against the endpoint: one more failure in
/// a row with its reason, and one connection less if it had been up. A client
/// that is going away records nothing and does not go on.
pub proof fn endings_are_booked(endpoint: &mut EndpointState, ended: &Ended, goes_on: bool)
    requires
        call_ensures(Supervisor::ended, (endpoint, ended), goes_on),
    ensures
        goes_on <==> !(*ended is Shutdown),
        match *ended {
            Ended::Shutdown => final(endpoint)@ == old(endpoint)@,
            Ended::Dropped(reason) => final(endpoint)@ == old(endpoint)@.disconnected(reason@),
            Ended::Failed(reason) => final(endpoint)@ == old(endpoint)@.failed(reason@),
        },
{
}

/// A failure to dial keeps what it knows: the host and the resolver's words,
/// the URL, the status that the relay answered with, and the words of what
/// failed.
pub proof fn dial_failures_keep_their_facts(failure: DialFailure, url: &str, e: Error)
    requires
        call_ensures(DialFailure::into_error, (failure, url), e),
    ensures
        match (failure, e@) {
            (DialFailure::Resolve { host, reason }, ErrorView::Dns { host: named, source }) => named
                == host@ && source == reason@,
            (DialFailure::Unreachable { last }, ErrorView::Connect { url: dialled, message }) => {
                &&& dialled == url@
                &&& last matches Some(last) ==> message == last@
            },
            (DialFailure::BadUrl, ErrorView::Url(given)) => given == url@,
            (DialFailure::Tls { reason }, ErrorView::Connect { url: dialled, message }) => {
                &&& dialled == url@
                &&& message.len() >= reason@.len()
                &&& message.skip(message.len() - reason@.len()) == reason@
            },
            (
                DialFailure::Status { status },
                ErrorView::Rejected { url: dialled, status: answered },
            ) => dialled == url@ && answered == status,
            (DialFailure::Upgrade { reason }, ErrorView::Connect { url: dialled, message }) => {
                &&& dialled == url@
                &&& message.len() >= reason@.len()
                &&& message.skip(message.len() - reason@.len()) == reason@
            },
            _ => false,
        },
{
    if let DialFailure::Tls { reason } = failure {
        lemma_ends_alike("TLS handshake failed: "@, reason@, reason@);
    }
    if let DialFailure::Upgrade { reason } = failure {
        lemma_ends_alike("websocket upgrade failed: "@, reason@, reason@);
    }
}

/// What failed is named in front of its words in the same way whatever they
/// are, and a host without addresses is always said to have none.
pub proof fn dial_failures_are_named(
    failure: DialFailure,
    url: &str,
    e: Error,
    other_failure: DialFailure,
    other_url: &str,
    other: Error,
)
    requires
        call_ensures(DialFailure::into_error, (failure, url), e),
        call_ensures(DialFailure::into_error, (other_failure, other_url), other),
    ensures
        match (failure, other_failure, e@, other@) {
            (
                DialFailure::Tls { reason: a },
                DialFailure::Tls { reason: b },
                ErrorView::Connect { message: said, .. },
                ErrorView::Connect { message: also, .. },
            ) => ends_alike(said, a@, also, b@),
            (
                DialFailure::Upgrade { reason: a },
                DialFailure::Upgrade { reason: b },
                ErrorView::Connect { message: said, .. },
                ErrorView::Connect { message: also, .. },
            ) => ends_alike(said, a@, also, b@),
            (
                DialFailure::Unreachable { last: None },
                DialFailure::Unreachable { last: None },
                ErrorView::Connect { message: said, .. },
                ErrorView::Connect { message: also, .. },
            ) => said == also,
            _ => true,
        },
{
    if let (DialFailure::Tls { reason: a }, DialFailure::Tls { reason: b }) = (
        failure,
        other_failure,
    ) {
        lemma_ends_alike("TLS handshake failed: "@, a@, b@);
    }
    if let (DialFailure::Upgrade { reason: a }, DialFailure::Upgrade { reason: b }) = (
        failure,
        other_failure,
    ) {
        lemma_ends_alike("websocket upgrade failed: "@, a@, b@);
    }
}

/// When every address of a host refused, it is the last refusal that is
/// reported, whatever the earlier ones were.
pub proof fn last_refusal_is_reported(
    attempts: &mut Attempts,
    reason: String,
    tried: Attempts,
    failure: DialFailure,
    url: &str,
    e: Error,
)
    requires
        call_ensures(Attempts::refused, (attempts, reason), ()),
        tried == *final(attempts),
        call_ensures(Attempts::into_failure, (tried,), failure),
        call_ensures(DialFailure::into_error, (failure, url), e),
    ensures
        e@ == (ErrorView::Connect { url: url@, message: reason@ }),
{
}

} // verus!
