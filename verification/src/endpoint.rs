//! Per-endpoint state and the statistics read off it.

use vstd::prelude::*;
use vstd::string::*;

use crate::config::{MAINNET_FEED_URL, TESTNET_FEED_URL};
use crate::held::Held;
use crate::histogram;
use crate::histogram::Histogram;
use crate::time::Duration;

verus! {

/// One relay to read, and how many connections to open to it.
///
/// Endpoints do not all tolerate the same load: a metered relay may sell a
/// single connection and answer 429 to the second, where a public one is
/// content with three. The count therefore belongs to the endpoint rather
/// than to the client, and this type holds an endpoint's whole configuration,
/// so there is one place to set it and no precedence rule to remember.
#[derive(Debug, PartialEq, Eq)]
pub struct Endpoint {
    url: String,
    connections: usize,
}

/// An endpoint as text and a number.
pub struct EndpointConfig {
    pub url: Seq<char>,
    pub connections: nat,
}

impl View for Endpoint {
    type V = EndpointConfig;

    closed spec fn view(&self) -> EndpointConfig {
        EndpointConfig { url: self.url@, connections: self.connections as nat }
    }
}

/// Whether an endpoint is read at `url`, as the text that it turns into, over
/// one connection.
pub open spec fn is_read_at<T: Into<String>>(url: T, endpoint: Endpoint) -> bool {
    exists|text: String| #[trigger]
        call_ensures(<T as Into<String>>::into, (url,), text) && endpoint@ == (EndpointConfig {
            url: text@,
            connections: 1,
        })
}

impl Endpoint {
    /// Read this relay over one connection.
    pub fn new<T: Into<String>>(url: T) -> (out: Self)
        ensures
            is_read_at(url, out),
    {
        let text: String = url.into();
        assert(call_ensures(<T as Into<String>>::into, (url,), text));
        Self { url: text, connections: 1 }
    }

    /// The Robinhood chain mainnet feed.
    #[must_use]
    pub fn mainnet() -> (out: Self)
        ensures
            out@ == (EndpointConfig { url: MAINNET_FEED_URL@, connections: 1 }),
    {
        Self::new(MAINNET_FEED_URL)
    }

    /// The Robinhood chain testnet feed.
    #[must_use]
    pub fn testnet() -> (out: Self)
        ensures
            out@ == (EndpointConfig { url: TESTNET_FEED_URL@, connections: 1 }),
    {
        Self::new(TESTNET_FEED_URL)
    }

    /// Open this many connections to it instead of one.
    ///
    /// Sockets to one relay stall independently, so each additional one adds
    /// a copy of every message and the client takes whichever arrives first.
    #[must_use]
    pub fn connections(self, connections: usize) -> (out: Self)
        ensures
            out@ == (EndpointConfig { url: self@.url, connections: connections as nat }),
    {
        Self { url: self.url, connections }
    }

    /// The URL.
    #[must_use]
    pub fn url(&self) -> (out: &str)
        ensures
            out@ == self@.url,
    {
        self.url.as_str()
    }

    /// How many connections it will open.
    ///
    /// Named apart from [`connections`](Endpoint::connections) because that
    /// is the setter.
    #[must_use]
    pub fn connection_count(&self) -> (out: usize)
        ensures
            out as nat == self@.connections,
    {
        self.connections
    }
}

impl Clone for Endpoint {
    fn clone(&self) -> (out: Self)
        ensures
            out@ == self@,
    {
        Self { url: self.url.clone(), connections: self.connections }
    }
}

/// `String::from` of a `&str`: it is converted to a `String`, so the text is the
/// same.
pub assume_specification<'a>[ <String as From<&'a str>>::from ](s: &str) -> (out: String)
    ensures
        out@ == s@,
;

/// `From` of a type for itself: the argument is returned unchanged.
pub assume_specification<Same>[ <Same as From<Same>>::from ](t: Same) -> (out: Same)
    ensures
        out == t,
;

impl<T: Into<String>> From<T> for Endpoint {
    fn from(url: T) -> (out: Self)
        ensures
            is_read_at(url, out),
    {
        Self::new(url)
    }
}

impl<T: Into<String>> vstd::std_specs::convert::FromSpecImpl<T> for Endpoint {
    open spec fn obeys_from_spec() -> bool {
        false
    }

    open spec fn from_spec(url: T) -> Self {
        arbitrary()
    }
}

/// A URL that is text already is kept as it is, however the endpoint is made.
pub proof fn text_is_kept<'a>(url: &'a str, owned: String, made: Endpoint)
    ensures
        call_ensures(Endpoint::new::<&'a str>, (url,), made) || call_ensures(
            <Endpoint as From<&'a str>>::from,
            (url,),
            made,
        ) ==> made@ == (EndpointConfig { url: url@, connections: 1 }),
        call_ensures(Endpoint::new::<String>, (owned,), made) || call_ensures(
            <Endpoint as From<String>>::from,
            (owned,),
            made,
        ) ==> made@ == (EndpointConfig { url: owned@, connections: 1 }),
{
}

/// How one feed endpoint is doing.
///
/// A snapshot. Counters are cumulative since the client was built.
#[derive(Debug, Clone, PartialEq, Eq)]
pub struct EndpointStats {
    /// The feed URL this endpoint reads.
    pub url: String,
    /// Connections the supervisor last observed as established.
    ///
    /// A connection can break between that observation and the next message,
    /// so this can briefly overstate.
    pub live_conns: usize,
    /// Connections configured for this endpoint.
    pub total_conns: usize,
    /// Messages taken from this endpoint, because it had them first.
    pub delivered: u64,
    /// Messages discarded because they had already been delivered — either
    /// another endpoint got there first, or this one is replaying a backlog
    /// after reconnecting.
    ///
    /// A high count is not waste, it is what redundancy costs. An endpoint
    /// whose `delivered` stays near zero, though, is paying bandwidth for
    /// nothing.
    pub dropped: u64,
    /// The highest sequence number seen from this endpoint.
    ///
    /// The bluntest health check there is, and the one with no caveats: two
    /// endpoints a hundred apart are ten seconds apart, no clock or estimator
    /// involved. It is also the only field that moves when an endpoint stays
    /// connected but stops producing — the counters below simply stop.
    pub last_sequence: Option<u64>,
    /// How far behind the delivered copy this endpoint's late copies arrive.
    ///
    /// Read together with `delivered`, this answers what reading *only* this
    /// endpoint would have cost: a message it won would have arrived at the
    /// same time, and one it lost would have arrived this much later. That is
    /// what the redundancy bought, which is also why it is a distribution
    /// rather than an average.
    ///
    /// An endpoint with several connections is timed once per message, on
    /// whichever of its sockets was first, since that is when the endpoint
    /// would have had the message. Its slower sockets are neither its loss nor
    /// its lateness.
    pub lateness: Lateness,
    /// Consecutive connection failures since the last success.
    pub consecutive_failures: u32,
    /// Why the most recent failure happened, cleared by the next success.
    pub last_failure: Option<String>,
}

/// How far behind the delivered copy an endpoint's late copies arrive.
///
/// Percentiles, not buckets. They are read off a histogram whose resolution
/// is relative rather than absolute — thirty-two steps per doubling — so a
/// figure is within about 3% of the true one at any scale, and reads as a
/// measurement instead of as the nearest rung of a ladder.
#[derive(Debug, Clone, Copy, PartialEq, Eq)]
pub struct Lateness {
    /// Samples behind these figures.
    pub count: u64,
    /// Median.
    pub p50: Option<Duration>,
    /// 90th percentile.
    pub p90: Option<Duration>,
    /// 99th percentile. The one that says what redundancy is worth.
    pub p99: Option<Duration>,
    /// The worst sample seen, exactly.
    pub max: Option<Duration>,
    /// Copies so far behind that they are a backlog being replayed to a
    /// socket that just reconnected, rather than a lost race.
    ///
    /// Kept out of the percentiles deliberately. One reconnect delivers
    /// hundreds of them at once, and letting those in would peg every figure
    /// for the rest of the run. The cut is a threshold and therefore a guess,
    /// so they are counted here rather than discarded.
    pub replays: u64,
}

impl Default for Lateness {
    fn default() -> (out: Self)
        ensures
            out.count == 0 && out.replays == 0,
            out.p50 is None && out.p90 is None && out.p99 is None && out.max is None,
    {
        Self { count: 0, p50: None, p90: None, p99: None, max: None, replays: 0 }
    }
}

/// Marks a value that has never been set.
pub const UNSET: u64 = u64::MAX;

/// A copy later than this is a replayed backlog, not a lost race.
pub const REPLAY_THRESHOLD_SECS: u64 = 5;

/// The same in nanoseconds.
pub open spec fn replay_threshold() -> nat {
    REPLAY_THRESHOLD_SECS as nat * 1_000_000_000
}

/// What is known of one endpoint.
#[verifier::ext_equal]
pub struct EndpointView {
    pub url: Seq<char>,
    pub total_conns: usize,
    pub live: usize,
    pub delivered: u64,
    pub dropped: u64,
    /// The highest sequence number seen, or [`UNSET`].
    pub last_sequence: u64,
    /// How late its copies were, in nanoseconds, oldest first.
    pub samples: Seq<nat>,
    pub replays: u64,
    pub consecutive_failures: u32,
    pub last_failure: Option<Seq<char>>,
    /// The messages it remembers to have been timed on.
    pub timed: Set<u64>,
}

impl EndpointView {
    /// An endpoint of which nothing has been seen.
    pub open spec fn fresh(url: Seq<char>, total_conns: usize) -> Self {
        EndpointView {
            url,
            total_conns,
            live: 0,
            delivered: 0,
            dropped: 0,
            last_sequence: UNSET,
            samples: Seq::empty(),
            replays: 0,
            consecutive_failures: 0,
            last_failure: None,
            timed: Set::empty(),
        }
    }

    /// One connection more is up.
    pub open spec fn connected(self) -> Self {
        EndpointView {
            live: self.live.wrapping_add(1),
            consecutive_failures: 0,
            last_failure: None,
            ..self
        }
    }

    /// An attempt to connect came to nothing.
    pub open spec fn failed(self, reason: Seq<char>) -> Self {
        EndpointView {
            consecutive_failures: self.consecutive_failures.wrapping_add(1),
            last_failure: Some(reason),
            ..self
        }
    }

    /// A connection that was up went away.
    pub open spec fn disconnected(self, reason: Seq<char>) -> Self {
        EndpointView {
            live: if self.live > 0 {
                (self.live - 1) as usize
            } else {
                0
            },
            ..self.failed(reason)
        }
    }

    /// A message with this number arrived.
    pub open spec fn saw(self, sequence_number: u64) -> Self {
        EndpointView {
            last_sequence: if self.last_sequence == UNSET || sequence_number
                > self.last_sequence {
                sequence_number
            } else {
                self.last_sequence
            },
            ..self
        }
    }

    /// A message was taken from it.
    pub open spec fn took(self, sequence_number: u64) -> Self {
        EndpointView {
            delivered: self.delivered.wrapping_add(1),
            ..self.saw(sequence_number)
        }
    }

    /// A copy that lost, by `lateness` nanoseconds where that is known, is
    /// timed: once per message, and a replay only counts as one.
    pub open spec fn timing(self, sequence_number: u64, lateness: Option<nat>) -> Self {
        match lateness {
            None => self,
            Some(lateness) => if self.timed.contains(sequence_number) {
                self
            } else if lateness > replay_threshold() {
                EndpointView {
                    replays: self.replays.wrapping_add(1),
                    timed: self.timed.insert(sequence_number),
                    ..self
                }
            } else {
                EndpointView {
                    samples: self.samples.push(lateness),
                    timed: self.timed.insert(sequence_number),
                    ..self
                }
            },
        }
    }

    /// What it was timed on before this message is no longer remembered.
    pub open spec fn forgetting(self, before: u64) -> Self {
        EndpointView { timed: self.timed.filter(|number: u64| before <= number), ..self }
    }

    /// A copy was discarded.
    pub open spec fn discarded(self, sequence_number: u64, lateness: Option<nat>) -> Self {
        EndpointView {
            dropped: self.dropped.wrapping_add(1),
            ..self.saw(sequence_number).timing(sequence_number, lateness)
        }
    }

    /// Whether every sample is a lost race rather than a replay.
    pub open spec fn in_time(self) -> bool {
        forall|i: int|
            0 <= i < self.samples.len() ==> #[trigger] self.samples[i] <= replay_threshold()
    }

    /// The largest sample, if there is one.
    pub open spec fn worst(self) -> Option<nat> {
        if self.samples.len() == 0 {
            None
        } else {
            Some(histogram::largest(self.samples))
        }
    }

    /// The percentile `num/den` in nanoseconds, off a histogram of whole
    /// microseconds.
    pub open spec fn percentile(self, num: nat, den: nat) -> Option<nat> {
        histogram::figure(
            histogram::counts_of(histogram::in_micros(self.samples)),
            num,
            den,
            self.worst(),
        )
    }
}

/// Live counters for one endpoint, shared between its connections and the
/// task that merges them.
pub struct EndpointState {
    url: String,
    total_conns: usize,
    live: usize,
    delivered: u64,
    dropped: u64,
    last_sequence: u64,
    /// In whole microseconds.
    lateness: Histogram,
    /// To the nanosecond.
    max_lateness: Option<Duration>,
    samples: Ghost<Seq<nat>>,
    /// How many samples there are, or that there are more than can be counted.
    sampled: u64,
    replays: u64,
    consecutive_failures: u32,
    last_failure: Option<String>,
    /// The messages this endpoint has already been timed on, so its slower
    /// sockets are not timed again for the same message.
    timed: Held<()>,
}

/// Text that may be missing.
pub open spec fn text_view(text: Option<String>) -> Option<Seq<char>> {
    match text {
        Some(text) => Some(text@),
        None => None,
    }
}

impl View for EndpointState {
    type V = EndpointView;

    closed spec fn view(&self) -> EndpointView {
        EndpointView {
            url: self.url@,
            total_conns: self.total_conns,
            live: self.live,
            delivered: self.delivered,
            dropped: self.dropped,
            last_sequence: self.last_sequence,
            samples: self.samples@,
            replays: self.replays,
            consecutive_failures: self.consecutive_failures,
            last_failure: text_view(self.last_failure),
            timed: self.timed@.dom(),
        }
    }
}

impl EndpointState {
    /// The histogram is sound and counts the samples, the largest of them is
    /// kept beside it, and none is a replay.
    pub closed spec fn wf(&self) -> bool {
        &&& self.lateness.wf()
        &&& self.lateness@ == histogram::in_micros(self.samples@)
        &&& histogram::nanos_of(self.max_lateness) == self@.worst()
        &&& self.sampled == if self.samples@.len() <= u64::MAX {
            self.samples@.len()
        } else {
            u64::MAX as nat
        }
        &&& self@.in_time()
    }

    /// No sample of a sound endpoint is a replay.
    pub proof fn lemma_in_time(&self)
        requires
            self.wf(),
        ensures
            self@.in_time(),
    {
    }

    /// An endpoint of which nothing has been seen yet.
    pub fn new(url: String, total_conns: usize) -> (out: Self)
        ensures
            out.wf(),
            out@ == EndpointView::fresh(url@, total_conns),
    {
        let out = Self {
            url,
            total_conns,
            live: 0,
            delivered: 0,
            dropped: 0,
            last_sequence: UNSET,
            lateness: Histogram::new(),
            max_lateness: None,
            samples: Ghost(Seq::empty()),
            sampled: 0,
            replays: 0,
            consecutive_failures: 0,
            last_failure: None,
            timed: Held::new(),
        };
        assert(out@.timed =~= Set::empty());
        assert(out.lateness@ =~= histogram::in_micros(out.samples@));
        out
    }

    /// The feed URL it reads.
    pub fn url(&self) -> (out: &str)
        ensures
            out@ == self@.url,
    {
        self.url.as_str()
    }

    /// Connections configured for it.
    pub fn total_conns(&self) -> (out: usize)
        ensures
            out == self@.total_conns,
    {
        self.total_conns
    }

    /// Record a connection that came up.
    pub fn connected(&mut self)
        requires
            old(self).wf(),
        ensures
            final(self).wf(),
            final(self)@ == old(self)@.connected(),
    {
        self.live = self.live.wrapping_add(1);
        self.consecutive_failures = 0;
        self.last_failure = None;
    }

    /// Record a connection that went away.
    pub fn disconnected(&mut self, reason: &str)
        requires
            old(self).wf(),
        ensures
            final(self).wf(),
            final(self)@ == old(self)@.disconnected(reason@),
    {
        // Saturating, because a connection that never came up never counted.
        if self.live > 0 {
            self.live -= 1;
        }
        self.failed(reason);
    }

    /// Record an attempt that never became a connection.
    pub fn failed(&mut self, reason: &str)
        requires
            old(self).wf(),
        ensures
            final(self).wf(),
            final(self)@ == old(self)@.failed(reason@),
    {
        self.consecutive_failures = self.consecutive_failures.wrapping_add(1);
        self.last_failure = Some(reason.to_owned());
    }

    /// Record a message taken from this endpoint.
    pub fn took(&mut self, sequence_number: u64)
        requires
            old(self).wf(),
        ensures
            final(self).wf(),
            final(self)@ == old(self)@.took(sequence_number),
    {
        self.delivered = self.delivered.wrapping_add(1);
        self.saw(sequence_number);
    }

    /// Note the highest sequence number this endpoint has produced, whether
    /// or not the message was used.
    fn saw(&mut self, sequence_number: u64)
        requires
            old(self).wf(),
        ensures
            final(self).wf(),
            final(self)@ == old(self)@.saw(sequence_number),
    {
        if self.last_sequence == UNSET || sequence_number > self.last_sequence {
            self.last_sequence = sequence_number;
        }
    }

    /// Record a copy that arrived too late to be used.
    pub fn discarded(&mut self, sequence_number: u64, lateness: Option<Duration>)
        requires
            old(self).wf(),
        ensures
            final(self).wf(),
            final(self)@ == old(self)@.discarded(
                sequence_number,
                histogram::nanos_of(lateness),
            ),
    {
        self.dropped = self.dropped.wrapping_add(1);
        self.saw(sequence_number);

        let lateness = match lateness {
            Some(lateness) => lateness,
            None => {
                return;
            },
        };

        // An endpoint running several sockets produces a copy per socket. Its
        // arrival time is the first of them, so the rest say nothing about
        // what reading only this endpoint would have cost — timing them too
        // would weight the distribution towards its slowest socket.
        if self.timed.contains(sequence_number) {
            return;
        }
        self.timed.insert(sequence_number, ());
        assert(self@.timed =~= old(self)@.timed.insert(sequence_number));

        if lateness > Duration::from_secs(REPLAY_THRESHOLD_SECS) {
            self.replays = self.replays.wrapping_add(1);
            return;
        }
        let sample: u64 = lateness.as_micros() as u64;
        self.lateness.record(sample);
        let ghost before = self.samples@;
        self.samples = Ghost(self.samples@.push(lateness@));
        self.sampled = self.sampled.saturating_add(1);
        self.max_lateness = match self.max_lateness {
            Some(max) => if lateness > max {
                Some(lateness)
            } else {
                Some(max)
            },
            None => Some(lateness),
        };
        assert(self.samples@.drop_last() =~= before);
        assert(before.len() == 0 ==> histogram::largest(before) == 0);
        assert(self.lateness@ =~= histogram::in_micros(self.samples@));
    }

    /// Forget what this endpoint was timed on before a message, once no winner
    /// before it is known and nothing there can be timed again.
    pub fn forget_before(&mut self, before: u64)
        requires
            old(self).wf(),
        ensures
            final(self).wf(),
            final(self)@ == old(self)@.forgetting(before),
    {
        while self.timed.len() > 0
            invariant
                self.wf(),
                self@.forgetting(before) == old(self)@.forgetting(before),
            ensures
                self.wf(),
                self@ == old(self)@.forgetting(before),
            decreases self@.timed.len(),
        {
            let oldest = match self.timed.oldest() {
                Some(oldest) => oldest,
                None => {
                    break;
                },
            };
            if before <= oldest {
                break;
            }
            self.timed.remove(oldest);
        }
    }

    /// Whether there are few enough samples to compute percentiles of.
    pub fn can_report(&self) -> (out: bool)
        requires
            self.wf(),
        ensures
            out <==> self@.samples.len() * 99 <= u64::MAX,
    {
        self.sampled <= u64::MAX / 99
    }

    /// A snapshot of how the endpoint is doing.
    pub fn stats(&self) -> (out: EndpointStats)
        requires
            self.wf(),
            self@.samples.len() * 99 <= u64::MAX,
        ensures
            out.url@ == self@.url,
            out.live_conns == self@.live,
            out.total_conns == self@.total_conns,
            out.delivered == self@.delivered,
            out.dropped == self@.dropped,
            out.last_sequence == if self@.last_sequence == UNSET {
                None
            } else {
                Some(self@.last_sequence)
            },
            out.lateness.count as nat == self@.samples.len(),
            histogram::nanos_of(out.lateness.p50) == self@.percentile(1, 2),
            histogram::nanos_of(out.lateness.p90) == self@.percentile(9, 10),
            histogram::nanos_of(out.lateness.p99) == self@.percentile(99, 100),
            histogram::nanos_of(out.lateness.max) == self@.worst(),
            out.lateness.replays == self@.replays,
            out.consecutive_failures == self@.consecutive_failures,
            text_view(out.last_failure) == self@.last_failure,
    {
        let counts = self.lateness.snapshot();
        proof {
            let micros = histogram::in_micros(self@.samples);
            histogram::counts_fit(micros);
            assert(histogram::as_numbers(counts@) =~= histogram::counts_of(micros));
            histogram::every_sample_is_counted(micros);
        }
        let total = histogram::total_of(&counts);
        let max = self.max_lateness;
        EndpointStats {
            url: self.url.clone(),
            live_conns: self.live,
            total_conns: self.total_conns,
            delivered: self.delivered,
            dropped: self.dropped,
            last_sequence: if self.last_sequence == UNSET {
                None
            } else {
                Some(self.last_sequence)
            },
            lateness: Lateness {
                count: total,
                p50: Histogram::quantile(&counts, total, 1, 2, max),
                p90: Histogram::quantile(&counts, total, 9, 10, max),
                p99: Histogram::quantile(&counts, total, 99, 100, max),
                max,
                replays: self.replays,
            },
            consecutive_failures: self.consecutive_failures,
            last_failure: match &self.last_failure {
                Some(reason) => Some(reason.clone()),
                None => None,
            },
        }
    }
}

/// An endpoint is timed on the first copy of a message that lost to another
/// endpoint: it becomes a sample to the nanosecond, or a replay if it is too
/// late for one. Which other messages were timed before does not matter.
pub proof fn first_copy_is_timed(endpoint: EndpointView, sequence_number: u64, lateness: nat)
    requires
        !endpoint.timed.contains(sequence_number),
    ensures
        ({
            let after = endpoint.discarded(sequence_number, Some(lateness));
            &&& after.timed == endpoint.timed.insert(sequence_number)
            &&& lateness > replay_threshold() ==> after.samples == endpoint.samples
                && after.replays == endpoint.replays.wrapping_add(1)
            &&& lateness <= replay_threshold() ==> after.samples == endpoint.samples.push(lateness)
                && after.replays == endpoint.replays
        }),
{
}

/// A message never counts twice in the timing of an endpoint: once it was
/// timed, whatever copy of it comes later changes neither the samples nor the
/// replays, whatever other message was timed in between.
pub proof fn timed_once_per_message(
    endpoint: EndpointView,
    sequence_number: u64,
    first: nat,
    other: u64,
    between: Option<nat>,
    later: Option<nat>,
)
    ensures
        ({
            let once = endpoint.discarded(sequence_number, Some(first));
            let then = once.discarded(other, between);
            let twice = then.discarded(sequence_number, later);
            &&& once.timed.contains(sequence_number)
            &&& twice.timed == then.timed
            &&& twice.samples == then.samples
            &&& twice.replays == then.replays
        }),
{
}

/// The last sequence number is the highest seen. The largest number there is
/// stands for "never" and is left out.
pub proof fn last_sequence_is_highest(endpoint: EndpointView, sequence_number: u64)
    requires
        sequence_number != UNSET,
    ensures
        ({
            let after = endpoint.saw(sequence_number).last_sequence;
            &&& after != UNSET
            &&& after >= sequence_number
            &&& endpoint.last_sequence != UNSET ==> after >= endpoint.last_sequence
            &&& after == sequence_number || after == endpoint.last_sequence
        }),
{
}

/// The percentiles come in order, and the worst sample tops them.
pub proof fn percentiles_are_ordered(endpoint: EndpointView)
    requires
        endpoint.samples.len() > 0,
    ensures
        match (
            endpoint.percentile(1, 2),
            endpoint.percentile(9, 10),
            endpoint.percentile(99, 100),
            endpoint.worst(),
        ) {
            (Some(p50), Some(p90), Some(p99), Some(max)) => p50 <= p90 <= p99 <= max,
            _ => false,
        },
{
    let micros = histogram::in_micros(endpoint.samples);
    let counts = histogram::counts_of(micros);
    let max = endpoint.worst()->Some_0;
    histogram::every_sample_is_counted(micros);
    histogram::figures_are_ordered(counts, (1, 2), (9, 10), max);
    histogram::figures_are_ordered(counts, (9, 10), (99, 100), max);
}

/// Replays never get into the samples: an endpoint starts without any, and a
/// copy that is discarded adds one only if it is no replay.
pub proof fn replays_stay_out(
    endpoint: EndpointView,
    url: Seq<char>,
    total_conns: usize,
    sequence_number: u64,
    lateness: Option<nat>,
)
    ensures
        EndpointView::fresh(url, total_conns).in_time(),
        endpoint.in_time() ==> endpoint.discarded(sequence_number, lateness).in_time(),
{
    if endpoint.in_time() {
        let after = endpoint.discarded(sequence_number, lateness);
        assert forall|i: int| 0 <= i < after.samples.len() implies #[trigger] after.samples[i]
            <= replay_threshold() by {
            if i < endpoint.samples.len() {
                assert(after.samples[i] == endpoint.samples[i]);
            }
        }
    }
}

/// A percentile is at least the sample at that place, to the microsecond, and
/// exceeds it by no more than one part in thirty-two.
pub proof fn percentile_is_close(endpoint: EndpointView, num: nat, den: nat, value: nat)
    requires
        endpoint.in_time(),
        0 < num <= den,
        histogram::is_ranked(
            endpoint.samples,
            histogram::ceil_div(endpoint.samples.len() * num, den),
            value,
        ),
    ensures
        endpoint.percentile(num, den) matches Some(shown) && {
            &&& value / 1000 * 1000 <= shown
            &&& 32 * (shown - value) <= value
        },
{
    let rank = histogram::ceil_div(endpoint.samples.len() * num, den);
    let micros = histogram::in_micros(endpoint.samples);
    let i = choose|i: int| 0 <= i < endpoint.samples.len() && endpoint.samples[i] == value;
    assert(endpoint.samples[i] <= replay_threshold());
    histogram::lemma_largest(endpoint.samples, i);
    vstd::arithmetic::power2::lemma2_to64();
    histogram::rank_survives_micros(endpoint.samples, rank, value);
    histogram::figure_is_close(micros, num, den, value / 1000, endpoint.worst()->Some_0);
}

/// The worst sample is reported exactly: it is one of them, and none is worse.
pub proof fn worst_is_exact(endpoint: EndpointView)
    requires
        endpoint.samples.len() > 0,
    ensures
        endpoint.worst() matches Some(worst) && {
            &&& endpoint.samples.contains(worst)
            &&& forall|i: int|
                0 <= i < endpoint.samples.len() ==> #[trigger] endpoint.samples[i] <= worst
        },
{
    histogram::lemma_largest_is_one(endpoint.samples);
    assert forall|i: int| 0 <= i < endpoint.samples.len() implies #[trigger] endpoint.samples[i]
        <= histogram::largest(endpoint.samples) by {
        histogram::lemma_largest(endpoint.samples, i);
    }
}

/// What a percentile shows is the bound of the bucket that the sample at that
/// place is in, or the worst sample if that is less.
pub proof fn percentile_is_the_bucket_bound(
    endpoint: EndpointView,
    num: nat,
    den: nat,
    value: nat,
)
    requires
        endpoint.in_time(),
        0 < num <= den,
        histogram::is_ranked(
            endpoint.samples,
            histogram::ceil_div(endpoint.samples.len() * num, den),
            value,
        ),
    ensures
        ({
            let bound = histogram::bucket_bound(histogram::bucket_of(value / 1000)) * 1000;
            let worst = histogram::largest(endpoint.samples);
            &&& bound <= worst ==> endpoint.percentile(num, den) == Some(bound)
            &&& bound >= worst ==> endpoint.percentile(num, den) == Some(worst)
        }),
{
    let rank = histogram::ceil_div(endpoint.samples.len() * num, den);
    let micros = histogram::in_micros(endpoint.samples);
    let i = choose|i: int| 0 <= i < endpoint.samples.len() && endpoint.samples[i] == value;
    assert(endpoint.samples[i] <= replay_threshold());
    histogram::lemma_largest(endpoint.samples, i);
    vstd::arithmetic::power2::lemma2_to64();
    histogram::rank_survives_micros(endpoint.samples, rank, value);
    histogram::figure_is_the_bucket_bound(
        micros,
        num,
        den,
        value / 1000,
        endpoint.worst()->Some_0,
    );
}

/// How many connections an endpoint opens is what was asked for last, at the
/// same URL, and it tells both. A copy of an endpoint is the same endpoint.
pub proof fn endpoints_are_as_asked_for(
    endpoint: Endpoint,
    connections: usize,
    out: Endpoint,
    url: &str,
    count: usize,
    copy: Endpoint,
)
    requires
        call_ensures(Endpoint::connections, (endpoint, connections), out),
        call_ensures(Endpoint::url, (&out,), url),
        call_ensures(Endpoint::connection_count, (&out,), count),
        call_ensures(<Endpoint as Clone>::clone, (&out,), copy),
    ensures
        url@ == endpoint@.url,
        count == connections,
        out@.url == endpoint@.url,
        out@.connections == connections,
        copy@ == out@,
{
}

/// The two named endpoints are those of the chain's own feeds, over one
/// connection each.
pub proof fn named_endpoints_are_the_feeds(mainnet: Endpoint, testnet: Endpoint)
    requires
        call_ensures(Endpoint::mainnet, (), mainnet),
        call_ensures(Endpoint::testnet, (), testnet),
    ensures
        mainnet@.url == MAINNET_FEED_URL@,
        testnet@.url == TESTNET_FEED_URL@,
        mainnet@.connections == 1,
        testnet@.connections == 1,
{
}

/// An endpoint's state tells the URL and the number of connections that it was
/// made with, and can be reported as long as the samples are few enough for
/// the percentiles to be computed.
pub proof fn states_tell_what_they_are(
    state: &EndpointState,
    url: &str,
    total: usize,
    possible: bool,
)
    requires
        call_ensures(EndpointState::url, (state,), url),
        call_ensures(EndpointState::total_conns, (state,), total),
        call_ensures(EndpointState::can_report, (state,), possible),
    ensures
        url@ == state@.url,
        total == state@.total_conns,
        possible <==> 99 * state@.samples.len() < 0x1_0000_0000_0000_0000,
{
}

} // verus!
