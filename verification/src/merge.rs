//! Merging every connection into one ordered, duplicate-free stream.

use std::collections::VecDeque;

use vstd::prelude::*;

use crate::endpoint::{EndpointState, EndpointView};
use crate::feed::FeedMessage;
use crate::held;
use crate::held::Held;
use crate::time;
use crate::time::{Duration, Instant};

verus! {

/// How many recent winners to remember. Covers several minutes at this
/// chain's rate.
pub const HISTORY: usize = 4096;

/// What the merge knows.
#[verifier::ext_equal]
pub struct MergeView {
    /// The next sequence number to go out. `None` until the first message.
    pub next_expected: Option<u64>,
    /// Messages ahead of the mark, each with the endpoint it came from.
    pub held: Map<u64, (usize, FeedMessage)>,
    /// When the gap stops waiting.
    pub deadline: Option<nat>,
    /// The message behind the gap that the timer was armed for.
    pub gap_end: Option<u64>,
    /// Recent winners: number, arrival and endpoint, oldest first.
    pub won_at: Seq<(u64, nat, usize)>,
    /// How many copies were dropped.
    pub suppressed: nat,
    /// Whether anything has gone out.
    pub delivered: bool,
    /// How long a gap is held open.
    pub grace: nat,
    /// How many messages may be held.
    pub capacity: nat,
}

impl MergeView {
    /// Nothing seen yet; everything up to `resume_after` counts as delivered.
    pub open spec fn fresh(resume_after: Option<u64>, grace: nat, capacity: nat) -> Self {
        MergeView {
            next_expected: match resume_after {
                Some(last) => Some(
                    if last < u64::MAX {
                        (last + 1) as u64
                    } else {
                        last
                    },
                ),
                None => None,
            },
            held: Map::empty(),
            deadline: None,
            gap_end: None,
            won_at: Seq::empty(),
            suppressed: 0,
            delivered: false,
            grace,
            capacity,
        }
    }

    /// What every operation keeps: a message is held under its number, none
    /// behind the mark; and the winners have consecutive numbers that end
    /// right before the mark.
    pub open spec fn wf(self) -> bool {
        &&& self.held.dom().finite()
        &&& forall|key: u64| #[trigger] self.held.contains_key(key) ==> {
            &&& self.held[key].1.sequence_number == key
            &&& self.next_expected matches Some(mark) ==> mark <= key
        }
        &&& self.won_at.len() <= HISTORY
        &&& forall|i: int|
            0 <= i < self.won_at.len() ==> (#[trigger] self.won_at[i]).0 == self.won_at[0].0 + i
        &&& self.won_at.len() > 0 ==> self.next_expected is Some
            && self.next_expected->Some_0 == self.won_at[0].0 + self.won_at.len()
    }

    /// Whether every message held came from one of the first `n` endpoints.
    pub open spec fn knows(self, n: nat) -> bool {
        forall|key: u64| #[trigger] self.held.contains_key(key) ==> self.held[key].0 < n
    }

    /// Whether a copy with this number has lost: it is behind the mark, or
    /// another copy of it is already waiting.
    pub open spec fn has_lost(self, sequence_number: u64) -> bool {
        ||| self.next_expected matches Some(mark) && sequence_number < mark
        ||| self.held.contains_key(sequence_number)
    }

    /// When the copy that won arrived and from which endpoint, as far as that
    /// is still known.
    pub open spec fn winner(self, sequence_number: u64) -> Option<(nat, usize)> {
        if self.held.contains_key(sequence_number) {
            let (endpoint, first) = self.held[sequence_number];
            Some((first.received_at@, endpoint))
        } else if self.won_at.len() > 0 && self.won_at[0].0 <= sequence_number
            && sequence_number - self.won_at[0].0 < self.won_at.len() {
            let (_, won, endpoint) = self.won_at[sequence_number - self.won_at[0].0];
            Some((won, endpoint))
        } else {
            None
        }
    }

    /// How late a copy from `endpoint` is, if it lost to another endpoint.
    pub open spec fn lateness(self, endpoint: usize, message: FeedMessage) -> Option<nat> {
        match self.winner(message.sequence_number) {
            Some((won, winner)) => if winner == endpoint {
                None
            } else if message.received_at@ >= won {
                Some((message.received_at@ - won) as nat)
            } else {
                Some(0)
            },
            None => None,
        }
    }

    /// The first message whose winner is known, or may still come to be.
    pub open spec fn first_known(self) -> Option<u64> {
        if self.won_at.len() > 0 {
            Some(self.won_at[0].0)
        } else {
            self.next_expected
        }
    }

    /// What it does to an endpoint that its copy has lost: the copy is timed
    /// against the winner, and what can no longer be timed is forgotten.
    pub open spec fn dropping(
        self,
        endpoint: usize,
        message: FeedMessage,
        view: EndpointView,
    ) -> EndpointView {
        let after = view.discarded(message.sequence_number, self.lateness(endpoint, message));
        match self.first_known() {
            Some(first) => after.forgetting(first),
            None => after,
        }
    }

    /// A copy came in: it is held, or dropped if it has lost.
    pub open spec fn offered(self, endpoint: usize, message: FeedMessage) -> Self {
        if self.has_lost(message.sequence_number) {
            MergeView { suppressed: self.suppressed + 1, ..self }
        } else {
            MergeView {
                held: self.held.insert(message.sequence_number, (endpoint, message)),
                ..self
            }
        }
    }

    /// The number to go out next. The first message ever seen sets the mark
    /// rather than being measured against one.
    pub open spec fn mark(self) -> Option<u64> {
        match self.next_expected {
            Some(mark) => Some(mark),
            None => held::oldest(self.held),
        }
    }

    /// The message that can go out, if the one the mark is waiting for has
    /// arrived.
    pub open spec fn ready(self) -> Option<(usize, FeedMessage)> {
        match self.mark() {
            Some(mark) => if self.held.contains_key(mark) {
                Some(self.held[mark])
            } else {
                None
            },
            None => None,
        }
    }

    /// The message that can go out has gone out.
    pub open spec fn taken(self) -> Self {
        match self.ready() {
            None => self,
            Some((endpoint, message)) => {
                let mark = self.mark()->Some_0;
                let recent = if self.won_at.len() >= HISTORY {
                    self.won_at.drop_first()
                } else {
                    self.won_at
                };
                MergeView {
                    next_expected: Some((mark + 1) as u64),
                    held: self.held.remove(mark),
                    won_at: recent.push((mark, message.received_at@, endpoint)),
                    delivered: true,
                    ..self
                }
            },
        }
    }

    /// Whether the timer was armed for the gap in front of the oldest message
    /// held. A gap that was filled in part, or that a smaller number was found
    /// in, is the same gap; one behind the message that the timer was armed
    /// for is another.
    pub open spec fn timer_runs(self) -> bool {
        self.deadline is Some && match (self.gap_end, held::oldest(self.held)) {
            (Some(end), Some(oldest)) => oldest <= end,
            _ => false,
        }
    }

    /// Whether something is held that the timer does not run for yet.
    pub open spec fn must_arm(self) -> bool {
        held::oldest(self.held) is Some && !self.timer_runs()
    }

    /// The timer runs if and only if something is held, and for the gap in
    /// front of that.
    pub open spec fn armed(self, now: nat) -> Self {
        if held::oldest(self.held) is None {
            MergeView { deadline: None, gap_end: None, ..self }
        } else if self.timer_runs() {
            self
        } else {
            MergeView {
                deadline: Some(now + self.grace),
                gap_end: held::oldest(self.held),
                ..self
            }
        }
    }

    /// Whether the gap has to be closed before taking anything more in.
    pub open spec fn overdue(self, now: nat) -> bool {
        match self.armed(now).deadline {
            None => false,
            Some(at) => self.held.dom().len() >= self.capacity || at <= now,
        }
    }

    /// How many messages are missing in front of the oldest one held.
    pub open spec fn missing(self) -> u64 {
        match (held::oldest(self.held), self.next_expected) {
            (Some(resumed), Some(mark)) => if resumed > mark {
                (resumed - mark) as u64
            } else {
                0
            },
            _ => 0,
        }
    }

    /// What is missing has been given up on: the mark moves to the oldest
    /// message held, which says how many were missing. If any were, the
    /// winners no longer lead up to the mark and are forgotten.
    pub open spec fn confirmed(self) -> Self {
        match held::oldest(self.held) {
            None => MergeView { deadline: None, gap_end: None, ..self },
            Some(resumed) => {
                let (endpoint, message) = self.held[resumed];
                let marked = FeedMessage { missed_before: self.missing(), ..message };
                MergeView {
                    next_expected: Some(resumed),
                    held: self.held.insert(resumed, (endpoint, marked)),
                    deadline: None,
                    gap_end: None,
                    won_at: if self.missing() > 0 {
                        Seq::empty()
                    } else {
                        self.won_at
                    },
                    ..self
                }
            },
        }
    }

    /// What to do at `now`: send a message out, or wait.
    ///
    /// A message that is ready goes out. Without one, a gap that has to be
    /// closed is, and the message behind it goes out. Otherwise the timer is
    /// armed and nothing goes out.
    pub open spec fn advanced(self, now: nat) -> (Self, Option<FeedMessage>) {
        if self.ready() is Some {
            (self.taken(), Some(self.ready()->Some_0.1))
        } else if self.overdue(now) {
            let closed = self.armed(now).confirmed();
            (closed.taken(), Some(closed.ready()->Some_0.1))
        } else {
            (self.armed(now), None)
        }
    }

    /// Whether the clock and the numbers reach far enough for what would be
    /// done at `now`.
    pub open spec fn can_advance(self, now: nat) -> bool {
        &&& self.ready() is None && self.must_arm() ==> now + self.grace <= time::max_nanos()
        &&& self.advanced(now).1 matches Some(message) ==> message.sequence_number < u64::MAX
    }

    /// The endpoint that the message that went out at `now` came from.
    pub open spec fn source(self, now: nat) -> usize {
        if self.ready() is Some {
            self.ready()->Some_0.0
        } else {
            self.armed(now).confirmed().ready()->Some_0.0
        }
    }
}

/// Closing a gap always frees a message.
pub proof fn lemma_confirmed_is_ready(state: MergeView)
    requires
        state.wf(),
        held::oldest(state.held) is Some,
    ensures
        state.confirmed().wf(),
        state.confirmed().ready() is Some,
        state.confirmed().mark() == held::oldest(state.held),
        held::is_oldest(state.held, held::oldest(state.held)->Some_0),
{
    let resumed = held::oldest(state.held)->Some_0;
    assert(held::is_oldest(state.held, resumed));
    let after = state.confirmed();
    assert(after.held.dom() =~= state.held.dom());
    assert forall|key: u64| #[trigger] after.held.contains_key(key) implies {
        &&& after.held[key].1.sequence_number == key
        &&& after.next_expected matches Some(mark) ==> mark <= key
    } by {
        assert(state.held.contains_key(key));
        assert(state.held.contains_key(resumed));
    }
}

/// The message that can go out is the one the mark is waiting for.
pub proof fn lemma_ready_number(state: MergeView)
    requires
        state.wf(),
        state.ready() is Some,
    ensures
        state.ready()->Some_0.1.sequence_number == state.mark()->Some_0,
{
    assert(state.held.contains_key(state.mark()->Some_0));
}

/// Sending a message out keeps the merge sound.
pub proof fn lemma_taken_wf(state: MergeView)
    requires
        state.wf(),
        state.ready() is Some,
        state.mark()->Some_0 < u64::MAX,
    ensures
        state.taken().wf(),
        state.ready()->Some_0.1.sequence_number == state.mark()->Some_0,
{
    let mark = state.mark()->Some_0;
    let after = state.taken();
    assert forall|key: u64| #[trigger] after.held.contains_key(key) implies {
        &&& after.held[key].1.sequence_number == key
        &&& after.next_expected matches Some(next) ==> next <= key
    } by {
        assert(state.held.contains_key(key));
        if state.next_expected is None {
            held::lemma_oldest_exists(state.held, key);
        }
    }
    assert(state.held.contains_key(mark));
    assert forall|i: int| 0 <= i < after.won_at.len() implies (#[trigger] after.won_at[i]).0
        == after.won_at[0].0 + i by {
        if state.won_at.len() >= HISTORY {
            assert(state.won_at[1].0 == state.won_at[0].0 + 1);
            if i + 1 < state.won_at.len() {
                assert(after.won_at[i] == state.won_at[i + 1]);
            }
            assert(after.won_at[0] == state.won_at[1]);
        } else if i < state.won_at.len() {
            assert(after.won_at[i] == state.won_at[i]);
        }
    }
    if state.won_at.len() >= HISTORY {
        assert(after.won_at[0] == state.won_at[1]);
    } else if state.won_at.len() > 0 {
        assert(after.won_at[0] == state.won_at[0]);
    }
}

/// Endpoints as their views.
pub open spec fn endpoint_views(endpoints: Seq<EndpointState>) -> Seq<EndpointView> {
    endpoints.map_values(|endpoint: EndpointState| endpoint@)
}

/// Whether every endpoint is sound.
pub open spec fn endpoints_wf(endpoints: Seq<EndpointState>) -> bool {
    forall|i: int| 0 <= i < endpoints.len() ==> (#[trigger] endpoints[i]).wf()
}

/// Merge every connection into one ordered, duplicate-free stream.
///
/// Each connection delivers in order, so a message behind the high-water mark
/// is one some other connection already delivered, and dropping it is what
/// makes the merged stream duplicate-free. The relay's replayed backlog is
/// filtered by the same rule, which is why seeding the mark with
/// `resume_after` extends deduplication across a process restart.
///
/// A message *ahead* of the mark is the interesting case, because it means
/// something between is missing from whichever endpoint sent it — and another
/// endpoint may still have it. Confirming the gap immediately would advance
/// the mark past messages that are on their way, and discard them when they
/// arrive: the one situation redundancy exists for would be the one it failed
/// at. So a gap is held open, and closed early the moment another endpoint
/// fills it. Nothing is held while the stream is contiguous, which is nearly
/// always, so this costs latency only where there was already a hole.
pub struct Merge {
    /// The next sequence number to go out. `None` until the first message.
    next_expected: Option<u64>,
    /// Messages ahead of the mark, waiting for what comes before them, each
    /// with the number of the endpoint it came from.
    held: Held<(usize, FeedMessage)>,
    /// When the gap stops waiting.
    deadline: Option<Instant>,
    /// The oldest message held when the timer was armed. It stands for the gap
    /// in front of that message, and for no later one.
    gap_end: Option<u64>,
    /// Recent winners, for timing the losing copies against.
    won_at: VecDeque<(u64, Instant, usize)>,
    suppressed: u64,
    delivered: bool,
    grace: Duration,
    capacity: usize,
}

/// What the merge wants done.
pub enum Step {
    /// Hand this message to the subscriber, then ask again.
    Deliver(FeedMessage),
    /// Wait for the next copy, but no longer than until this point.
    Wait(Option<Instant>),
}

/// A winner with its arrival as a number.
pub open spec fn winner_view(entry: (u64, Instant, usize)) -> (u64, nat, usize) {
    (entry.0, entry.1@, entry.2)
}

/// A point in time that may be missing, in nanoseconds.
pub open spec fn instant_view(at: Option<Instant>) -> Option<nat> {
    match at {
        Some(at) => Some(at@),
        None => None,
    }
}

impl View for Merge {
    type V = MergeView;

    closed spec fn view(&self) -> MergeView {
        MergeView {
            next_expected: self.next_expected,
            held: self.held@,
            deadline: instant_view(self.deadline),
            gap_end: self.gap_end,
            won_at: self.won_at@.map_values(|entry: (u64, Instant, usize)| winner_view(entry)),
            suppressed: self.suppressed as nat,
            delivered: self.delivered,
            grace: self.grace@,
            capacity: self.capacity as nat,
        }
    }
}

impl Merge {
    /// A merge that has seen nothing.
    pub fn new(resume_after: Option<u64>, grace: Duration, capacity: usize) -> (out: Self)
        ensures
            out@ == MergeView::fresh(resume_after, grace@, capacity as nat),
            out@.wf(),
    {
        let out = Self {
            next_expected: match resume_after {
                Some(last) => Some(last.saturating_add(1)),
                None => None,
            },
            held: Held::new(),
            deadline: None,
            gap_end: None,
            won_at: VecDeque::with_capacity(HISTORY),
            suppressed: 0,
            delivered: false,
            grace,
            capacity,
        };
        assert(out@ =~= MergeView::fresh(resume_after, grace@, capacity as nat));
        out
    }

    /// How many copies were dropped so far.
    pub fn suppressed(&self) -> (out: u64)
        ensures
            out as nat == self@.suppressed,
    {
        self.suppressed
    }

    /// Whether anything has gone out so far.
    pub fn delivered(&self) -> (out: bool)
        ensures
            out == self@.delivered,
    {
        self.delivered
    }

    /// When the copy that won arrived and from which endpoint.
    fn winner(&self, sequence_number: u64) -> (out: Option<(Instant, usize)>)
        requires
            self@.wf(),
        ensures
            match out {
                Some((won, endpoint)) => self@.winner(sequence_number) == Some((won@, endpoint)),
                None => self@.winner(sequence_number) is None,
            },
    {
        match self.held.get(sequence_number) {
            Some(entry) => {
                return Some((entry.1.received_at, entry.0));
            },
            None => {},
        }
        if self.won_at.len() == 0 {
            return None;
        }
        let first = self.won_at[0].0;
        assert(self@.won_at[0].0 == first);
        if sequence_number < first {
            return None;
        }
        let offset: u64 = sequence_number - first;
        if offset >= self.won_at.len() as u64 {
            return None;
        }
        let entry = &self.won_at[offset as usize];
        assert(self@.won_at[offset as int] == winner_view(*entry));
        Some((entry.1, entry.2))
    }

    /// The first message whose winner is known, or may still come to be.
    fn first_known(&self) -> (out: Option<u64>)
        ensures
            out == self@.first_known(),
    {
        if self.won_at.len() == 0 {
            return self.next_expected;
        }
        let first = self.won_at[0].0;
        assert(self@.won_at[0].0 == first);
        Some(first)
    }

    /// Take a copy off a connection.
    ///
    /// Anything behind the mark, or a second copy of something already
    /// waiting, has lost; how late it was is recorded against its endpoint and
    /// it goes no further.
    pub fn offer(
        &mut self,
        endpoints: &mut Vec<EndpointState>,
        endpoint: usize,
        message: FeedMessage,
    )
        requires
            old(self)@.wf(),
            endpoints_wf(old(endpoints)@),
            endpoint < old(endpoints)@.len(),
            old(self)@.has_lost(message.sequence_number) ==> old(self)@.suppressed < u64::MAX,
        ensures
            final(self)@ == old(self)@.offered(endpoint, message),
            final(self)@.wf(),
            forall|n: nat|
                endpoint < n && #[trigger] old(self)@.knows(n) ==> final(self)@.knows(n),
            endpoints_wf(final(endpoints)@),
            final(endpoints)@.len() == old(endpoints)@.len(),
            endpoint_views(final(endpoints)@) == if old(self)@.has_lost(message.sequence_number) {
                endpoint_views(old(endpoints)@).update(
                    endpoint as int,
                    old(self)@.dropping(endpoint, message, old(endpoints)@[endpoint as int]@),
                )
            } else {
                endpoint_views(old(endpoints)@)
            },
    {
        let sequence_number = message.sequence_number;
        let behind = match self.next_expected {
            Some(mark) => sequence_number < mark,
            None => false,
        };
        if behind || self.held.contains(sequence_number) {
            // Only a copy that lost to a *different* endpoint says anything
            // about this one. An endpoint running several sockets produces a
            // copy per socket, and counting its own slower ones as lateness
            // would answer the wrong question: what matters is what reading
            // only this endpoint would have cost, and it cost nothing on a
            // message it won.
            let lateness = match self.winner(sequence_number) {
                Some((won, winner)) => if winner != endpoint {
                    Some(message.received_at.saturating_duration_since(won))
                } else {
                    None
                },
                None => None,
            };
            self.suppressed += 1;
            endpoints[endpoint].discarded(sequence_number, lateness);
            if let Some(first) = self.first_known() {
                endpoints[endpoint].forget_before(first);
            }
            assert(self@ =~= old(self)@.offered(endpoint, message));
            assert(endpoint_views(endpoints@) =~= endpoint_views(old(endpoints)@).update(
                endpoint as int,
                old(self)@.dropping(endpoint, message, old(endpoints)@[endpoint as int]@),
            ));
            return;
        }
        self.held.insert(sequence_number, (endpoint, message));
        assert(self@ =~= old(self)@.offered(endpoint, message));
    }

    /// The next message that can go out, if the one the mark is waiting for
    /// has arrived.
    pub fn take_ready(&mut self, endpoints: &mut Vec<EndpointState>) -> (out: Option<FeedMessage>)
        requires
            old(self)@.wf(),
            old(self)@.knows(old(endpoints)@.len()),
            endpoints_wf(old(endpoints)@),
            old(self)@.ready() is Some ==> old(self)@.mark()->Some_0 < u64::MAX,
        ensures
            final(self)@ == old(self)@.taken(),
            final(self)@.wf(),
            final(self)@.knows(old(endpoints)@.len()),
            endpoints_wf(final(endpoints)@),
            final(endpoints)@.len() == old(endpoints)@.len(),
            match old(self)@.ready() {
                None => out is None && *final(endpoints) == *old(endpoints),
                Some((endpoint, message)) => {
                    &&& out == Some(message)
                    &&& endpoint_views(final(endpoints)@) == endpoint_views(
                        old(endpoints)@,
                    ).update(
                        endpoint as int,
                        old(endpoints)@[endpoint as int]@.took(old(self)@.mark()->Some_0),
                    )
                },
            },
    {
        let mark = match self.next_expected {
            Some(mark) => mark,
            // The first message ever seen sets the mark rather than being
            // measured against one.
            None => match self.held.oldest() {
                Some(oldest) => oldest,
                None => {
                    return None;
                },
            },
        };
        if !self.held.contains(mark) {
            return None;
        }
        proof {
            lemma_taken_wf(self@);
        }
        let (endpoint, message) = match self.held.remove(mark) {
            Some(entry) => entry,
            None => {
                return None;
            },
        };
        self.next_expected = Some(mark + 1);

        endpoints[endpoint].took(mark);
        if self.won_at.len() >= HISTORY {
            self.won_at.pop_front();
        }
        self.won_at.push_back((mark, message.received_at, endpoint));
        self.delivered = true;
        assert(self@ =~= old(self)@.taken());
        assert(endpoint_views(endpoints@) =~= endpoint_views(old(endpoints)@).update(
            endpoint as int,
            old(endpoints)@[endpoint as int]@.took(mark),
        ));
        Some(message)
    }

    /// Whether the timer was armed for the gap in front of `oldest`, the oldest
    /// message held.
    fn timer_runs_for(&self, oldest: u64) -> (out: bool)
        requires
            held::oldest(self@.held) == Some(oldest),
        ensures
            out == self@.timer_runs(),
    {
        match self.gap_end {
            Some(end) => self.deadline.is_some() && oldest <= end,
            None => false,
        }
    }

    /// When the open gap stops waiting, arming the timer if it is not yet
    /// running for that gap. `None` when there is no gap.
    pub fn deadline(&mut self, now: Instant) -> (out: Option<Instant>)
        requires
            old(self)@.must_arm() ==> now@ + old(self)@.grace <= time::max_nanos(),
        ensures
            final(self)@ == old(self)@.armed(now@),
            instant_view(out) == final(self)@.deadline,
    {
        match self.held.oldest() {
            None => {
                self.deadline = None;
                self.gap_end = None;
            },
            Some(oldest) => if !self.timer_runs_for(oldest) {
                self.deadline = now.checked_add(self.grace);
                self.gap_end = Some(oldest);
            },
        }
        assert(self@ =~= old(self)@.armed(now@));
        self.deadline
    }

    /// Whether the gap has to be closed before taking anything more in.
    ///
    /// Holding a gap open costs memory the incoming channel would otherwise
    /// be refusing to accept, so it is bounded by the same number. Both this
    /// and the deadline are settled before the loop waits on anything, since
    /// a channel with a message ready would otherwise be preferred to a timer
    /// that has already expired, and the bound would not hold.
    pub fn must_confirm(&mut self, now: Instant) -> (out: bool)
        requires
            old(self)@.must_arm() ==> now@ + old(self)@.grace <= time::max_nanos(),
        ensures
            final(self)@ == old(self)@.armed(now@),
            out == old(self)@.overdue(now@),
    {
        match self.deadline(now) {
            None => false,
            Some(at) => self.held.len() >= self.capacity || at <= now,
        }
    }

    /// Give up on what is missing and resume from the oldest message held.
    pub fn confirm_gap(&mut self)
        requires
            old(self)@.wf(),
        ensures
            final(self)@ == old(self)@.confirmed(),
            final(self)@.wf(),
            forall|n: nat| #[trigger] old(self)@.knows(n) ==> final(self)@.knows(n),
    {
        self.deadline = None;
        self.gap_end = None;
        let resumed = match self.held.oldest() {
            Some(resumed) => resumed,
            None => {
                assert(self@ =~= old(self)@.confirmed());
                return;
            },
        };
        proof {
            lemma_confirmed_is_ready(old(self)@);
        }
        let missed: u64 = match self.next_expected {
            Some(mark) => resumed.saturating_sub(mark),
            None => 0,
        };
        if let Some((endpoint, message)) = self.held.remove(resumed) {
            let mut message = message;
            message.missed_before = missed;
            self.held.insert(resumed, (endpoint, message));
        }
        if missed > 0 {
            // The mark jumped, so positions in the history no longer
            // correspond to sequence numbers.
            self.won_at.clear();
        }
        self.next_expected = Some(resumed);
        assert(self@ =~= old(self)@.confirmed());
    }

    /// Whether the merge can be asked what to do at `now`. If that arms the
    /// timer, the clock has to reach as far as the grace runs, and if a message
    /// goes out, there has to be a number behind it.
    pub fn can_advance(&self, now: Instant) -> (out: bool)
        requires
            self@.wf(),
        ensures
            out == self@.can_advance(now@),
    {
        let oldest = match self.held.oldest() {
            Some(oldest) => oldest,
            None => {
                return true;
            },
        };
        let mark = match self.next_expected {
            Some(mark) => mark,
            None => oldest,
        };
        if self.held.contains(mark) {
            proof {
                lemma_ready_number(self@);
            }
            return mark < u64::MAX;
        }
        let at = if self.timer_runs_for(oldest) {
            self.deadline
        } else {
            now.checked_add(self.grace)
        };
        proof {
            let armed = self@.armed(now@);
            lemma_confirmed_is_ready(armed);
            lemma_ready_number(armed.confirmed());
        }
        match at {
            Some(at) => (self.held.len() < self.capacity && now < at) || oldest < u64::MAX,
            None => false,
        }
    }

    /// Decide what to do at `now`: everything ready goes out, one message per
    /// call, then either the gap is closed or the next copy is waited for.
    pub fn next(&mut self, endpoints: &mut Vec<EndpointState>, now: Instant) -> (out: Step)
        requires
            old(self)@.wf(),
            old(self)@.knows(old(endpoints)@.len()),
            endpoints_wf(old(endpoints)@),
            old(self)@.can_advance(now@),
        ensures
            final(self)@ == old(self)@.advanced(now@).0,
            final(self)@.wf(),
            final(self)@.knows(old(endpoints)@.len()),
            endpoints_wf(final(endpoints)@),
            final(endpoints)@.len() == old(endpoints)@.len(),
            match out {
                Step::Deliver(message) => {
                    &&& old(self)@.advanced(now@).1 == Some(message)
                    &&& endpoint_views(final(endpoints)@) == endpoint_views(
                        old(endpoints)@,
                    ).update(
                        old(self)@.source(now@) as int,
                        old(endpoints)@[old(self)@.source(now@) as int]@.took(
                            message.sequence_number,
                        ),
                    )
                },
                Step::Wait(until) => {
                    &&& old(self)@.advanced(now@).1 is None
                    &&& instant_view(until) == final(self)@.deadline
                    &&& *final(endpoints) == *old(endpoints)
                },
            },
    {
        proof {
            if self@.ready() is Some {
                lemma_ready_number(self@);
            }
        }
        match self.take_ready(endpoints) {
            Some(message) => {
                return Step::Deliver(message);
            },
            None => {},
        }
        if self.must_confirm(now) {
            proof {
                lemma_confirmed_is_ready(self@);
                assert(self@.confirmed().held.dom() =~= self@.held.dom());
                assert(self@.held.contains_key(held::oldest(self@.held)->Some_0));
                lemma_ready_number(self@.confirmed());
            }
            self.confirm_gap();
            match self.take_ready(endpoints) {
                Some(message) => {
                    return Step::Deliver(message);
                },
                None => {},
            }
        }
        Step::Wait(self.deadline)
    }
}

/// Something is held if and only if something is the oldest of it.
pub proof fn lemma_oldest_held(state: MergeView)
    requires
        state.held.dom().finite(),
    ensures
        held::oldest(state.held) is Some <==> state.held.dom().len() > 0,
{
    if let Some(oldest) = held::oldest(state.held) {
        assert(held::is_oldest(state.held, oldest));
        assert(state.held.dom().contains(oldest));
        if state.held.dom().len() == 0 {
            assert(state.held.dom() =~= Set::empty());
        }
    } else if state.held.dom().len() > 0 {
        held::lemma_oldest_exists(state.held, state.held.dom().choose());
    }
}

/// A copy is dropped if a message with its number has gone out, was given up
/// on, or is waiting already. It is counted, and nothing else of the merge
/// changes. Any other copy is kept as it came, under its number, and nothing
/// else changes.
pub proof fn copies_are_kept_or_dropped(
    merge: &mut Merge,
    endpoints: &mut Vec<EndpointState>,
    endpoint: usize,
    message: FeedMessage,
)
    requires
        call_ensures(Merge::offer, (merge, endpoints, endpoint, message), ()),
    ensures
        ({
            let before = old(merge)@;
            let after = final(merge)@;
            let number = message.sequence_number;
            let behind = before.next_expected matches Some(mark) && number < mark;
            let lost = behind || before.held.contains_key(number);
            &&& after.next_expected == before.next_expected
            &&& after.deadline == before.deadline && after.gap_end == before.gap_end
            &&& after.won_at == before.won_at && after.delivered == before.delivered
            &&& after.grace == before.grace && after.capacity == before.capacity
            &&& lost ==> after.held == before.held && after.suppressed == before.suppressed + 1
            &&& !lost ==> {
                &&& after.suppressed == before.suppressed
                &&& after.held.contains_key(number) && after.held[number] == (endpoint, message)
                &&& forall|other: u64| #![auto]
                    other != number ==> {
                        &&& after.held.contains_key(other) == before.held.contains_key(other)
                        &&& before.held.contains_key(other) ==> after.held[other]
                            == before.held[other]
                    }
            }
        }),
{
}

/// Only the endpoint that a copy came from is affected by it, and only if the
/// copy was dropped: then it counts as one more dropped there, as late as it
/// was behind the winner.
pub proof fn drops_are_booked_with_their_endpoint(
    merge: &mut Merge,
    endpoints: &mut Vec<EndpointState>,
    endpoint: usize,
    message: FeedMessage,
    i: int,
)
    requires
        call_ensures(Merge::offer, (merge, endpoints, endpoint, message), ()),
        0 <= i < old(endpoints)@.len(),
        endpoint < old(endpoints)@.len(),
    ensures
        final(endpoints)@.len() == old(endpoints)@.len(),
        i != endpoint || final(merge)@.suppressed == old(merge)@.suppressed
            ==> final(endpoints)@[i]@ == old(endpoints)@[i]@,
        final(merge)@.suppressed != old(merge)@.suppressed ==> {
            let before = old(endpoints)@[endpoint as int]@;
            let after = final(endpoints)@[endpoint as int]@;
            let late = old(merge)@.lateness(endpoint, message);
            &&& after.dropped == (before.dropped + 1) % 0x1_0000_0000_0000_0000
            &&& after.delivered == before.delivered
            &&& after.live == before.live
            &&& after == (EndpointView {
                timed: after.timed,
                ..before.discarded(message.sequence_number, late)
            })
            &&& after == old(merge)@.dropping(endpoint, message, before)
        },
{
    let a = endpoint_views(old(endpoints)@);
    let b = endpoint_views(final(endpoints)@);
    assert(a[i] == old(endpoints)@[i]@);
    assert(b[i] == final(endpoints)@[i]@);
    assert(a[endpoint as int] == old(endpoints)@[endpoint as int]@);
    assert(b[endpoint as int] == final(endpoints)@[endpoint as int]@);
}

/// How late a copy is: as long after the copy that is waiting as it arrived,
/// if that came from another endpoint; nothing if it arrived no later. A copy
/// of its own says nothing about an endpoint.
pub proof fn lateness_is_behind_the_one_waiting(
    state: MergeView,
    endpoint: usize,
    message: FeedMessage,
)
    requires
        state.held.contains_key(message.sequence_number),
    ensures
        ({
            let (winner, first) = state.held[message.sequence_number];
            let late = state.lateness(endpoint, message);
            &&& endpoint == winner ==> late is None
            &&& endpoint != winner && message.received_at@ >= first.received_at@ ==> (
            late matches Some(late) && first.received_at@ + late == message.received_at@)
            &&& endpoint != winner && message.received_at@ <= first.received_at@ ==> late == Some(
                0nat,
            )
        }),
{
}

/// How late a copy is behind one that has gone out: the winner is told by its
/// number, as long as it is among the last that went out without a gap being
/// given up on.
pub proof fn lateness_is_behind_the_one_that_won(
    state: MergeView,
    i: int,
    endpoint: usize,
    message: FeedMessage,
)
    requires
        state.wf(),
        0 <= i < state.won_at.len(),
        message.sequence_number == state.won_at[i].0,
    ensures
        ({
            let (number, won, winner) = state.won_at[i];
            let late = state.lateness(endpoint, message);
            &&& endpoint == winner ==> late is None
            &&& endpoint != winner && message.received_at@ >= won ==> (late matches Some(late)
                && won + late == message.received_at@)
            &&& endpoint != winner && message.received_at@ <= won ==> late == Some(0nat)
        }),
{
    assert(state.won_at[i].0 == state.won_at[0].0 + i);
    assert(state.next_expected->Some_0 == state.won_at[0].0 + state.won_at.len());
    if state.held.contains_key(message.sequence_number) {
        assert(state.next_expected->Some_0 <= message.sequence_number);
    }
}

/// Nothing is said of a copy whose winner is not known: neither waiting, nor
/// among the last that went out.
pub proof fn unknown_winners_time_nobody(
    state: MergeView,
    endpoint: usize,
    message: FeedMessage,
)
    requires
        state.wf(),
        !state.held.contains_key(message.sequence_number),
        forall|i: int|
            0 <= i < state.won_at.len() ==> (#[trigger] state.won_at[i]).0
                != message.sequence_number,
    ensures
        state.lateness(endpoint, message) is None,
{
    let at = message.sequence_number - state.won_at[0].0;
    if state.won_at.len() > 0 && 0 <= at < state.won_at.len() {
        assert(state.won_at[at].0 == state.won_at[0].0 + at);
    }
}

/// The number that has to go out next: the mark, or before anything has gone
/// out and without one to resume after, the smallest that is waiting.
pub open spec fn is_next(state: MergeView, number: u64) -> bool {
    match state.next_expected {
        Some(mark) => number == mark,
        None => held::is_oldest(state.held, number),
    }
}

/// What is next in line goes out as it came, if it has come. The mark moves
/// right behind it, it is no longer waiting, and it is the last winner of at
/// most 4096 that are remembered, the others as they were.
pub proof fn next_in_line_goes_out(
    merge: &mut Merge,
    endpoints: &mut Vec<EndpointState>,
    out: Option<FeedMessage>,
    number: u64,
)
    requires
        call_ensures(Merge::take_ready, (merge, endpoints), out),
        is_next(old(merge)@, number),
        number < u64::MAX,
    ensures
        ({
            let before = old(merge)@;
            let after = final(merge)@;
            &&& !before.held.contains_key(number) ==> out is None && after == before
            &&& before.held.contains_key(number) ==> {
                let (winner, message) = before.held[number];
                let kept = if before.won_at.len() >= 4096 {
                    1
                } else {
                    0int
                };
                &&& out == Some(message)
                &&& after.next_expected == Some((number + 1) as u64)
                &&& after.held == before.held.remove(number)
                &&& after.delivered
                &&& after.suppressed == before.suppressed
                &&& after.deadline == before.deadline && after.gap_end == before.gap_end
                &&& after.grace == before.grace && after.capacity == before.capacity
                &&& after.won_at.len() == before.won_at.len() + 1 - kept
                &&& after.won_at.last() == (number, message.received_at@, winner)
                &&& forall|i: int|
                    0 <= i < before.won_at.len() - kept ==> #[trigger] after.won_at[i]
                        == before.won_at[i + kept]
            }
        }),
{
    if old(merge)@.next_expected is None {
        held::lemma_oldest_unique(old(merge)@.held, number);
    }
}

/// A message that goes out counts as delivered with the endpoint that it came
/// from, and with no other.
pub proof fn deliveries_are_booked_with_their_endpoint(
    merge: &mut Merge,
    endpoints: &mut Vec<EndpointState>,
    message: FeedMessage,
    i: int,
)
    requires
        call_ensures(Merge::take_ready, (merge, endpoints), Some(message)),
        old(merge)@.wf(),
        0 <= i < old(endpoints)@.len(),
        old(merge)@.held[message.sequence_number].0 < old(endpoints)@.len(),
    ensures
        ({
            let winner = old(merge)@.held[message.sequence_number].0;
            let before = old(endpoints)@[i]@;
            let after = final(endpoints)@[i]@;
            &&& final(endpoints)@.len() == old(endpoints)@.len()
            &&& i != winner ==> after == before
            &&& i == winner ==> {
                &&& after.delivered == (before.delivered + 1) % 0x1_0000_0000_0000_0000
                &&& after.dropped == before.dropped
                &&& after.last_sequence == message.sequence_number || after.last_sequence
                    == before.last_sequence
                &&& message.sequence_number < u64::MAX ==> after.last_sequence
                    >= message.sequence_number && after.last_sequence < u64::MAX
            }
        }),
{
    lemma_ready_number(old(merge)@);
    let a = endpoint_views(old(endpoints)@);
    let b = endpoint_views(final(endpoints)@);
    assert(a[i] == old(endpoints)@[i]@);
    assert(b[i] == final(endpoints)@[i]@);
    let winner = old(merge)@.held[message.sequence_number].0;
    assert(a[winner as int] == old(endpoints)@[winner as int]@);
}

/// When the gap in front of what is waiting is given up on, at the latest: the
/// deadline that was given out for it, or the whole grace from now if none
/// was.
pub open spec fn gap_ends_at(state: MergeView, oldest: u64, now: nat) -> nat {
    match (state.deadline, state.gap_end) {
        (Some(at), Some(end)) => if oldest <= end {
            at
        } else {
            now + state.grace
        },
        _ => now + state.grace,
    }
}

/// Being asked for the deadline gives out when the gap ends, and there is none
/// exactly when nothing is waiting. Asking again before the gap is filled
/// gives the same answer. Nothing else changes.
pub proof fn deadlines_are_given_out(merge: &mut Merge, now: Instant, out: Option<Instant>)
    requires
        call_ensures(Merge::deadline, (merge, now), out),
    ensures
        ({
            let before = old(merge)@;
            let after = final(merge)@;
            &&& (forall|key: u64| !#[trigger] before.held.contains_key(key)) ==> out is None
                && after.deadline is None && after.gap_end is None
            &&& forall|oldest: u64| #[trigger]
                held::is_oldest(before.held, oldest) ==> {
                    &&& out matches Some(at) && at@ == gap_ends_at(before, oldest, now@)
                        && after.deadline == Some(at@)
                    &&& after.gap_end matches Some(end) && oldest <= end
                    &&& forall|later: nat| #[trigger]
                        gap_ends_at(after, oldest, later) == gap_ends_at(before, oldest, now@)
                }
            &&& after.held == before.held && after.next_expected == before.next_expected
            &&& after.won_at == before.won_at && after.suppressed == before.suppressed
            &&& after.delivered == before.delivered
            &&& after.grace == before.grace && after.capacity == before.capacity
        }),
{
    let before = old(merge)@;
    if forall|key: u64| !#[trigger] before.held.contains_key(key) {
        if let Some(oldest) = held::oldest(before.held) {
            assert(held::is_oldest(before.held, oldest));
            assert(before.held.contains_key(oldest));
        }
    }
    assert forall|oldest: u64| #[trigger] held::is_oldest(before.held, oldest) implies held::oldest(
        before.held,
    ) == Some(oldest) by {
        held::lemma_oldest_unique(before.held, oldest);
    }
}

/// A gap has to be closed exactly when something is waiting behind it and it
/// has lasted as long as it may, or as much is waiting as may.
pub proof fn gaps_close_when_they_must(merge: &mut Merge, now: Instant, out: bool, oldest: u64)
    requires
        call_ensures(Merge::must_confirm, (merge, now), out),
    ensures
        held::is_oldest(old(merge)@.held, oldest) ==> (out <==> gap_ends_at(
            old(merge)@,
            oldest,
            now@,
        ) <= now@ || old(merge)@.held.dom().len() >= old(merge)@.capacity),
        (forall|key: u64| !#[trigger] old(merge)@.held.contains_key(key)) ==> !out,
{
    let before = old(merge)@;
    if held::is_oldest(before.held, oldest) {
        held::lemma_oldest_unique(before.held, oldest);
    }
    if forall|key: u64| !#[trigger] before.held.contains_key(key) {
        if let Some(found) = held::oldest(before.held) {
            assert(held::is_oldest(before.held, found));
            assert(before.held.contains_key(found));
        }
    }
}

/// Giving up on a gap makes the oldest message that is waiting the next in
/// line, and says in it how many numbers are missing in front of it. Whatever
/// else is waiting stays as it is. The timer is off. Winners are forgotten if
/// and only if something was missing.
pub proof fn giving_up_resumes_at_the_oldest(merge: &mut Merge, oldest: u64)
    requires
        call_ensures(Merge::confirm_gap, (merge,), ()),
        old(merge)@.wf(),
        held::is_oldest(old(merge)@.held, oldest),
    ensures
        ({
            let before = old(merge)@;
            let after = final(merge)@;
            let (winner, message) = before.held[oldest];
            let missing: int = match before.next_expected {
                Some(mark) => oldest - mark,
                None => 0,
            };
            &&& after.next_expected == Some(oldest)
            &&& after.held.contains_key(oldest)
            &&& after.held[oldest].0 == winner
            &&& after.held[oldest].1.missed_before == missing
            &&& after.held[oldest].1 == (FeedMessage {
                missed_before: after.held[oldest].1.missed_before,
                ..message
            })
            &&& forall|other: u64| #![auto]
                other != oldest ==> {
                    &&& after.held.contains_key(other) == before.held.contains_key(other)
                    &&& before.held.contains_key(other) ==> after.held[other]
                        == before.held[other]
                }
            &&& after.deadline is None && after.gap_end is None
            &&& missing > 0 ==> after.won_at.len() == 0
            &&& missing == 0 ==> after.won_at == before.won_at
            &&& after.suppressed == before.suppressed && after.delivered == before.delivered
            &&& after.grace == before.grace && after.capacity == before.capacity
        }),
{
    held::lemma_oldest_unique(old(merge)@.held, oldest);
}

/// A merge starts out with nothing seen: after a number to resume after, with
/// the next one as the next in line.
pub proof fn merges_start_empty(
    resume_after: Option<u64>,
    grace: Duration,
    capacity: usize,
    merge: Merge,
)
    requires
        call_ensures(Merge::new, (resume_after, grace, capacity), merge),
    ensures
        resume_after is None ==> merge@.next_expected is None,
        resume_after matches Some(last) ==> (merge@.next_expected matches Some(mark) && (last
            < u64::MAX ==> mark == last + 1) && (last == u64::MAX ==> mark == last)),
        forall|key: u64| !#[trigger] merge@.held.contains_key(key),
        merge@.deadline is None && merge@.gap_end is None,
        merge@.won_at.len() == 0,
        merge@.suppressed == 0,
        !merge@.delivered,
        merge@.grace == grace@,
        merge@.capacity == capacity,
{
}

/// What the merge tells of itself is so.
pub proof fn readers_tell_the_truth(merge: &Merge, suppressed: u64, delivered: bool)
    requires
        call_ensures(Merge::suppressed, (merge,), suppressed),
        call_ensures(Merge::delivered, (merge,), delivered),
    ensures
        suppressed == merge@.suppressed,
        delivered == merge@.delivered,
{
}

/// What the merge does when it is asked, in full. If the next in line has come,
/// that goes out. If not, and something is waiting behind a gap that has lasted
/// as long as it may, or as much is waiting as may, the oldest that is waiting
/// goes out and says how many are missing in front of it. Otherwise nothing
/// does.
pub proof fn what_goes_out(state: MergeView, now: nat, oldest: u64)
    requires
        state.wf(),
        held::is_oldest(state.held, oldest),
    ensures
        ({
            let out = state.advanced(now).1;
            let mark = match state.next_expected {
                Some(mark) => mark,
                None => oldest,
            };
            let due = gap_ends_at(state, oldest, now) <= now || state.held.dom().len()
                >= state.capacity;
            &&& mark <= oldest
            &&& mark == oldest ==> out == Some(state.held[oldest].1)
            &&& mark < oldest && due ==> out == Some(
                FeedMessage { missed_before: (oldest - mark) as u64, ..state.held[oldest].1 },
            )
            &&& mark < oldest && !due ==> out is None
        }),
{
    held::lemma_oldest_unique(state.held, oldest);
    assert(state.held.contains_key(oldest));
    let mark = match state.next_expected {
        Some(mark) => mark,
        None => oldest,
    };
    if mark < oldest {
        assert(!state.held.contains_key(mark));
    }
}

/// Nothing goes out when nothing is waiting.
pub proof fn nothing_goes_out_of_nothing(state: MergeView, now: nat)
    requires
        forall|key: u64| !#[trigger] state.held.contains_key(key),
    ensures
        state.advanced(now).1 is None,
        state.advanced(now).0.deadline is None,
        state.advanced(now).0.held == state.held,
        state.advanced(now).0.next_expected == state.next_expected,
{
    if let Some(oldest) = held::oldest(state.held) {
        assert(held::is_oldest(state.held, oldest));
        assert(state.held.contains_key(oldest));
    }
}

/// Asking is one step of what the merge does: what goes out is handed on, and
/// if nothing does, it is said until when to wait.
pub proof fn asking_is_one_step(
    merge: &mut Merge,
    endpoints: &mut Vec<EndpointState>,
    now: Instant,
    step: Step,
    i: int,
)
    requires
        call_ensures(Merge::next, (merge, endpoints, now), step),
        old(merge)@.wf(),
        0 <= i < old(endpoints)@.len(),
        old(merge)@.knows(old(endpoints)@.len()),
    ensures
        final(merge)@ == old(merge)@.advanced(now@).0,
        match step {
            Step::Deliver(message) => {
                &&& old(merge)@.advanced(now@).1 == Some(message)
                &&& old(merge)@.held.contains_key(message.sequence_number)
                &&& final(endpoints)@[i]@ == if old(merge)@.held[message.sequence_number].0 == i {
                    old(endpoints)@[i]@.took(message.sequence_number)
                } else {
                    old(endpoints)@[i]@
                }
            },
            Step::Wait(until) => {
                &&& old(merge)@.advanced(now@).1 is None
                &&& *final(endpoints) == *old(endpoints)
                &&& match (until, final(merge)@.deadline) {
                    (Some(at), Some(deadline)) => at@ == deadline,
                    (None, None) => true,
                    _ => false,
                }
            },
        },
{
    let before = old(merge)@;
    if let Step::Deliver(message) = step {
        let a = endpoint_views(old(endpoints)@);
        let b = endpoint_views(final(endpoints)@);
        assert(a[i] == old(endpoints)@[i]@);
        assert(b[i] == final(endpoints)@[i]@);
        if before.ready() is Some {
            lemma_ready_number(before);
            assert(before.held.contains_key(before.mark()->Some_0));
        } else {
            let armed = before.armed(now@);
            lemma_confirmed_is_ready(armed);
            let closed = armed.confirmed();
            lemma_ready_number(closed);
            let oldest = held::oldest(before.held)->Some_0;
            assert(closed.held.contains_key(oldest));
            assert(before.held.contains_key(oldest));
        }
        let source = before.source(now@);
        assert(a[source as int] == old(endpoints)@[source as int]@);
    }
}

/// The merge can be asked at any time that the clock reaches a grace beyond, as
/// long as no message with the last number there is is waiting.
pub proof fn asking_is_nearly_always_possible(merge: &Merge, now: Instant, out: bool)
    requires
        call_ensures(Merge::can_advance, (merge, now), out),
        merge@.wf(),
        forall|key: u64| #[trigger] merge@.held.contains_key(key) ==> key < u64::MAX,
        now@ + merge@.grace <= u64::MAX * 1_000_000_000 + 999_999_999,
    ensures
        out,
{
    let state = merge@;
    if state.advanced(now@).1 is Some {
        if state.ready() is Some {
            lemma_ready_number(state);
            assert(state.held.contains_key(state.mark()->Some_0));
        } else {
            let armed = state.armed(now@);
            lemma_confirmed_is_ready(armed);
            lemma_ready_number(armed.confirmed());
            let oldest = held::oldest(state.held)->Some_0;
            assert(state.held.contains_key(oldest));
        }
    }
}

} // verus!
