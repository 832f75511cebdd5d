//! What the merged stream promises, whatever comes in and whenever.
//!
//! A run of the merge is a sequence of events: copies that come in, and points
//! in time at which it is asked what to do. The statements here hold of every
//! run.

use vstd::prelude::*;

use crate::feed::FeedMessage;
use crate::held;
use crate::merge;
use crate::merge::MergeView;

verus! {

/// What can happen to the merge.
pub enum Event {
    /// A copy came in from an endpoint.
    Offer { endpoint: usize, message: FeedMessage },
    /// The merge was asked what to do.
    Ask { now: nat },
}

/// What an event does: the state after it, and the message that went out.
pub open spec fn step(state: MergeView, event: Event) -> (MergeView, Option<FeedMessage>) {
    match event {
        Event::Offer { endpoint, message } => (state.offered(endpoint, message), None),
        Event::Ask { now } => state.advanced(now),
    }
}

/// What some events do: the state after them, and the messages that went out.
pub open spec fn run(state: MergeView, events: Seq<Event>) -> (MergeView, Seq<FeedMessage>)
    decreases events.len(),
{
    if events.len() == 0 {
        (state, Seq::empty())
    } else {
        let (before, out) = run(state, events.drop_last());
        match step(before, events.last()) {
            (after, Some(message)) => (after, out.push(message)),
            (after, None) => (after, out),
        }
    }
}

/// Whether the copies that come in are as connections hand them over: none
/// says that something was missed before it.
pub open spec fn plain(events: Seq<Event>) -> bool {
    forall|i: int|
        0 <= i < events.len() ==> match #[trigger] events[i] {
            Event::Offer { endpoint, message } => message.missed_before == 0,
            Event::Ask { now } => true,
        }
}

/// Whether what is held is as connections handed it over.
pub open spec fn plainly_held(state: MergeView) -> bool {
    forall|key: u64| #[trigger]
        state.held.contains_key(key) ==> state.held[key].1.missed_before == 0
}

/// Whether there is a number behind every message that went out. The merge
/// cannot be asked to send the last number there is.
pub open spec fn below_last(out: Seq<FeedMessage>) -> bool {
    forall|i: int| 0 <= i < out.len() ==> (#[trigger] out[i]).sequence_number < u64::MAX
}

/// Whether `message` came in with one of the events, but for what it says was
/// missed before it.
pub open spec fn came_in(events: Seq<Event>, message: FeedMessage) -> bool {
    exists|i: int| 0 <= i < events.len() && brought(#[trigger] events[i], message)
}

/// Whether an event brought `message`, but for what it says was missed.
pub open spec fn brought(event: Event, message: FeedMessage) -> bool {
    event matches Event::Offer { endpoint, message: offered } && message == (FeedMessage {
        missed_before: message.missed_before,
        ..offered
    })
}

/// Whether everything held came in with one of the events.
pub open spec fn held_came_in(state: MergeView, events: Seq<Event>) -> bool {
    forall|key: u64| #[trigger]
        state.held.contains_key(key) ==> came_in(events, state.held[key].1)
}

/// The events but for the last are as plain.
proof fn lemma_plain_front(events: Seq<Event>)
    requires
        plain(events),
        events.len() > 0,
    ensures
        plain(events.drop_last()),
        events.last() matches Event::Offer { endpoint, message } ==> message.missed_before == 0,
{
    let front = events.drop_last();
    assert forall|i: int| 0 <= i < front.len() implies match #[trigger] front[i] {
        Event::Offer { endpoint, message } => message.missed_before == 0,
        Event::Ask { now } => true,
    } by {
        assert(front[i] == events[i]);
    }
    assert(events[events.len() - 1] == events.last());
}

/// What went out with all events but the last comes first of what went out.
pub proof fn lemma_sent_front(start: MergeView, events: Seq<Event>)
    requires
        events.len() > 0,
        below_last(run(start, events).1),
    ensures
        below_last(run(start, events.drop_last()).1),
        step(run(start, events.drop_last()).0, events.last()).1 matches Some(message)
            ==> message.sequence_number < u64::MAX,
{
    let (before, sent) = run(start, events.drop_last());
    let out = run(start, events).1;
    assert forall|i: int| 0 <= i < sent.len() implies (#[trigger] sent[i]).sequence_number
        < u64::MAX by {
        assert(out[i] == sent[i]);
    }
    if let Some(message) = step(before, events.last()).1 {
        assert(out[out.len() - 1] == message);
    }
}

/// Taking a copy in keeps the merge sound.
proof fn lemma_offered(state: MergeView, endpoint: usize, message: FeedMessage)
    requires
        state.wf(),
    ensures
        state.offered(endpoint, message).wf(),
{
    let after = state.offered(endpoint, message);
    if !state.has_lost(message.sequence_number) {
        assert forall|key: u64| #[trigger] after.held.contains_key(key) implies {
            &&& after.held[key].1.sequence_number == key
            &&& after.next_expected matches Some(mark) ==> mark <= key
        } by {
            assert(key == message.sequence_number || state.held.contains_key(key));
        }
    }
}

/// What being asked gives: the state stays sound, and a message that goes out
/// is not behind the mark. If what is held is plain, it carries the number of
/// the mark, plus what it says was missed.
proof fn lemma_advanced(state: MergeView, now: nat)
    requires
        state.wf(),
        state.advanced(now).1 matches Some(message) ==> message.sequence_number < u64::MAX,
    ensures
        state.advanced(now).0.wf(),
        plainly_held(state) ==> plainly_held(state.advanced(now).0),
        match state.advanced(now).1 {
            None => state.advanced(now).0.next_expected == state.next_expected
                && state.advanced(now).0.held == state.held,
            Some(message) => {
                &&& state.advanced(now).0.next_expected == Some(
                    (message.sequence_number + 1) as u64,
                )
                &&& state.next_expected matches Some(mark) ==> mark <= message.sequence_number
                &&& plainly_held(state) ==> match state.next_expected {
                    Some(mark) => message.sequence_number == mark + message.missed_before,
                    None => message.missed_before == 0,
                }
                &&& state.held.contains_key(message.sequence_number)
                &&& message == (FeedMessage {
                    missed_before: message.missed_before,
                    ..state.held[message.sequence_number].1
                })
                &&& state.advanced(now).0.held == state.held.remove(message.sequence_number)
            },
        },
{
    if state.ready() is Some {
        let mark = state.mark()->Some_0;
        assert(state.held.contains_key(mark));
        merge::lemma_ready_number(state);
        merge::lemma_taken_wf(state);
    } else if state.overdue(now) {
        let armed = state.armed(now);
        let closed = armed.confirmed();
        merge::lemma_confirmed_is_ready(armed);
        let resumed = held::oldest(armed.held)->Some_0;
        assert(armed.held.contains_key(resumed));
        assert(closed.held.contains_key(resumed));
        merge::lemma_ready_number(closed);
        merge::lemma_taken_wf(closed);
        assert(closed.held.remove(resumed) =~= state.held.remove(resumed));
    }
}

/// Whether every message is behind the one before it, and none is before the
/// mark.
spec fn follows(start: MergeView, out: Seq<FeedMessage>) -> bool {
    &&& forall|i: int|
        0 < i < out.len() ==> (#[trigger] out[i]).sequence_number > out[i - 1].sequence_number
    &&& out.len() > 0 ==> (start.next_expected matches Some(mark) ==> mark
        <= out[0].sequence_number)
}

/// Whether every number is one that went out or that was missed.
spec fn accounted_for(start: MergeView, out: Seq<FeedMessage>) -> bool {
    &&& forall|i: int|
        0 < i < out.len() ==> (#[trigger] out[i]).sequence_number == out[i - 1].sequence_number + 1
            + out[i].missed_before
    &&& out.len() > 0 ==> match start.next_expected {
        Some(mark) => out[0].sequence_number == mark + out[0].missed_before,
        None => out[0].missed_before == 0,
    }
}

/// What holds after every run: the mark is right behind the last message that
/// went out, what went out came in and counts up, and if what came in was
/// plain, what went out accounts for every number.
proof fn lemma_run(start: MergeView, events: Seq<Event>)
    requires
        start.wf(),
        start.held.dom().len() == 0,
        below_last(run(start, events).1),
    ensures
        ({
            let (state, out) = run(start, events);
            &&& state.wf()
            &&& held_came_in(state, events)
            &&& out.len() == 0 ==> state.next_expected == start.next_expected
            &&& out.len() > 0 ==> state.next_expected is Some && state.next_expected->Some_0
                == out.last().sequence_number + 1
            &&& forall|i: int| 0 <= i < out.len() ==> came_in(events, #[trigger] out[i])
            &&& follows(start, out)
            &&& plain(events) ==> plainly_held(state) && accounted_for(start, out)
        }),
    decreases events.len(),
{
    if events.len() == 0 {
        assert(start.held.dom() =~= Set::empty());
        assert forall|key: u64| !#[trigger] start.held.contains_key(key) by {
            assert(!start.held.dom().contains(key));
        }
    } else {
        let front = events.drop_last();
        if plain(events) {
            lemma_plain_front(events);
        }
        lemma_sent_front(start, events);
        lemma_run(start, front);
        let (before, sent) = run(start, front);
        let (state, out) = run(start, events);
        let last = events.last();
        assert(events[events.len() - 1] == last);
        assert forall|message: FeedMessage| came_in(front, message) implies came_in(
            events,
            message,
        ) by {
            let i = choose|i: int| 0 <= i < front.len() && brought(#[trigger] front[i], message);
            assert(brought(events[i], message));
        }
        match last {
            Event::Offer { endpoint, message } => {
                lemma_offered(before, endpoint, message);
                assert(brought(events[events.len() - 1], message));
                assert forall|key: u64| #[trigger] state.held.contains_key(key) implies {
                    &&& came_in(events, state.held[key].1)
                    &&& plain(events) ==> state.held[key].1.missed_before == 0
                } by {
                    if !before.held.contains_key(key) {
                        assert(state.held[key].1 == message);
                    }
                }
            },
            Event::Ask { now } => {
                lemma_advanced(before, now);
                assert forall|key: u64| #[trigger] state.held.contains_key(key) implies came_in(
                    events,
                    state.held[key].1,
                ) by {
                    assert(before.held.contains_key(key));
                }
                if let Some(message) = before.advanced(now).1 {
                    let first = before.held[message.sequence_number].1;
                    assert(came_in(front, first));
                    let i = choose|i: int|
                        0 <= i < front.len() && brought(#[trigger] front[i], first);
                    assert(brought(events[i], message));
                    assert(out =~= sent.push(message));
                    assert forall|i: int| 0 < i < out.len() implies {
                        let here = #[trigger] out[i];
                        let last = out[i - 1].sequence_number;
                        &&& here.sequence_number > last
                        &&& plain(events) ==> here.sequence_number == last + 1 + here.missed_before
                    } by {
                        if i < sent.len() {
                            assert(out[i] == sent[i] && out[i - 1] == sent[i - 1]);
                        } else {
                            assert(out[i - 1] == sent.last());
                        }
                    }
                    assert forall|i: int| 0 <= i < out.len() implies came_in(
                        events,
                        #[trigger] out[i],
                    ) by {
                        if i < sent.len() {
                            assert(out[i] == sent[i]);
                        }
                    }
                }
            },
        }
    }
}

proof fn lemma_increasing(out: Seq<FeedMessage>, i: int, j: int)
    requires
        0 <= i < j < out.len(),
        forall|i: int|
            0 < i < out.len() ==> (#[trigger] out[i]).sequence_number > out[i - 1].sequence_number,
    ensures
        out[i].sequence_number < out[j].sequence_number,
    decreases j - i,
{
    assert(out[j].sequence_number > out[j - 1].sequence_number);
    if i < j - 1 {
        lemma_increasing(out, i, j - 1);
    }
}

/// Messages come out in strict sequence order without repeats, however many
/// endpoints feed them, however often those replay, and whenever the merge is
/// asked.
pub proof fn stream_is_ordered(
    resume_after: Option<u64>,
    grace: nat,
    capacity: nat,
    events: Seq<Event>,
)
    requires
        below_last(run(MergeView::fresh(resume_after, grace, capacity), events).1),
    ensures
        ({
            let out = run(MergeView::fresh(resume_after, grace, capacity), events).1;
            forall|i: int, j: int|
                0 <= i < j < out.len() ==> (#[trigger] out[i]).sequence_number < (
                #[trigger] out[j]).sequence_number
        }),
{
    let start = MergeView::fresh(resume_after, grace, capacity);
    lemma_run(start, events);
    let out = run(start, events).1;
    assert forall|i: int, j: int| 0 <= i < j < out.len() implies (
    #[trigger] out[i]).sequence_number < (#[trigger] out[j]).sequence_number by {
        lemma_increasing(out, i, j);
    }
}

/// Every number is accounted for: a message's number follows that of the one
/// before it, plus as many as it says were missed.
pub proof fn gaps_are_accounted_for(
    resume_after: Option<u64>,
    grace: nat,
    capacity: nat,
    events: Seq<Event>,
)
    requires
        plain(events),
        below_last(run(MergeView::fresh(resume_after, grace, capacity), events).1),
    ensures
        ({
            let out = run(MergeView::fresh(resume_after, grace, capacity), events).1;
            forall|i: int|
                0 < i < out.len() ==> (#[trigger] out[i]).sequence_number == out[i
                    - 1].sequence_number + 1 + out[i].missed_before
        }),
{
    lemma_run(MergeView::fresh(resume_after, grace, capacity), events);
}

/// A client that resumes gets nothing it has already processed, and the first
/// message it gets says how many were missed while it was down. The last
/// number there is cannot be resumed after.
pub proof fn resuming_skips_what_was_processed(
    last: u64,
    grace: nat,
    capacity: nat,
    events: Seq<Event>,
)
    requires
        last < u64::MAX,
        below_last(run(MergeView::fresh(Some(last), grace, capacity), events).1),
    ensures
        ({
            let out = run(MergeView::fresh(Some(last), grace, capacity), events).1;
            &&& forall|i: int| 0 <= i < out.len() ==> (#[trigger] out[i]).sequence_number > last
            &&& plain(events) && out.len() > 0 ==> out[0].sequence_number == last + 1
                + out[0].missed_before
        }),
{
    let start = MergeView::fresh(Some(last), grace, capacity);
    lemma_run(start, events);
    let out = run(start, events).1;
    assert forall|i: int| 0 <= i < out.len() implies (#[trigger] out[i]).sequence_number
        > last by {
        if i > 0 {
            lemma_increasing(out, 0, i);
        }
    }
}

/// Without a number to resume after, the first message is measured against
/// nothing.
pub proof fn first_message_misses_nothing(grace: nat, capacity: nat, events: Seq<Event>)
    requires
        plain(events),
        below_last(run(MergeView::fresh(None, grace, capacity), events).1),
    ensures
        ({
            let out = run(MergeView::fresh(None, grace, capacity), events).1;
            out.len() > 0 ==> out[0].missed_before == 0
        }),
{
    lemma_run(MergeView::fresh(None, grace, capacity), events);
}

/// Whatever comes out came in: only what is said to have been missed is
/// changed on the way.
pub proof fn nothing_is_made_up(
    resume_after: Option<u64>,
    grace: nat,
    capacity: nat,
    events: Seq<Event>,
)
    requires
        below_last(run(MergeView::fresh(resume_after, grace, capacity), events).1),
    ensures
        ({
            let out = run(MergeView::fresh(resume_after, grace, capacity), events).1;
            forall|i: int| 0 <= i < out.len() ==> came_in(events, #[trigger] out[i])
        }),
{
    lemma_run(MergeView::fresh(resume_after, grace, capacity), events);
}

/// A message that arrived in time is not dropped: whatever happens next, it is
/// still held as it came in, or it is what went out.
pub proof fn held_until_delivered(state: MergeView, event: Event, key: u64)
    requires
        state.wf(),
        state.held.contains_key(key),
        step(state, event).1 matches Some(message) ==> message.sequence_number < u64::MAX,
    ensures
        ({
            let (after, out) = step(state, event);
            ||| after.held.contains_key(key) && after.held[key] == state.held[key]
            ||| out matches Some(message) && message == (FeedMessage {
                missed_before: message.missed_before,
                ..state.held[key].1
            })
        }),
{
    if let Event::Ask { now } = event {
        lemma_advanced(state, now);
    }
}

/// A message that is next in line goes out the moment it is asked for,
/// whatever else is held: a contiguous stream is never held up, and a gap that
/// another endpoint fills costs nothing.
pub proof fn next_in_line_is_not_held(
    state: MergeView,
    endpoint: usize,
    message: FeedMessage,
    now: nat,
)
    requires
        state.wf(),
        state.next_expected == Some(message.sequence_number),
        !state.held.contains_key(message.sequence_number),
    ensures
        state.offered(endpoint, message).advanced(now).1 == Some(message),
        state.offered(endpoint, message).advanced(now).0.held == state.held,
{
    let after = state.offered(endpoint, message);
    assert(after.held.remove(message.sequence_number) =~= state.held);
}

/// The first message ever is not held up either.
pub proof fn first_in_line_is_not_held(
    state: MergeView,
    endpoint: usize,
    message: FeedMessage,
    now: nat,
)
    requires
        state.wf(),
        state.next_expected is None,
        state.held.dom().len() == 0,
    ensures
        state.offered(endpoint, message).advanced(now).1 == Some(message),
        state.offered(endpoint, message).advanced(now).0.held == state.held,
{
    assert(state.held.dom() =~= Set::empty());
    assert(!state.held.dom().contains(message.sequence_number));
    let after = state.offered(endpoint, message);
    assert forall|other: u64| #[trigger] after.held.contains_key(other) implies message.sequence_number
        <= other by {
        assert(!state.held.dom().contains(other));
    }
    held::lemma_oldest_unique(after.held, message.sequence_number);
    assert(after.held.remove(message.sequence_number) =~= state.held);
}

/// A gap is given its time: as long as the timer has not run out and there is
/// room, nothing is given up on and nothing goes out.
pub proof fn gap_is_held_open(state: MergeView, now: nat)
    requires
        state.ready() is None,
        state.held.dom().len() < state.capacity,
        state.armed(now).deadline matches Some(at) ==> now < at,
    ensures
        state.advanced(now).1 is None,
        state.advanced(now).0.next_expected == state.next_expected,
        state.advanced(now).0.held == state.held,
{
}

/// The timer of a gap is not restarted while the gap stays open: not by a copy
/// that comes in, even one in the middle of the gap, nor by being asked again.
pub proof fn gap_timer_runs_on(
    state: MergeView,
    endpoint: usize,
    message: FeedMessage,
    later: nat,
)
    requires
        state.timer_runs(),
    ensures
        state.armed(later).deadline == state.deadline,
        state.offered(endpoint, message).armed(later).deadline == state.deadline,
{
    let after = state.offered(endpoint, message);
    let oldest = held::oldest(state.held)->Some_0;
    assert(held::is_oldest(state.held, oldest));
    assert(after.held.contains_key(oldest));
    held::lemma_oldest_exists(after.held, oldest);
}

/// A gap behind the message that the timer was armed for has a timer of its
/// own: it starts when the merge is first asked.
pub proof fn later_gap_has_its_own_timer(state: MergeView, now: nat)
    requires
        held::oldest(state.held) matches Some(oldest) && (state.gap_end matches Some(end)
            ==> end < oldest),
    ensures
        state.armed(now).deadline == Some(now + state.grace),
{
}

/// Whether the numbers from `from` up to `to` are known to be missing: they
/// are not behind the mark, none of them is held, and one further on is.
pub open spec fn gap_open(state: MergeView, from: int, to: int) -> bool {
    &&& state.next_expected matches Some(mark) && mark <= from
    &&& forall|key: u64| from <= key < to ==> !#[trigger] state.held.contains_key(key)
    &&& exists|key: u64| #[trigger] state.held.contains_key(key) && to <= key
}

/// Whether the merge was asked with event `i`, at `grace` nanoseconds before
/// `now` or earlier, and the gap was open then.
pub open spec fn asked_in_time(
    start: MergeView,
    events: Seq<Event>,
    i: int,
    now: nat,
    from: int,
    to: int,
) -> bool {
    &&& events[i] matches Event::Ask { now: asked } && asked + start.grace <= now
    &&& gap_open(run(start, events.take(i)).0, from, to)
}

/// Whether the timer that runs in `state` was armed by event `i`.
spec fn armed_by(start: MergeView, events: Seq<Event>, i: int, state: MergeView) -> bool {
    let before = run(start, events.take(i)).0;
    &&& events[i] matches Event::Ask { now } && state.deadline == Some(now + start.grace)
    &&& state.gap_end is Some
    &&& state.gap_end == held::oldest(before.held)
    &&& match (before.next_expected, state.next_expected) {
        (Some(then), Some(mark)) => then <= mark,
        _ => false,
    }
}

/// What every event keeps: the state stays sound, and the mark never goes
/// back.
proof fn lemma_step(state: MergeView, event: Event)
    requires
        state.wf(),
        step(state, event).1 matches Some(message) ==> message.sequence_number < u64::MAX,
    ensures
        ({
            let after = step(state, event).0;
            &&& after.wf()
            &&& after.grace == state.grace
            &&& after.capacity == state.capacity
            &&& state.next_expected matches Some(mark) ==> after.next_expected is Some && mark
                <= after.next_expected->Some_0
        }),
{
    match event {
        Event::Offer { endpoint, message } => {
            lemma_offered(state, endpoint, message);
        },
        Event::Ask { now } => {
            lemma_advanced(state, now);
        },
    }
}

/// The state stays sound over a run.
pub proof fn lemma_sound_run(start: MergeView, events: Seq<Event>)
    requires
        start.wf(),
        below_last(run(start, events).1),
    ensures
        ({
            let state = run(start, events).0;
            &&& state.wf()
            &&& state.grace == start.grace
            &&& state.capacity == start.capacity
            &&& start.next_expected matches Some(mark) ==> state.next_expected is Some && mark
                <= state.next_expected->Some_0
        }),
    decreases events.len(),
{
    if events.len() > 0 {
        lemma_sent_front(start, events);
        lemma_sound_run(start, events.drop_last());
        lemma_step(run(start, events.drop_last()).0, events.last());
    }
}

/// What is held stays plain over a run.
proof fn lemma_plainly_held(start: MergeView, events: Seq<Event>)
    requires
        start.wf(),
        plainly_held(start),
        plain(events),
        below_last(run(start, events).1),
    ensures
        plainly_held(run(start, events).0),
    decreases events.len(),
{
    if events.len() > 0 {
        let front = events.drop_last();
        lemma_plain_front(events);
        lemma_sent_front(start, events);
        lemma_plainly_held(start, front);
        lemma_sound_run(start, front);
        let before = run(start, front).0;
        let after = run(start, events).0;
        match events.last() {
            Event::Offer { endpoint, message } => {
                assert forall|key: u64| #[trigger]
                    after.held.contains_key(key) implies after.held[key].1.missed_before == 0 by {
                    if !before.held.contains_key(key) {
                        assert(after.held[key].1 == message);
                    }
                }
            },
            Event::Ask { now } => {
                lemma_advanced(before, now);
            },
        }
    }
}

/// A timer that runs was armed by being asked, for a gap that was open then.
proof fn lemma_timer(start: MergeView, events: Seq<Event>)
    requires
        start.wf(),
        start.deadline is None,
        below_last(run(start, events).1),
    ensures
        ({
            let state = run(start, events).0;
            state.deadline is Some ==> exists|i: int|
                0 <= i < events.len() && #[trigger] armed_by(start, events, i, state)
        }),
    decreases events.len(),
{
    if events.len() > 0 {
        let front = events.drop_last();
        let last = events.len() - 1;
        lemma_sent_front(start, events);
        lemma_timer(start, front);
        lemma_sound_run(start, front);
        let before = run(start, front).0;
        let state = run(start, events).0;
        lemma_step(before, events.last());
        assert(events.take(last) =~= front);
        if state.deadline is Some {
            if before.deadline == state.deadline && before.gap_end == state.gap_end {
                let i = choose|i: int|
                    0 <= i < front.len() && #[trigger] armed_by(start, front, i, before);
                assert(front.take(i) =~= events.take(i));
                assert(front[i] == events[i]);
                assert(armed_by(start, events, i, state));
            } else {
                let oldest = held::oldest(before.held)->Some_0;
                if before.next_expected is None {
                    assert(held::is_oldest(before.held, oldest));
                }
                assert(armed_by(start, events, last, state));
            }
        }
    }
}

/// A gap is given its time: nothing behind it goes out before `grace` has
/// passed since the merge was asked with that gap open, unless what is held
/// reaches the capacity. That another gap was open before makes no difference.
pub proof fn gap_gets_its_grace(
    resume_after: Option<u64>,
    grace: nat,
    capacity: nat,
    events: Seq<Event>,
    now: nat,
)
    requires
        plain(events),
        below_last(
            run(
                MergeView::fresh(resume_after, grace, capacity),
                events.push(Event::Ask { now }),
            ).1,
        ),
    ensures
        ({
            let start = MergeView::fresh(resume_after, grace, capacity);
            let asked = events.push(Event::Ask { now });
            let state = run(start, events).0;
            state.advanced(now).1 matches Some(message) ==> (message.missed_before > 0
                && state.held.dom().len() < capacity ==> exists|i: int|
                0 <= i < asked.len() && #[trigger] asked_in_time(
                    start,
                    asked,
                    i,
                    now,
                    message.sequence_number - message.missed_before,
                    message.sequence_number as int,
                ))
        }),
{
    let start = MergeView::fresh(resume_after, grace, capacity);
    let asked = events.push(Event::Ask { now });
    let state = run(start, events).0;
    assert(asked.drop_last() =~= events);
    lemma_sent_front(start, asked);
    lemma_sound_run(start, events);
    lemma_plainly_held(start, events);
    lemma_timer(start, events);
    lemma_advanced(state, now);
    if let Some(message) = state.advanced(now).1 {
        if message.missed_before > 0 && state.held.dom().len() < capacity {
            let to = message.sequence_number;
            let from = message.sequence_number - message.missed_before;
            assert(state.held.contains_key(to));
            merge::lemma_confirmed_is_ready(state.armed(now));
            assert(held::oldest(state.held) == Some(to));
            assert(held::is_oldest(state.held, to));
            if state.timer_runs() {
                let i = choose|i: int|
                    0 <= i < events.len() && #[trigger] armed_by(start, events, i, state);
                let then = run(start, events.take(i)).0;
                let end = held::oldest(then.held)->Some_0;
                assert(held::is_oldest(then.held, end));
                assert(then.held.contains_key(end));
                assert(asked.take(i) =~= events.take(i));
                assert(asked[i] == events[i]);
                assert(asked_in_time(start, asked, i, now, from, to as int));
            } else {
                assert(asked.take(events.len() as int) =~= events);
                assert(asked_in_time(start, asked, events.len() as int, now, from, to as int));
            }
        }
    }
}

/// Whether `message` went out, but for what it says was missed before it.
pub open spec fn went_out(out: Seq<FeedMessage>, message: FeedMessage) -> bool {
    exists|j: int|
        0 <= j < out.len() && (#[trigger] out[j]) == (FeedMessage {
            missed_before: out[j].missed_before,
            ..message
        })
}

/// What is held stays held or goes out, over a run.
proof fn lemma_kept(start: MergeView, events: Seq<Event>, from: int, key: u64)
    requires
        start.wf(),
        below_last(run(start, events).1),
        0 <= from <= events.len(),
        run(start, events.take(from)).0.held.contains_key(key),
    ensures
        ({
            let entry = run(start, events.take(from)).0.held[key];
            let (state, out) = run(start, events);
            ||| state.held.contains_key(key) && state.held[key] == entry
            ||| went_out(out, entry.1)
        }),
    decreases events.len() - from, events.len(),
{
    if from == events.len() {
        assert(events.take(from) =~= events);
    } else {
        let front = events.drop_last();
        assert(front.take(from) =~= events.take(from));
        lemma_sent_front(start, events);
        lemma_kept(start, front, from, key);
        lemma_sound_run(start, front);
        let entry = run(start, events.take(from)).0.held[key];
        let (before, sent) = run(start, front);
        let (state, out) = run(start, events);
        if before.held.contains_key(key) && before.held[key] == entry {
            held_until_delivered(before, events.last(), key);
            if step(before, events.last()).1 is Some {
                assert(out[out.len() - 1] == out.last());
            }
        } else {
            let j = choose|j: int|
                0 <= j < sent.len() && (#[trigger] sent[j]) == (FeedMessage {
                    missed_before: sent[j].missed_before,
                    ..entry.1
                });
            assert(out[j] == sent[j]);
        }
    }
}

/// Nothing that was taken in is lost: a copy that had not lost when it came in
/// is still held as it came in, or has gone out.
pub proof fn accepted_copies_are_kept(
    resume_after: Option<u64>,
    grace: nat,
    capacity: nat,
    events: Seq<Event>,
    i: int,
    endpoint: usize,
    message: FeedMessage,
)
    requires
        below_last(run(MergeView::fresh(resume_after, grace, capacity), events).1),
        0 <= i < events.len(),
        events[i] == (Event::Offer { endpoint, message }),
        !run(MergeView::fresh(resume_after, grace, capacity), events.take(i)).0.has_lost(
            message.sequence_number,
        ),
    ensures
        ({
            let (state, out) = run(MergeView::fresh(resume_after, grace, capacity), events);
            ||| state.held.contains_key(message.sequence_number)
                && state.held[message.sequence_number] == (endpoint, message)
            ||| went_out(out, message)
        }),
{
    let start = MergeView::fresh(resume_after, grace, capacity);
    let upto = events.take(i + 1);
    assert(upto.drop_last() =~= events.take(i));
    assert(upto.last() == events[i]);
    lemma_kept(start, events, i + 1, message.sequence_number);
}

/// Whether an event makes the merge give up on a gap.
pub open spec fn gives_up(state: MergeView, event: Event) -> bool {
    event matches Event::Ask { now } && state.ready() is None && state.overdue(now)
}

/// Whether a copy with this number came in with one of the events.
pub open spec fn number_came_in(events: Seq<Event>, number: int) -> bool {
    exists|i: int| 0 <= i < events.len() && brought_number(#[trigger] events[i], number)
}

/// Whether an event brought a copy with this number.
pub open spec fn brought_number(event: Event, number: int) -> bool {
    event matches Event::Offer { endpoint, message } && message.sequence_number == number
}

/// Without a gap being given up on, what goes out counts up from the mark.
proof fn lemma_contiguous(start: MergeView, events: Seq<Event>, mark: u64)
    requires
        start.wf(),
        plainly_held(start),
        start.next_expected == Some(mark),
        plain(events),
        below_last(run(start, events).1),
        forall|i: int|
            0 <= i < events.len() ==> !gives_up(run(start, events.take(i)).0, #[trigger] events[i]),
    ensures
        ({
            let (state, out) = run(start, events);
            &&& state.next_expected is Some
            &&& state.next_expected->Some_0 == mark + out.len()
            &&& forall|j: int|
                0 <= j < out.len() ==> (#[trigger] out[j]).sequence_number == mark + j
                    && out[j].missed_before == 0
        }),
    decreases events.len(),
{
    if events.len() > 0 {
        let front = events.drop_last();
        let last = events.len() - 1;
        lemma_plain_front(events);
        assert forall|i: int| 0 <= i < front.len() implies !gives_up(
            run(start, front.take(i)).0,
            #[trigger] front[i],
        ) by {
            assert(front.take(i) =~= events.take(i));
            assert(front[i] == events[i]);
        }
        lemma_sent_front(start, events);
        lemma_plainly_held(start, front);
        lemma_contiguous(start, front, mark);
        lemma_sound_run(start, front);
        assert(events.take(last) =~= front);
        assert(!gives_up(run(start, events.take(last)).0, events[last]));
        let (before, sent) = run(start, front);
        let (state, out) = run(start, events);
        if let Event::Ask { now } = events.last() {
            lemma_advanced(before, now);
            if let Some(message) = before.advanced(now).1 {
                assert(before.ready() is Some);
                assert(before.held.contains_key(before.mark()->Some_0));
                assert(out =~= sent.push(message));
                assert forall|j: int| 0 <= j < out.len() implies (
                #[trigger] out[j]).sequence_number == mark + j && out[j].missed_before == 0 by {
                    if j < sent.len() {
                        assert(out[j] == sent[j]);
                    }
                }
            }
        }
    }
}

/// The state was sound at every point of a run.
proof fn lemma_sound_prefix(start: MergeView, events: Seq<Event>, i: int)
    requires
        start.wf(),
        below_last(run(start, events).1),
        0 <= i <= events.len(),
    ensures
        run(start, events.take(i)).0.wf(),
    decreases events.len(),
{
    if i == events.len() {
        assert(events.take(i) =~= events);
        lemma_sound_run(start, events);
    } else {
        lemma_sent_front(start, events);
        assert(events.drop_last().take(i) =~= events.take(i));
        lemma_sound_prefix(start, events.drop_last(), i);
    }
}

/// The mark was never further on than it is at the end.
proof fn lemma_mark_grows(start: MergeView, events: Seq<Event>, i: int)
    requires
        start.wf(),
        start.next_expected is Some,
        below_last(run(start, events).1),
        0 <= i <= events.len(),
    ensures
        run(start, events.take(i)).0.next_expected is Some,
        run(start, events).0.next_expected is Some,
        run(start, events.take(i)).0.next_expected->Some_0 <= run(
            start,
            events,
        ).0.next_expected->Some_0,
    decreases events.len(),
{
    lemma_sound_run(start, events);
    if i == events.len() {
        assert(events.take(i) =~= events);
    } else {
        let front = events.drop_last();
        lemma_sent_front(start, events);
        assert(front.take(i) =~= events.take(i));
        lemma_mark_grows(start, front, i);
        lemma_sound_run(start, front);
        lemma_step(run(start, front).0, events.last());
    }
}

/// A reconnect loses nothing that the replayed backlog still covers. From any
/// state of the merge on, in whatever order, from whichever endpoints and
/// however often the copies come in: as long as no gap is given up on, what
/// goes out counts up from the mark without anything missed. Once every number
/// up to `end` has come in and nothing more is ready, all of them have gone
/// out.
pub proof fn reconnect_loses_nothing(start: MergeView, events: Seq<Event>, mark: u64, end: int)
    requires
        start.wf(),
        plainly_held(start),
        start.next_expected == Some(mark),
        plain(events),
        below_last(run(start, events).1),
        forall|i: int|
            0 <= i < events.len() ==> !gives_up(run(start, events.take(i)).0, #[trigger] events[i]),
        forall|number: int| mark <= number < end ==> number_came_in(events, number),
    ensures
        ({
            let (state, out) = run(start, events);
            &&& forall|j: int|
                0 <= j < out.len() ==> (#[trigger] out[j]).sequence_number == mark + j
                    && out[j].missed_before == 0
            &&& state.ready() is None ==> end <= mark + out.len()
        }),
{
    lemma_contiguous(start, events, mark);
    lemma_sound_run(start, events);
    let (state, out) = run(start, events);
    let next = state.next_expected->Some_0;
    if state.ready() is None && mark + out.len() < end {
        assert(number_came_in(events, next as int));
        let i = choose|i: int|
            0 <= i < events.len() && brought_number(#[trigger] events[i], next as int);
        let upto = events.take(i + 1);
        let before = run(start, events.take(i)).0;
        assert(upto.drop_last() =~= events.take(i));
        assert(upto.last() == events[i]);
        lemma_mark_grows(start, events, i);
        assert(run(start, upto).0.held.contains_key(next));
        lemma_sound_prefix(start, events, i + 1);
        lemma_kept(start, events, i + 1, next);
        let entry = run(start, upto).0.held[next];
        assert(entry.1.sequence_number == next);
        if went_out(out, entry.1) {
            let j = choose|j: int|
                0 <= j < out.len() && (#[trigger] out[j]) == (FeedMessage {
                    missed_before: out[j].missed_before,
                    ..entry.1
                });
            assert(out[j].sequence_number == mark + j);
        }
    }
}

/// The bound on what is held is kept: when the merge is done with sending, it
/// holds less than its capacity, and a copy adds one at most.
pub proof fn hold_is_bounded(state: MergeView, now: nat, endpoint: usize, message: FeedMessage)
    requires
        state.wf(),
        state.capacity > 0,
        state.advanced(now).1 is None,
    ensures
        state.advanced(now).0.held.dom().len() < state.capacity,
        state.advanced(now).0.offered(endpoint, message).held.dom().len() <= state.capacity,
{
    merge::lemma_oldest_held(state);
}

/// The first copy of a message wins: a later copy changes nothing that is
/// held, and the mark neither.
pub proof fn first_copy_wins(
    state: MergeView,
    winner: usize,
    first: FeedMessage,
    loser: usize,
    later: FeedMessage,
)
    requires
        !state.has_lost(first.sequence_number),
        later.sequence_number == first.sequence_number,
    ensures
        ({
            let held = state.offered(winner, first);
            let after = held.offered(loser, later);
            &&& after.held == held.held
            &&& after.next_expected == held.next_expected
            &&& after.held[first.sequence_number] == (winner, first)
        }),
{
}

/// A copy of a message that has just gone out is timed against the copy that
/// won, unless its own endpoint won.
pub proof fn loser_is_timed_against_winner(state: MergeView, loser: usize, later: FeedMessage)
    requires
        state.wf(),
        state.ready() is Some,
        state.mark()->Some_0 < u64::MAX,
        later.sequence_number == state.mark()->Some_0,
    ensures
        ({
            let (winner, first) = state.ready()->Some_0;
            &&& state.taken().has_lost(later.sequence_number)
            &&& state.taken().lateness(loser, later) == if loser == winner {
                None
            } else if later.received_at@ >= first.received_at@ {
                Some((later.received_at@ - first.received_at@) as nat)
            } else {
                Some(0nat)
            }
        }),
{
    merge::lemma_taken_wf(state);
    let after = state.taken();
    let n = after.won_at.len();
    assert(after.won_at[n - 1].0 == after.won_at[0].0 + (n - 1));
}

/// A gap does not outlast its grace: when the merge was asked, had to wait, and
/// gave out a deadline, and is asked again at that time or later with the gap
/// still open, a message goes out, however many are waiting and whatever came
/// in since. It is the oldest one waiting, and it says how many numbers are
/// missing in front of it. (The gap is still open if the message behind it is
/// still waiting, the next in line has not come, and nothing was given up on
/// in the meantime.)
pub proof fn gap_does_not_outlast_its_grace(
    resume_after: Option<u64>,
    grace: nat,
    capacity: nat,
    events: Seq<Event>,
    asked_at: nat,
    more: Seq<Event>,
    now: nat,
    deadline: nat,
    behind: u64,
    mark: u64,
)
    requires
        ({
            let start = MergeView::fresh(resume_after, grace, capacity);
            let asked = events.push(Event::Ask { now: asked_at });
            let (waiting, sent) = run(start, asked);
            let (open, out) = run(start, asked + more);
            &&& plain(asked + more)
            &&& below_last(out)
            &&& run(start, events).0.advanced(asked_at).1 is None
            &&& waiting.deadline == Some(deadline)
            &&& held::is_oldest(waiting.held, behind)
            &&& deadline <= now
            &&& open.held.contains_key(behind)
            &&& open.next_expected == Some(mark)
            &&& !open.held.contains_key(mark)
            &&& forall|j: int| sent.len() <= j < out.len() ==> (#[trigger] out[j]).missed_before
                == 0
        }),
    ensures
        ({
            let start = MergeView::fresh(resume_after, grace, capacity);
            let asked = events.push(Event::Ask { now: asked_at });
            let open = run(start, asked + more).0;
            exists|oldest: u64| #[trigger]
                held::is_oldest(open.held, oldest) && mark < oldest && open.advanced(now).1
                    == Some(
                    FeedMessage { missed_before: (oldest - mark) as u64, ..open.held[oldest].1 },
                )
        }),
{
    let start = MergeView::fresh(resume_after, grace, capacity);
    let asked = events.push(Event::Ask { now: asked_at });
    let all = asked + more;
    let waiting = run(start, asked).0;
    let open = run(start, all).0;
    assert(asked.drop_last() =~= events);
    lemma_sound_run(start, all);
    lemma_sent_prefix(start, asked, more);
    lemma_sound_run(start, asked);
    held::lemma_oldest_unique(waiting.held, behind);
    let end = waiting.gap_end->Some_0;
    assert(waiting.gap_end is Some && behind <= end) by {
        lemma_sent_front(start, asked);
        lemma_sound_run(start, events);
        lemma_advanced(run(start, events).0, asked_at);
    }
    lemma_timer_lasts(start, asked, more, deadline, behind, end);
    held::lemma_oldest_exists(open.held, behind);
    let oldest = held::oldest(open.held)->Some_0;
    assert(open.held.contains_key(oldest));
    merge::what_goes_out(open, now, oldest);
}

/// What went out with the first events comes first of what went out.
proof fn lemma_sent_prefix(start: MergeView, events: Seq<Event>, more: Seq<Event>)
    requires
        below_last(run(start, events + more).1),
    ensures
        below_last(run(start, events).1),
        run(start, events).1.len() <= run(start, events + more).1.len(),
    decreases more.len(),
{
    if more.len() == 0 {
        assert(events + more =~= events);
    } else {
        let all = events + more;
        assert(all.drop_last() =~= events + more.drop_last());
        lemma_sent_front(start, all);
        lemma_sent_prefix(start, events, more.drop_last());
    }
}

/// A timer that runs for the gap in front of `behind` is left alone as long as
/// that gap is open.
proof fn lemma_timer_lasts(
    start: MergeView,
    events: Seq<Event>,
    more: Seq<Event>,
    deadline: nat,
    behind: u64,
    end: u64,
)
    requires
        start.wf(),
        plainly_held(start),
        plain(events + more),
        below_last(run(start, events + more).1),
        run(start, events).0.deadline == Some(deadline),
        run(start, events).0.gap_end == Some(end),
        run(start, events).0.held.contains_key(behind),
        behind <= end,
        forall|j: int|
            run(start, events).1.len() <= j < run(start, events + more).1.len() ==> (
            #[trigger] run(start, events + more).1[j]).missed_before == 0,
    ensures
        ({
            let state = run(start, events + more).0;
            ||| {
                &&& state.held.contains_key(behind)
                &&& state.deadline == Some(deadline)
                &&& state.gap_end == Some(end)
            }
            ||| state.next_expected is Some && state.next_expected->Some_0 > behind
        }),
    decreases more.len(),
{
    let all = events + more;
    if more.len() == 0 {
        assert(all =~= events);
    } else {
        let front = events + more.drop_last();
        assert(all.drop_last() =~= front);
        lemma_sent_front(start, all);
        lemma_plain_front(all);
        let (before, sent) = run(start, front);
        let (state, out) = run(start, all);
        assert forall|j: int| run(start, events).1.len() <= j < sent.len() implies (
        #[trigger] sent[j]).missed_before == 0 by {
            assert(out[j] == sent[j]);
        }
        lemma_timer_lasts(start, events, more.drop_last(), deadline, behind, end);
        lemma_sound_run(start, front);
        lemma_plainly_held(start, front);
        lemma_step(before, all.last());
        if before.held.contains_key(behind) && before.deadline == Some(deadline) && before.gap_end
            == Some(end) {
            held::lemma_oldest_exists(before.held, behind);
            if let Event::Ask { now } = all.last() {
                lemma_advanced(before, now);
                lemma_sent_prefix(start, events, more.drop_last());
                if let Some(message) = before.advanced(now).1 {
                    assert(out.last() == message);
                    assert(out[out.len() - 1].missed_before == 0);
                    assert(before.ready() is Some) by {
                        if before.ready() is None {
                            let oldest = held::oldest(before.held)->Some_0;
                            merge::what_goes_out(before, now, oldest);
                        }
                    }
                }
            }
        }
    }
}

/// What is waiting may be as much as the capacity and no more: once it is, the
/// oldest goes out the next time the merge is asked, and says how many are
/// missing in front of it, however long the gap may still last.
pub proof fn full_hold_lets_go(state: MergeView, now: nat, oldest: u64)
    requires
        state.wf(),
        state.held.dom().len() >= state.capacity,
        held::is_oldest(state.held, oldest),
    ensures
        state.advanced(now).1 matches Some(message) && message.sequence_number == oldest && (
        state.next_expected matches Some(mark) ==> mark < oldest ==> message.missed_before == oldest
            - mark),
{
    merge::what_goes_out(state, now, oldest);
    assert(state.held.contains_key(oldest));
}

/// Events are what the calls do: a copy that is offered is offered, and asking
/// is asking.
pub proof fn calls_are_events(
    merge: &mut merge::Merge,
    endpoints: &mut Vec<crate::endpoint::EndpointState>,
    endpoint: usize,
    message: FeedMessage,
    now: crate::time::Instant,
    out: merge::Step,
)
    ensures
        call_ensures(merge::Merge::offer, (merge, endpoints, endpoint, message), ()) ==> final(
            merge)@ == step(old(merge)@, Event::Offer { endpoint, message }).0,
        call_ensures(merge::Merge::next, (merge, endpoints, now), out) ==> {
            let (after, sent) = step(old(merge)@, Event::Ask { now: now@ });
            &&& final(merge)@ == after
            &&& sent matches Some(message) ==> out == merge::Step::Deliver(message)
            &&& sent is None ==> out is Wait
        },
{
}

} // verus!
