//! How an endpoint is timed over a run of the merge.

use vstd::prelude::*;

use crate::endpoint;
use crate::endpoint::EndpointView;
use crate::merge;
use crate::merge::MergeView;
use crate::stream;
use crate::stream::Event;

verus! {

/// What an event does to endpoint `id`.
pub open spec fn followed(
    state: MergeView,
    id: usize,
    view: EndpointView,
    event: Event,
) -> EndpointView {
    match event {
        Event::Offer { endpoint, message } => if endpoint == id && state.has_lost(
            message.sequence_number,
        ) {
            state.dropping(endpoint, message, view)
        } else {
            view
        },
        Event::Ask { now } => match state.advanced(now).1 {
            Some(message) => if state.source(now) == id {
                view.took(message.sequence_number)
            } else {
                view
            },
            None => view,
        },
    }
}

/// What a run does to endpoint `id`.
pub open spec fn follow(
    start: MergeView,
    id: usize,
    view: EndpointView,
    events: Seq<Event>,
) -> EndpointView
    decreases events.len(),
{
    if events.len() == 0 {
        view
    } else {
        let front = events.drop_last();
        followed(stream::run(start, front).0, id, follow(start, id, view, front), events.last())
    }
}

/// How late endpoint `id` was on message `number`, if an event brought a copy
/// by which it lost to another endpoint.
pub open spec fn lost_race(state: MergeView, id: usize, event: Event, number: u64) -> Option<nat> {
    match event {
        Event::Offer { endpoint, message } => if endpoint == id && message.sequence_number
            == number && state.has_lost(number) {
            state.lateness(endpoint, message)
        } else {
            None
        },
        Event::Ask { now } => None,
    }
}

/// Whether endpoint `id` lost message `number` to another endpoint with event
/// `i` of a run.
pub open spec fn raced_at(
    start: MergeView,
    id: usize,
    events: Seq<Event>,
    i: int,
    number: u64,
) -> bool {
    lost_race(stream::run(start, events.take(i)).0, id, events[i], number) is Some
}

/// Whether endpoint `id` lost message `number` to another endpoint during a
/// run.
pub open spec fn raced(start: MergeView, id: usize, events: Seq<Event>, number: u64) -> bool {
    exists|i: int| 0 <= i < events.len() && #[trigger] raced_at(start, id, events, i, number)
}

/// A message whose winner is known is not before the first such.
proof fn lemma_winner_is_known(state: MergeView, number: u64)
    requires
        state.wf(),
        state.winner(number) is Some,
    ensures
        state.first_known() matches Some(first) ==> first <= number,
{
}

/// The first message whose winner is known never goes back.
proof fn lemma_first_known_grows(state: MergeView, event: Event)
    requires
        state.wf(),
        stream::step(state, event).1 matches Some(message) ==> message.sequence_number < u64::MAX,
    ensures
        state.first_known() matches Some(first) ==> {
            let after = stream::step(state, event).0.first_known();
            after is Some && first <= after->Some_0
        },
{
    if let Event::Ask { now } = event {
        if state.ready() is Some {
            merge::lemma_ready_number(state);
            lemma_taking_keeps_order(state);
        } else if state.overdue(now) {
            let armed = state.armed(now);
            merge::lemma_confirmed_is_ready(armed);
            let closed = armed.confirmed();
            merge::lemma_ready_number(closed);
            lemma_taking_keeps_order(closed);
        }
    }
}

proof fn lemma_taking_keeps_order(state: MergeView)
    requires
        state.wf(),
        state.ready() is Some,
        state.mark()->Some_0 < u64::MAX,
    ensures
        state.first_known() matches Some(first) ==> {
            let after = state.taken().first_known();
            after is Some && first <= after->Some_0
        },
{
    let after = state.taken();
    assert(after.won_at.len() > 0);
    if state.won_at.len() >= merge::HISTORY {
        assert(after.won_at[0] == state.won_at[1]);
    } else if state.won_at.len() > 0 {
        assert(after.won_at[0] == state.won_at[0]);
    }
}

/// Whether the endpoint remembers to have been timed on a message only if it
/// `raced` for it, and always if it did and a winner may still be known.
spec fn remembered(state: MergeView, view: EndpointView, number: u64, raced: bool) -> bool {
    &&& view.timed.contains(number) ==> raced
    &&& raced && !view.timed.contains(number) ==> (state.first_known() matches Some(first)
        && number < first)
}

/// An endpoint remembers to have been timed on what it lost, as far as a winner
/// may still be known, and on nothing else.
proof fn lemma_follow(start: MergeView, id: usize, view: EndpointView, events: Seq<Event>)
    requires
        start.wf(),
        stream::below_last(stream::run(start, events).1),
        view.timed == Set::<u64>::empty(),
    ensures
        ({
            let state = stream::run(start, events).0;
            let after = follow(start, id, view, events);
            forall|number: u64|
                remembered(state, after, number, #[trigger] raced(start, id, events, number))
        }),
    decreases events.len(),
{
    if events.len() > 0 {
        let front = events.drop_last();
        let last = events.len() - 1;
        let event = events.last();
        stream::lemma_sent_front(start, events);
        stream::lemma_sound_run(start, front);
        lemma_follow(start, id, view, front);
        let before = stream::run(start, front).0;
        let state = stream::run(start, events).0;
        let then = follow(start, id, view, front);
        let after = follow(start, id, view, events);
        assert(events.take(last) =~= front);
        lemma_first_known_grows(before, event);
        assert forall|number: u64|
            remembered(state, after, number, #[trigger] raced(start, id, events, number)) by {
            lemma_raced(start, id, events, number);
            assert(remembered(before, then, number, raced(start, id, front, number)));
            if lost_race(before, id, event, number) is Some {
                lemma_winner_is_known(before, number);
            }
        }
    } else {
        assert forall|number: u64| !#[trigger] raced(start, id, events, number) by {}
    }
}

/// A race was lost during a run if and only if it was before the last event,
/// or with it.
proof fn lemma_raced(start: MergeView, id: usize, events: Seq<Event>, number: u64)
    requires
        events.len() > 0,
    ensures
        raced(start, id, events, number) <==> {
            ||| raced(start, id, events.drop_last(), number)
            ||| lost_race(
                stream::run(start, events.drop_last()).0,
                id,
                events.last(),
                number,
            ) is Some
        },
{
    let front = events.drop_last();
    let last = events.len() - 1;
    assert(events.take(last) =~= front);
    assert(events[last] == events.last());
    assert forall|i: int| 0 <= i < last implies raced_at(start, id, front, i, number)
        == #[trigger] raced_at(start, id, events, i, number) by {
        assert(front.take(i) =~= events.take(i));
        assert(front[i] == events[i]);
    }
    assert(raced_at(start, id, events, last, number) == lost_race(
        stream::run(start, front).0,
        id,
        events.last(),
        number,
    ) is Some);
    if raced(start, id, front, number) {
        let i = choose|i: int|
            0 <= i < front.len() && #[trigger] raced_at(start, id, front, i, number);
        assert(raced_at(start, id, events, i, number));
    }
}

/// An endpoint is timed once per message, on whichever of its copies was first
/// to lose to another endpoint. That copy becomes a sample, to the nanosecond,
/// or counts as a replay if it is too late for one. No other copy, and nothing
/// else that happens, changes the samples or the replays.
pub proof fn timed_on_the_first_copy(
    resume_after: Option<u64>,
    grace: nat,
    capacity: nat,
    id: usize,
    url: Seq<char>,
    total_conns: usize,
    events: Seq<Event>,
    event: Event,
)
    requires
        stream::below_last(
            stream::run(MergeView::fresh(resume_after, grace, capacity), events).1,
        ),
    ensures
        ({
            let start = MergeView::fresh(resume_after, grace, capacity);
            let view = EndpointView::fresh(url, total_conns);
            let state = stream::run(start, events).0;
            let before = follow(start, id, view, events);
            let after = follow(start, id, view, events.push(event));
            let number = match event {
                Event::Offer { endpoint, message } => message.sequence_number,
                Event::Ask { now } => 0,
            };
            match lost_race(state, id, event, number) {
                Some(lateness) if !raced(start, id, events, number) => if lateness
                    <= endpoint::replay_threshold() {
                    after.samples == before.samples.push(lateness) && after.replays
                        == before.replays
                } else {
                    after.samples == before.samples && after.replays
                        == before.replays.wrapping_add(1)
                },
                _ => after.samples == before.samples && after.replays == before.replays,
            }
        }),
{
    let start = MergeView::fresh(resume_after, grace, capacity);
    let view = EndpointView::fresh(url, total_conns);
    let state = stream::run(start, events).0;
    lemma_follow(start, id, view, events);
    stream::lemma_sound_run(start, events);
    assert(events.push(event).drop_last() =~= events);
    assert(events.push(event).last() == event);
    if let Event::Offer { endpoint, message } = event {
        let number = message.sequence_number;
        if state.winner(number) is Some {
            lemma_winner_is_known(state, number);
        }
        assert(remembered(
            state,
            follow(start, id, view, events),
            number,
            raced(start, id, events, number),
        ));
    }
}

/// How many messages that went out during a run came from endpoint `id`.
pub open spec fn sent_from(start: MergeView, id: usize, events: Seq<Event>) -> nat
    decreases events.len(),
{
    if events.len() == 0 {
        0
    } else {
        let front = events.drop_last();
        let state = stream::run(start, front).0;
        sent_from(start, id, front) + match stream::step(state, events.last()).1 {
            Some(message) => if state.held[message.sequence_number].0 == id {
                1nat
            } else {
                0nat
            },
            None => 0nat,
        }
    }
}

/// How many copies that came in from endpoint `id` during a run were of a
/// message that had gone out, was given up on, or was waiting already.
pub open spec fn lost_from(start: MergeView, id: usize, events: Seq<Event>) -> nat
    decreases events.len(),
{
    if events.len() == 0 {
        0
    } else {
        let front = events.drop_last();
        let state = stream::run(start, front).0;
        lost_from(start, id, front) + match events.last() {
            Event::Offer { endpoint, message } => if endpoint == id && (state.held.contains_key(
                message.sequence_number,
            ) || (state.next_expected is Some && message.sequence_number
                < state.next_expected->Some_0)) {
                1nat
            } else {
                0nat
            },
            Event::Ask { now } => 0nat,
        }
    }
}

/// Every message that goes out counts as delivered with the endpoint whose copy
/// it is, and every copy that does not as dropped with the endpoint that it
/// came from, whatever else happens.
pub proof fn every_copy_is_booked(
    resume_after: Option<u64>,
    grace: nat,
    capacity: nat,
    id: usize,
    url: Seq<char>,
    total_conns: usize,
    events: Seq<Event>,
)
    requires
        stream::below_last(
            stream::run(MergeView::fresh(resume_after, grace, capacity), events).1,
        ),
    ensures
        ({
            let start = MergeView::fresh(resume_after, grace, capacity);
            let view = follow(start, id, EndpointView::fresh(url, total_conns), events);
            &&& view.delivered == sent_from(start, id, events) % 0x1_0000_0000_0000_0000
            &&& view.dropped == lost_from(start, id, events) % 0x1_0000_0000_0000_0000
        }),
    decreases events.len(),
{
    let start = MergeView::fresh(resume_after, grace, capacity);
    if events.len() > 0 {
        let front = events.drop_last();
        stream::lemma_sent_front(start, events);
        every_copy_is_booked(resume_after, grace, capacity, id, url, total_conns, front);
        stream::lemma_sound_run(start, front);
        let state = stream::run(start, front).0;
        if let Event::Ask { now } = events.last() {
            if state.advanced(now).1 is Some {
                lemma_source(state, now);
            }
        }
    }
}

/// The endpoint that a message came from is the one it was held under.
proof fn lemma_source(state: MergeView, now: nat)
    requires
        state.wf(),
        state.advanced(now).1 is Some,
    ensures
        state.source(now) == state.held[state.advanced(now).1->Some_0.sequence_number].0,
{
    if state.ready() is Some {
        merge::lemma_ready_number(state);
        assert(state.held.contains_key(state.mark()->Some_0));
    } else {
        let armed = state.armed(now);
        merge::lemma_confirmed_is_ready(armed);
        merge::lemma_ready_number(armed.confirmed());
    }
}

} // verus!
