//! What an endpoint's figures say of everything that happened to it.

use vstd::prelude::*;

use crate::endpoint::{EndpointState, EndpointStats, EndpointView};
use crate::histogram;
use crate::time::Duration;

verus! {

/// What can happen to an endpoint.
pub enum Happening {
    /// A message was taken from it.
    Took { number: u64 },
    /// A copy was discarded, with how late it was in nanoseconds, if known.
    Discarded { number: u64, lateness: Option<nat> },
    /// A connection came up.
    Connected,
    /// A connection that had been up went away.
    Disconnected { reason: Seq<char> },
    /// An attempt to connect came to nothing.
    Failed { reason: Seq<char> },
    /// What it was timed on before a message was forgotten.
    Forgot { before: u64 },
}

/// What a happening makes of an endpoint.
pub open spec fn step(view: EndpointView, happening: Happening) -> EndpointView {
    match happening {
        Happening::Took { number } => view.took(number),
        Happening::Discarded { number, lateness } => view.discarded(number, lateness),
        Happening::Connected => view.connected(),
        Happening::Disconnected { reason } => view.disconnected(reason),
        Happening::Failed { reason } => view.failed(reason),
        Happening::Forgot { before } => view.forgetting(before),
    }
}

/// What a history makes of an endpoint.
pub open spec fn run(view: EndpointView, history: Seq<Happening>) -> EndpointView
    decreases history.len(),
{
    if history.len() == 0 {
        view
    } else {
        step(run(view, history.drop_last()), history.last())
    }
}

/// The number of the message that a happening is about, if it is about one
/// that arrived.
pub open spec fn number_of(happening: Happening) -> Option<u64> {
    match happening {
        Happening::Took { number } => Some(number),
        Happening::Discarded { number, lateness } => Some(number),
        _ => None,
    }
}

/// How many happenings of a history are of a sort.
pub open spec fn count(history: Seq<Happening>, sort: spec_fn(Happening) -> bool) -> nat
    decreases history.len(),
{
    if history.len() == 0 {
        0
    } else {
        count(history.drop_last(), sort) + if sort(history.last()) {
            1nat
        } else {
            0nat
        }
    }
}

/// How many connections came up.
pub open spec fn ups(history: Seq<Happening>) -> nat {
    count(history, |h: Happening| h is Connected)
}

/// How many connections went away.
pub open spec fn downs(history: Seq<Happening>) -> nat {
    count(history, |h: Happening| h is Disconnected)
}

/// Every recording call is the happening it is named after.
pub proof fn calls_are_happenings(
    endpoint: &mut EndpointState,
    number: u64,
    lateness: Option<Duration>,
    reason: &str,
)
    ensures
        call_ensures(EndpointState::took, (endpoint, number), ()) ==> final(endpoint)@ == step(
            old(endpoint)@,
            Happening::Took { number },
        ),
        call_ensures(EndpointState::discarded, (endpoint, number, lateness), ())
            ==> final(endpoint)@ == step(
            old(endpoint)@,
            Happening::Discarded {
                number,
                lateness: match lateness {
                    Some(span) => Some(span@),
                    None => None,
                },
            },
        ),
        call_ensures(EndpointState::connected, (endpoint,), ()) ==> final(endpoint)@ == step(
            old(endpoint)@,
            Happening::Connected,
        ),
        call_ensures(EndpointState::disconnected, (endpoint, reason), ()) ==> final(endpoint)@
            == step(old(endpoint)@, Happening::Disconnected { reason: reason@ }),
        call_ensures(EndpointState::failed, (endpoint, reason), ()) ==> final(endpoint)@ == step(
            old(endpoint)@,
            Happening::Failed { reason: reason@ },
        ),
        call_ensures(EndpointState::forget_before, (endpoint, number), ()) ==> final(endpoint)@
            == step(old(endpoint)@, Happening::Forgot { before: number }),
{
}

/// The last sequence number is the highest of all messages that were taken
/// from an endpoint and all copies that were discarded of it, and there is
/// none before the first. The largest number there is stands for "never" and
/// is left out.
pub proof fn last_sequence_is_the_highest_of_all(
    url: Seq<char>,
    total_conns: usize,
    history: Seq<Happening>,
)
    requires
        forall|i: int|
            0 <= i < history.len() ==> number_of(#[trigger] history[i]) != Some(u64::MAX),
    ensures
        ({
            let last = run(EndpointView::fresh(url, total_conns), history).last_sequence;
            &&& forall|i: int|
                0 <= i < history.len() ==> (number_of(#[trigger] history[i]) matches Some(number)
                    ==> last != u64::MAX && number <= last)
            &&& last != u64::MAX ==> exists|i: int|
                0 <= i < history.len() && number_of(#[trigger] history[i]) == Some(last)
        }),
    decreases history.len(),
{
    if history.len() > 0 {
        let front = history.drop_last();
        assert forall|i: int| 0 <= i < front.len() implies number_of(#[trigger] front[i]) != Some(
            u64::MAX,
        ) by {
            assert(front[i] == history[i]);
        }
        last_sequence_is_the_highest_of_all(url, total_conns, front);
        let before = run(EndpointView::fresh(url, total_conns), front).last_sequence;
        let last = run(EndpointView::fresh(url, total_conns), history).last_sequence;
        let n = history.len() - 1;
        assert(history[n] == history.last());
        assert forall|i: int| 0 <= i < history.len() implies (
        number_of(#[trigger] history[i]) matches Some(number) ==> last != u64::MAX && number
            <= last) by {
            if i < n {
                assert(front[i] == history[i]);
            }
        }
        if last != u64::MAX {
            if number_of(history.last()) == Some(last) {
                assert(number_of(history[n]) == Some(last));
            } else {
                let i = choose|i: int|
                    0 <= i < front.len() && number_of(#[trigger] front[i]) == Some(before);
                assert(number_of(history[i]) == Some(last));
            }
        }
    }
}

/// The counters count: one for every message taken, one for every copy
/// discarded, until they wrap around. What was configured stays.
pub proof fn counters_count(url: Seq<char>, total_conns: usize, history: Seq<Happening>)
    ensures
        ({
            let view = run(EndpointView::fresh(url, total_conns), history);
            &&& view.delivered == count(history, |h: Happening| h is Took) % 0x1_0000_0000_0000_0000
            &&& view.dropped == count(history, |h: Happening| h is Discarded)
                % 0x1_0000_0000_0000_0000
            &&& view.url == url
            &&& view.total_conns == total_conns
        }),
    decreases history.len(),
{
    if history.len() > 0 {
        counters_count(url, total_conns, history.drop_last());
    }
}

/// As many connections are live as came up and have not gone away. One that
/// goes away without ever having come up does not count.
pub proof fn live_is_what_is_up(url: Seq<char>, total_conns: usize, history: Seq<Happening>)
    requires
        ups(history) <= usize::MAX,
        forall|len: int|
            0 <= len <= history.len() ==> #[trigger] downs(history.take(len)) <= ups(
                history.take(len),
            ),
    ensures
        run(EndpointView::fresh(url, total_conns), history).live == ups(history) - downs(history),
        run(EndpointView::fresh(url, total_conns), history).live == 0 ==> forall|
            reason: Seq<char>,
        | #[trigger]
            run(EndpointView::fresh(url, total_conns), history).disconnected(reason).live == 0,
    decreases history.len(),
{
    if history.len() > 0 {
        let front = history.drop_last();
        assert forall|len: int| 0 <= len <= front.len() implies #[trigger] downs(front.take(len))
            <= ups(front.take(len)) by {
            assert(front.take(len) =~= history.take(len));
            assert(downs(history.take(len)) <= ups(history.take(len)));
        }
        assert(history.take(history.len() as int) =~= history);
        assert(downs(history.take(history.len() as int)) <= ups(
            history.take(history.len() as int),
        ));
        live_is_what_is_up(url, total_conns, front);
    }
}

/// Whether a happening is a failure.
pub open spec fn is_failure(happening: Happening) -> bool {
    happening is Disconnected || happening is Failed
}

/// Failures in a row count from the last connection that came up, and the last
/// of them is kept with its reason; a connection that comes up clears both.
pub proof fn failures_count_in_a_row(
    url: Seq<char>,
    total_conns: usize,
    history: Seq<Happening>,
    row: Seq<Happening>,
    last: Happening,
)
    requires
        forall|i: int| 0 <= i < row.len() ==> !((#[trigger] row[i]) is Connected),
    ensures
        ({
            let fresh = EndpointView::fresh(url, total_conns);
            let up = history.push(Happening::Connected);
            &&& fresh.consecutive_failures == 0 && fresh.last_failure is None
            &&& run(fresh, up).consecutive_failures == 0
            &&& run(fresh, up).last_failure is None
            &&& run(fresh, row).consecutive_failures == count(row, |h: Happening| is_failure(h))
                % 0x1_0000_0000
            &&& run(fresh, up + row).consecutive_failures == count(
                row,
                |h: Happening| is_failure(h),
            ) % 0x1_0000_0000
            &&& run(fresh, history.push(last)).last_failure == match last {
                Happening::Connected => None,
                Happening::Disconnected { reason } => Some(reason),
                Happening::Failed { reason } => Some(reason),
                _ => run(fresh, history).last_failure,
            }
        }),
{
    let fresh = EndpointView::fresh(url, total_conns);
    let up = history.push(Happening::Connected);
    assert(up.drop_last() =~= history);
    assert(history.push(last).drop_last() =~= history);
    lemma_row(fresh, Seq::empty(), row);
    assert(Seq::<Happening>::empty() + row =~= row);
    lemma_row(fresh, up, row);
}

proof fn lemma_row(fresh: EndpointView, before: Seq<Happening>, row: Seq<Happening>)
    requires
        run(fresh, before).consecutive_failures == 0,
        forall|i: int| 0 <= i < row.len() ==> !((#[trigger] row[i]) is Connected),
    ensures
        run(fresh, before + row).consecutive_failures == count(
            row,
            |h: Happening| is_failure(h),
        ) % 0x1_0000_0000,
    decreases row.len(),
{
    if row.len() == 0 {
        assert(before + row =~= before);
    } else {
        let front = row.drop_last();
        assert forall|i: int| 0 <= i < front.len() implies !(
        (#[trigger] front[i]) is Connected) by {
            assert(front[i] == row[i]);
        }
        lemma_row(fresh, before, front);
        assert((before + row).drop_last() =~= before + front);
        assert(!(row[row.len() - 1] is Connected));
    }
}

/// How late its copies were is all in the samples and the replays: a discarded
/// copy of a message that was not timed yet adds how late it was, to the
/// nanosecond, to the samples if that is five seconds at most, and one to the
/// replays if it is more. Nothing else that happens changes either.
pub proof fn lateness_is_kept(view: EndpointView, happening: Happening)
    ensures
        ({
            let after = step(view, happening);
            match happening {
                Happening::Discarded { number, lateness: Some(lateness) } => {
                    if view.timed.contains(number) {
                        after.samples == view.samples && after.replays == view.replays
                            && after.timed == view.timed
                    } else if lateness <= 5_000_000_000 {
                        after.samples == view.samples.push(lateness) && after.replays
                            == view.replays && after.timed == view.timed.insert(number)
                    } else {
                        after.samples == view.samples && after.replays == (view.replays + 1)
                            % 0x1_0000_0000_0000_0000 && after.timed == view.timed.insert(number)
                    }
                },
                Happening::Forgot { before } => {
                    &&& after.samples == view.samples
                    &&& after.replays == view.replays
                    &&& forall|number: u64| #[trigger]
                        after.timed.contains(number) <==> view.timed.contains(number) && before
                            <= number
                },
                _ => after.samples == view.samples && after.replays == view.replays && after.timed
                    == view.timed,
            }
        }),
{
}

/// Forgetting what was timed changes nothing that is reported.
pub proof fn forgetting_is_not_seen(view: EndpointView, before: u64)
    ensures
        view.forgetting(before) == (EndpointView { timed: view.forgetting(before).timed, ..view }),
{
}

/// Connections come and go without touching what was delivered, dropped or
/// seen, and messages come in without touching the connections.
pub proof fn books_are_kept_apart(view: EndpointView, happening: Happening)
    ensures
        ({
            let after = step(view, happening);
            &&& !(happening is Took) ==> after.delivered == view.delivered
            &&& !(happening is Discarded) ==> after.dropped == view.dropped
            &&& number_of(happening) is None ==> after.last_sequence == view.last_sequence
            &&& number_of(happening) is Some ==> after.live == view.live
                && after.consecutive_failures == view.consecutive_failures && after.last_failure
                == view.last_failure
            &&& happening is Failed ==> after.live == view.live
            &&& after.url == view.url && after.total_conns == view.total_conns
        }),
{
}

/// The snapshot shows what was recorded, each figure under its own name. Its
/// percentiles are the ones they are named after.
pub proof fn snapshot_shows_the_books(endpoint: &EndpointState, stats: EndpointStats)
    requires
        call_ensures(EndpointState::stats, (endpoint,), stats),
    ensures
        stats.url@ == endpoint@.url,
        stats.total_conns == endpoint@.total_conns,
        stats.live_conns == endpoint@.live,
        stats.delivered == endpoint@.delivered,
        stats.dropped == endpoint@.dropped,
        stats.last_sequence == if endpoint@.last_sequence == u64::MAX {
            None
        } else {
            Some(endpoint@.last_sequence)
        },
        stats.lateness.count == endpoint@.samples.len(),
        stats.lateness.replays == endpoint@.replays,
        stats.consecutive_failures == endpoint@.consecutive_failures,
        match (stats.last_failure, endpoint@.last_failure) {
            (Some(shown), Some(reason)) => shown@ == reason,
            (None, None) => true,
            _ => false,
        },
        stats.lateness.max is Some <==> endpoint@.samples.len() > 0,
        stats.lateness.max matches Some(max) ==> endpoint@.samples.contains(max@) && forall|
            i: int,
        |
            0 <= i < endpoint@.samples.len() ==> #[trigger] endpoint@.samples[i] <= max@,
{
    if endpoint@.samples.len() > 0 {
        crate::endpoint::worst_is_exact(endpoint@);
    }
}

/// The percentiles of a snapshot stand where they say: the median at half of
/// the samples, the others at nine tenths and at ninety-nine hundredths. Each
/// is at least the sample there, to the microsecond, and at most one part in
/// thirty-two above it. Without samples there are none.
pub proof fn snapshot_percentiles(
    endpoint: &EndpointState,
    stats: EndpointStats,
    median: nat,
    tenth: nat,
    hundredth: nat,
)
    requires
        endpoint.wf(),
        call_ensures(EndpointState::stats, (endpoint,), stats),
        endpoint@.samples.len() > 0 ==> {
            let n = endpoint@.samples.len();
            &&& histogram::is_ranked(endpoint@.samples, ((n + 1) / 2) as nat, median)
            &&& histogram::is_ranked(endpoint@.samples, ((9 * n + 9) / 10) as nat, tenth)
            &&& histogram::is_ranked(endpoint@.samples, ((99 * n + 99) / 100) as nat, hundredth)
        },
    ensures
        endpoint@.samples.len() == 0 ==> stats.lateness.p50 is None && stats.lateness.p90 is None
            && stats.lateness.p99 is None,
        endpoint@.samples.len() > 0 ==> {
            &&& stats.lateness.p50 matches Some(shown) && median / 1000 * 1000 <= shown@ && 32 * (
            shown@ - median) <= median
            &&& stats.lateness.p90 matches Some(shown) && tenth / 1000 * 1000 <= shown@ && 32 * (
            shown@ - tenth) <= tenth
            &&& stats.lateness.p99 matches Some(shown) && hundredth / 1000 * 1000 <= shown@ && 32
                * (shown@ - hundredth) <= hundredth
        },
{
    let n = endpoint@.samples.len();
    endpoint.lemma_in_time();
    if n > 0 {
        assert(histogram::ceil_div(n * 1, 2) == (n + 1) / 2);
        assert(histogram::ceil_div(n * 9, 10) == (9 * n + 9) / 10);
        assert(histogram::ceil_div(n * 99, 100) == (99 * n + 99) / 100);
        crate::endpoint::percentile_is_close(endpoint@, 1, 2, median);
        crate::endpoint::percentile_is_close(endpoint@, 9, 10, tenth);
        crate::endpoint::percentile_is_close(endpoint@, 99, 100, hundredth);
    } else {
        histogram::every_sample_is_counted(histogram::in_micros(endpoint@.samples));
    }
}

/// An endpoint starts with clean books under its own name.
pub proof fn endpoints_start_clean(url: String, total_conns: usize, endpoint: EndpointState)
    requires
        call_ensures(EndpointState::new, (url, total_conns), endpoint),
    ensures
        endpoint@.url == url@,
        endpoint@.total_conns == total_conns,
        endpoint@.live == 0,
        endpoint@.delivered == 0,
        endpoint@.dropped == 0,
        endpoint@.last_sequence == u64::MAX,
        endpoint@.samples.len() == 0,
        endpoint@.replays == 0,
        endpoint@.consecutive_failures == 0,
        endpoint@.last_failure is None,
        forall|number: u64| !#[trigger] endpoint@.timed.contains(number),
{
}

} // verus!
