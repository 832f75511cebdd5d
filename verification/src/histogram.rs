//! How late copies arrive, as a distribution.
//!
//! Relative resolution: values below twice [`SUB_COUNT`] microseconds get a
//! bucket each, and above that every doubling is divided into [`SUB_COUNT`]
//! steps. Six decades of range cost a few hundred counters.

use vstd::arithmetic::power2;
use vstd::arithmetic::power2::pow2;
use vstd::prelude::*;

use crate::time::Duration;

verus! {

/// Steps per doubling. One part in this many is the worst-case error.
pub const SUB_COUNT: u64 = 32;

/// Enough for five seconds, which is where a sample stops being a lost race
/// and starts being a replayed backlog.
pub const BUCKETS: usize = 640;

/// How often a value has to be halved to fall below `2 * SUB_COUNT`.
pub open spec fn halvings(micros: nat) -> nat
    decreases micros,
{
    if micros < 64 {
        0
    } else {
        1 + halvings(micros / 2)
    }
}

/// The bucket a value would have if there were no end to them: its doubling
/// picks a group of `SUB_COUNT`, and its leading bits a step within it.
pub open spec fn unbounded_bucket(micros: nat) -> nat {
    32 * halvings(micros) + micros / pow2(halvings(micros))
}

/// Which bucket a value in microseconds belongs to. The last one takes
/// everything beyond the range.
pub open spec fn bucket_of(micros: nat) -> nat {
    if unbounded_bucket(micros) < BUCKETS {
        unbounded_bucket(micros)
    } else {
        (BUCKETS - 1) as nat
    }
}

/// The largest value that lands in a bucket, in microseconds.
pub open spec fn bucket_bound(index: nat) -> nat {
    if index < 64 {
        index
    } else {
        ((33 + index % 32) * pow2(((index - 32) / 32) as nat) - 1) as nat
    }
}

/// The values the buckets tell apart: everything below two to the 24th
/// microseconds, some sixteen seconds.
pub open spec fn in_range(micros: nat) -> bool {
    micros < pow2(24)
}

/// How many of the samples fall in bucket `index`.
pub open spec fn count_in(samples: Seq<nat>, index: nat) -> nat
    decreases samples.len(),
{
    if samples.len() == 0 {
        0
    } else {
        count_in(samples.drop_last(), index) + if bucket_of(samples.last()) == index {
            1nat
        } else {
            0nat
        }
    }
}

/// The counts of every bucket.
pub open spec fn counts_of(samples: Seq<nat>) -> Seq<nat> {
    Seq::new(BUCKETS as nat, |i: int| count_in(samples, i as nat))
}

/// The sum of the first `len` counts.
pub open spec fn cumulative(counts: Seq<nat>, len: nat) -> nat
    decreases len,
{
    if len == 0 {
        0
    } else {
        cumulative(counts, (len - 1) as nat) + counts[len - 1]
    }
}

/// The first bucket, from `from` on, at which the counts add up to `target`.
pub open spec fn first_reaching(counts: Seq<nat>, target: nat, from: nat) -> nat
    decreases counts.len() - from,
{
    if from >= counts.len() || cumulative(counts, from + 1) >= target {
        from
    } else {
        first_reaching(counts, target, from + 1)
    }
}

/// The smallest whole number that is at least `a / b`.
pub open spec fn ceil_div(a: nat, b: nat) -> nat
    recommends
        b > 0,
{
    if a % b == 0 {
        a / b
    } else {
        a / b + 1
    }
}

/// The value below which `num/den` of the samples fall, in nanoseconds: the
/// bound of the bucket that the one in question is in, capped at the largest
/// sample. `None` without samples.
pub open spec fn figure(counts: Seq<nat>, num: nat, den: nat, max: Option<nat>) -> Option<nat> {
    let total = cumulative(counts, counts.len());
    let at = first_reaching(counts, ceil_div(total * num, den), 0);
    let bound = bucket_bound(at) * 1000;
    if total == 0 {
        None
    } else if at >= counts.len() {
        max
    } else {
        match max {
            Some(max) => Some(
                if bound <= max {
                    bound
                } else {
                    max
                },
            ),
            None => Some(bound),
        }
    }
}

/// A span that may be missing, in nanoseconds.
pub open spec fn nanos_of(span: Option<Duration>) -> Option<nat> {
    match span {
        Some(span) => Some(span@),
        None => None,
    }
}

/// Counters as numbers.
pub open spec fn as_numbers(counts: Seq<u64>) -> Seq<nat> {
    counts.map_values(|count: u64| count as nat)
}

/// The largest of the samples, or zero without any.
pub open spec fn largest(samples: Seq<nat>) -> nat
    decreases samples.len(),
{
    if samples.len() == 0 {
        0
    } else if samples.last() >= largest(samples.drop_last()) {
        samples.last()
    } else {
        largest(samples.drop_last())
    }
}

/// Nanoseconds as whole microseconds.
pub open spec fn in_micros(samples: Seq<nat>) -> Seq<nat> {
    samples.map_values(|nanos: nat| nanos / 1000)
}

/// How many of the samples are at most `value`.
pub open spec fn count_up_to(samples: Seq<nat>, value: nat) -> nat
    decreases samples.len(),
{
    if samples.len() == 0 {
        0
    } else {
        count_up_to(samples.drop_last(), value) + if samples.last() <= value {
            1nat
        } else {
            0nat
        }
    }
}

/// Whether `value` is the sample that stands at place `rank` when they are
/// put in order, the first place being 1.
pub open spec fn is_ranked(samples: Seq<nat>, rank: nat, value: nat) -> bool {
    &&& samples.contains(value)
    &&& count_up_to(samples, value) >= rank
    &&& value > 0 ==> count_up_to(samples, (value - 1) as nat) < rank
}

proof fn lemma_halvings(micros: nat)
    ensures
        micros < 64 * pow2(halvings(micros)),
        micros >= 64 ==> micros >= 32 * pow2(halvings(micros)),
        pow2(halvings(micros)) > 0,
    decreases micros,
{
    let k = halvings(micros);
    power2::lemma_pow2_pos(k);
    if micros < 64 {
        power2::lemma2_to64();
    } else {
        lemma_halvings(micros / 2);
        power2::lemma_pow2_unfold(k);
        if micros / 2 < 64 {
            power2::lemma2_to64();
        }
    }
}

proof fn lemma_halvings_monotonic(a: nat, b: nat)
    requires
        a <= b,
    ensures
        halvings(a) <= halvings(b),
    decreases b,
{
    if a >= 64 {
        lemma_halvings_monotonic(a / 2, b / 2);
    }
}

/// How a value is made up of the step it is on and what is left over.
proof fn lemma_leading(micros: nat)
    ensures
        ({
            let unit = pow2(halvings(micros));
            let lead = micros / unit;
            &&& unit > 0
            &&& lead * unit <= micros < (lead + 1) * unit
            &&& lead < 64
            &&& micros >= 64 ==> lead >= 32
            &&& micros < 64 ==> lead == micros
        }),
{
    lemma_halvings(micros);
    let unit = pow2(halvings(micros));
    let lead = micros / unit;
    vstd::arithmetic::div_mod::lemma_fundamental_div_mod(micros as int, unit as int);
    assert(lead * unit <= micros < (lead + 1) * unit) by (nonlinear_arith)
        requires
            micros == unit * lead + micros % unit,
            0 <= micros % unit < unit,
    ;
    assert(lead < 64) by (nonlinear_arith)
        requires
            lead * unit <= micros,
            micros < 64 * unit,
            unit > 0,
    ;
    if micros >= 64 {
        assert(lead >= 32) by (nonlinear_arith)
            requires
                32 * unit <= micros,
                micros < (lead + 1) * unit,
                unit > 0,
        ;
    } else {
        power2::lemma2_to64();
        assert(micros / 1 == micros);
    }
}

proof fn lemma_unbounded_monotonic(a: nat, b: nat)
    requires
        a <= b,
    ensures
        unbounded_bucket(a) <= unbounded_bucket(b),
{
    lemma_leading(a);
    lemma_leading(b);
    lemma_halvings_monotonic(a, b);
    if halvings(a) == halvings(b) {
        vstd::arithmetic::div_mod::lemma_div_is_ordered(
            a as int,
            b as int,
            pow2(halvings(a)) as int,
        );
    }
}

/// A larger value never lands in a smaller bucket.
pub proof fn buckets_are_ordered(a: nat, b: nat)
    requires
        a <= b,
    ensures
        bucket_of(a) <= bucket_of(b) < BUCKETS,
{
    lemma_unbounded_monotonic(a, b);
}

proof fn lemma_halvings_in_range(micros: nat)
    requires
        in_range(micros),
    ensures
        halvings(micros) <= 18,
{
    lemma_halvings(micros);
    let k = halvings(micros);
    if k > 18 {
        power2::lemma2_to64();
        if k > 19 {
            power2::lemma_pow2_strictly_increases(19, k);
        }
    }
}

/// A value within the range is at most the bound of its bucket, and the bound
/// is off by no more than one part in [`SUB_COUNT`].
pub proof fn bucket_bound_is_close(micros: nat)
    requires
        in_range(micros),
    ensures
        micros <= bucket_bound(bucket_of(micros)),
        SUB_COUNT * (bucket_bound(bucket_of(micros)) - micros) <= micros,
{
    lemma_halvings_in_range(micros);
    lemma_leading(micros);
    let k = halvings(micros);
    let unit = pow2(k);
    let lead = micros / unit;
    let index = unbounded_bucket(micros);
    if micros >= 64 {
        assert(index % 32 == lead - 32 && (index - 32) / 32 == k);
        assert(bucket_bound(index) == (lead + 1) * unit - 1);
        assert(32 * ((lead + 1) * unit - 1 - micros) <= micros) by (nonlinear_arith)
            requires
                lead >= 32,
                unit > 0,
                lead * unit <= micros,
        ;
    }
}

/// A bucket's bound is the largest value that lands in it.
pub proof fn bucket_bound_is_largest(index: nat, micros: nat)
    requires
        index < BUCKETS,
        in_range(micros),
    ensures
        bucket_of(bucket_bound(index)) == index,
        bucket_of(micros) == index ==> micros <= bucket_bound(index),
{
    if bucket_of(micros) == index {
        bucket_bound_is_close(micros);
    }
    let bound = bucket_bound(index);
    if index >= 64 {
        let k = ((index - 32) / 32) as nat;
        let unit = pow2(k);
        power2::lemma_pow2_pos(k);
        let lead = 32 + index % 32;
        assert((lead + 1) * unit - 1 >= lead * unit >= 0) by (nonlinear_arith)
            requires
                unit > 0,
        ;
        lemma_halvings_of_product(lead, k, bound);
        assert(bound / unit == lead) by (nonlinear_arith)
            requires
                unit > 0,
                bound == (lead + 1) * unit - 1,
        ;
    } else {
        power2::lemma2_to64();
        assert(halvings(bound) == 0);
        assert(bound / 1 == bound);
    }
}

proof fn lemma_halvings_of_product(lead: nat, k: nat, micros: nat)
    requires
        32 <= lead < 64,
        lead * pow2(k) <= micros < (lead + 1) * pow2(k),
    ensures
        halvings(micros) == k,
    decreases k,
{
    power2::lemma_pow2_pos(k);
    if k == 0 {
        power2::lemma2_to64();
    } else {
        power2::lemma_pow2_unfold(k);
        let half = pow2((k - 1) as nat);
        power2::lemma_pow2_pos((k - 1) as nat);
        assert(lead * half <= micros / 2 < (lead + 1) * half) by (nonlinear_arith)
            requires
                lead * (2 * half) <= micros < (lead + 1) * (2 * half),
        ;
        assert(micros >= 64) by (nonlinear_arith)
            requires
                lead >= 32,
                half >= 1,
                lead * (2 * half) <= micros,
        ;
        lemma_halvings_of_product(lead, (k - 1) as nat, micros / 2);
    }
}

/// Adding up the counts of the first buckets counts the samples that are in
/// them.
proof fn lemma_cumulative_counts(samples: Seq<nat>, len: nat)
    requires
        len <= BUCKETS,
        samples.len() > 0,
    ensures
        cumulative(counts_of(samples), len) == cumulative(counts_of(samples.drop_last()), len)
            + if bucket_of(samples.last()) < len {
            1nat
        } else {
            0nat
        },
    decreases len,
{
    if len > 0 {
        lemma_cumulative_counts(samples, (len - 1) as nat);
    }
}

proof fn lemma_cumulative_none(samples: Seq<nat>, len: nat)
    requires
        len <= BUCKETS,
        samples.len() == 0,
    ensures
        cumulative(counts_of(samples), len) == 0,
    decreases len,
{
    if len > 0 {
        lemma_cumulative_none(samples, (len - 1) as nat);
    }
}

/// The counts of all buckets add up to the number of samples.
pub proof fn every_sample_is_counted(samples: Seq<nat>)
    ensures
        cumulative(counts_of(samples), BUCKETS as nat) == samples.len(),
    decreases samples.len(),
{
    if samples.len() == 0 {
        lemma_cumulative_none(samples, BUCKETS as nat);
    } else {
        every_sample_is_counted(samples.drop_last());
        lemma_cumulative_counts(samples, BUCKETS as nat);
    }
}

/// Whoever is at most `value` is in a bucket up to the one of `value`; whoever
/// is in an earlier bucket is less.
proof fn lemma_cumulative_ranks(samples: Seq<nat>, value: nat)
    ensures
        count_up_to(samples, value) <= cumulative(counts_of(samples), bucket_of(value) + 1),
        value > 0 ==> cumulative(counts_of(samples), bucket_of(value)) <= count_up_to(
            samples,
            (value - 1) as nat,
        ),
        value == 0 ==> cumulative(counts_of(samples), bucket_of(value)) == 0,
    decreases samples.len(),
{
    buckets_are_ordered(value, value);
    let b = bucket_of(value);
    if samples.len() == 0 {
        lemma_cumulative_none(samples, b + 1);
        lemma_cumulative_none(samples, b);
    } else {
        lemma_cumulative_ranks(samples.drop_last(), value);
        lemma_cumulative_counts(samples, b + 1);
        lemma_cumulative_counts(samples, b);
        let last = samples.last();
        if last <= value {
            buckets_are_ordered(last, value);
        } else {
            buckets_are_ordered(value, last);
        }
    }
    if value == 0 {
        assert(b == 0) by {
            power2::lemma2_to64();
        }
    }
}

proof fn lemma_cumulative_monotonic(counts: Seq<nat>, a: nat, b: nat)
    requires
        a <= b,
    ensures
        cumulative(counts, a) <= cumulative(counts, b),
    decreases b,
{
    if a < b {
        lemma_cumulative_monotonic(counts, a, (b - 1) as nat);
    }
}

/// The first bucket to reach `target` is the only one that does so and whose
/// predecessors do not.
proof fn lemma_first_reaching(counts: Seq<nat>, target: nat, from: nat, at: nat)
    requires
        from <= at < counts.len(),
        cumulative(counts, at + 1) >= target,
        cumulative(counts, at) < target,
    ensures
        first_reaching(counts, target, from) == at,
    decreases at - from,
{
    if from < at {
        lemma_cumulative_monotonic(counts, from + 1, at);
        lemma_first_reaching(counts, target, from + 1, at);
    }
}

/// No sample is larger than the largest.
pub proof fn lemma_largest(samples: Seq<nat>, i: int)
    requires
        0 <= i < samples.len(),
    ensures
        samples[i] <= largest(samples),
    decreases samples.len(),
{
    if i < samples.len() - 1 {
        lemma_largest(samples.drop_last(), i);
    }
}

/// The largest sample is one of them.
pub proof fn lemma_largest_is_one(samples: Seq<nat>)
    requires
        samples.len() > 0,
    ensures
        samples.contains(largest(samples)),
    decreases samples.len(),
{
    let n = samples.len();
    if samples.last() >= largest(samples.drop_last()) {
        assert(samples[n - 1] == largest(samples));
    } else {
        lemma_largest_is_one(samples.drop_last());
        let i = choose|i: int|
            0 <= i < n - 1 && samples.drop_last()[i] == largest(samples.drop_last());
        assert(samples[i] == largest(samples));
    }
}

/// A percentile is at least the sample that stands at that place, and exceeds
/// it by no more than one part in [`SUB_COUNT`]. Nor does it exceed the
/// largest sample.
pub proof fn figure_is_close(samples: Seq<nat>, num: nat, den: nat, value: nat, max: nat)
    requires
        0 < num <= den,
        is_ranked(samples, ceil_div(samples.len() * num, den), value),
        in_range(value),
        value * 1000 <= max,
    ensures
        figure(counts_of(samples), num, den, Some(max)) matches Some(shown) && {
            &&& value * 1000 <= shown <= max
            &&& SUB_COUNT * (shown - value * 1000) <= value * 1000
        },
{
    let counts = counts_of(samples);
    let n = samples.len();
    let target = ceil_div(n * num, den);
    every_sample_is_counted(samples);
    assert(n * num > 0) by (nonlinear_arith)
        requires
            n > 0,
            num > 0,
    ;
    assert(target > 0) by {
        let x = n * num;
        vstd::arithmetic::div_mod::lemma_fundamental_div_mod(x as int, den as int);
        if x % den == 0 {
            assert(x / den > 0) by (nonlinear_arith)
                requires
                    x > 0,
                    x == den * (x / den),
            ;
        }
    }
    buckets_are_ordered(value, value);
    lemma_cumulative_ranks(samples, value);
    lemma_first_reaching(counts, target, 0, bucket_of(value));
    bucket_bound_is_close(value);
}

proof fn lemma_counted_sample(samples: Seq<nat>, value: nat)
    requires
        if value == 0 {
            count_up_to(samples, 0) > 0
        } else {
            count_up_to(samples, value) > count_up_to(samples, (value - 1) as nat)
        },
    ensures
        samples.contains(value),
    decreases samples.len(),
{
    let last = samples.last();
    if last == value {
        assert(samples[samples.len() - 1] == value);
    } else {
        lemma_counted_sample(samples.drop_last(), value);
        let i = choose|i: int|
            0 <= i < samples.drop_last().len() && samples.drop_last()[i] == value;
        assert(samples[i] == value);
    }
}

proof fn lemma_ranked_up_to(samples: Seq<nat>, rank: nat, value: nat) -> (ranked: nat)
    requires
        rank > 0,
        count_up_to(samples, value) >= rank,
    ensures
        is_ranked(samples, rank, ranked),
    decreases value,
{
    if value > 0 && count_up_to(samples, (value - 1) as nat) >= rank {
        lemma_ranked_up_to(samples, rank, (value - 1) as nat)
    } else {
        lemma_counted_sample(samples, value);
        value
    }
}

proof fn lemma_all_up_to(samples: Seq<nat>, value: nat)
    requires
        forall|i: int| 0 <= i < samples.len() ==> #[trigger] samples[i] <= value,
    ensures
        count_up_to(samples, value) == samples.len(),
    decreases samples.len(),
{
    if samples.len() > 0 {
        lemma_all_up_to(samples.drop_last(), value);
    }
}

/// Some sample stands at every place there is.
pub proof fn every_rank_is_taken(samples: Seq<nat>, rank: nat)
    requires
        0 < rank <= samples.len(),
    ensures
        exists|value: nat| is_ranked(samples, rank, value),
{
    assert forall|i: int| 0 <= i < samples.len() implies #[trigger] samples[i] <= largest(
        samples,
    ) by {
        lemma_largest(samples, i);
    }
    lemma_all_up_to(samples, largest(samples));
    let value = lemma_ranked_up_to(samples, rank, largest(samples));
    assert(is_ranked(samples, rank, value));
}

/// Whoever stands at a place still does when only whole microseconds count.
pub proof fn rank_survives_micros(samples: Seq<nat>, rank: nat, value: nat)
    requires
        is_ranked(samples, rank, value),
    ensures
        is_ranked(in_micros(samples), rank, value / 1000),
{
    let i = choose|i: int| 0 <= i < samples.len() && samples[i] == value;
    assert(in_micros(samples)[i] == value / 1000);
    lemma_micros_counts(samples, value);
}

proof fn lemma_micros_counts(samples: Seq<nat>, value: nat)
    ensures
        count_up_to(samples, value) <= count_up_to(in_micros(samples), value / 1000),
        value >= 1000 ==> count_up_to(in_micros(samples), (value / 1000 - 1) as nat)
            <= count_up_to(samples, (value - 1) as nat),
    decreases samples.len(),
{
    if samples.len() > 0 {
        lemma_micros_counts(samples.drop_last(), value);
        assert(in_micros(samples).drop_last() =~= in_micros(samples.drop_last()));
        assert(in_micros(samples).last() == samples.last() / 1000);
    }
}

/// A higher percentile is never less than a lower one, and none exceeds the
/// largest sample.
pub proof fn figures_are_ordered(
    counts: Seq<nat>,
    low: (nat, nat),
    high: (nat, nat),
    max: nat,
)
    requires
        counts.len() == BUCKETS,
        0 < low.1,
        0 < high.1,
        low.0 * high.1 <= high.0 * low.1,
    ensures
        match (
            figure(counts, low.0, low.1, Some(max)),
            figure(counts, high.0, high.1, Some(max)),
        ) {
            (Some(a), Some(b)) => a <= b <= max,
            (None, None) => cumulative(counts, counts.len()) == 0,
            _ => false,
        },
{
    let total = cumulative(counts, counts.len());
    let a = ceil_div(total * low.0, low.1);
    let b = ceil_div(total * high.0, high.1);
    lemma_ceil_div_ordered(total * low.0, low.1, total * high.0, high.1, total, low.0, high.0);
    lemma_first_reaching_ordered(counts, a, b, 0);
    lemma_bucket_bound_monotonic(first_reaching(counts, a, 0), first_reaching(counts, b, 0));
}

proof fn lemma_ceil_div_ordered(x: nat, p: nat, y: nat, q: nat, total: nat, l: nat, h: nat)
    requires
        p > 0,
        q > 0,
        x == total * l,
        y == total * h,
        l * q <= h * p,
    ensures
        ceil_div(x, p) <= ceil_div(y, q),
{
    let c = ceil_div(y, q);
    vstd::arithmetic::div_mod::lemma_fundamental_div_mod(y as int, q as int);
    vstd::arithmetic::div_mod::lemma_fundamental_div_mod(x as int, p as int);
    let d = ceil_div(x, p);
    assert(c * q >= y) by (nonlinear_arith)
        requires
            y == q * (y / q) + y % q,
            0 <= y % q < q,
            c == y / q || c == y / q + 1,
            y % q != 0 ==> c == y / q + 1,
    ;
    assert(d > 0 ==> (d - 1) * p < x) by (nonlinear_arith)
        requires
            p > 0,
            x == p * (x / p) + x % p,
            0 <= x % p < p,
            x % p == 0 ==> d == x / p,
            x % p != 0 ==> d == x / p + 1,
    ;
    if d > c {
        assert(x * q <= y * p) by (nonlinear_arith)
            requires
                x == total * l,
                y == total * h,
                l * q <= h * p,
        ;
        assert(c * p < x) by (nonlinear_arith)
            requires
                (d - 1) * p < x,
                d - 1 >= c,
                p > 0,
        ;
        assert(false) by (nonlinear_arith)
            requires
                c * p < x,
                x * q <= y * p,
                c * q >= y,
                p > 0,
                q > 0,
        ;
    }
}

proof fn lemma_first_reaching_ordered(counts: Seq<nat>, a: nat, b: nat, from: nat)
    requires
        a <= b,
    ensures
        first_reaching(counts, a, from) <= first_reaching(counts, b, from),
        from <= first_reaching(counts, a, from),
    decreases counts.len() - from,
{
    if from < counts.len() {
        lemma_first_reaching_ordered(counts, a, b, from + 1);
    }
}

proof fn lemma_bucket_bound_monotonic(a: nat, b: nat)
    requires
        a <= b,
    ensures
        bucket_bound(a) <= bucket_bound(b),
{
    if b >= 64 {
        let kb = ((b - 32) / 32) as nat;
        power2::lemma_pow2_pos(kb);
        if a >= 64 {
            let ka = ((a - 32) / 32) as nat;
            power2::lemma_pow2_pos(ka);
            let la = 33 + a % 32;
            let lb = 33 + b % 32;
            assert(la * pow2(ka) > 0) by (nonlinear_arith)
                requires
                    la > 0,
                    pow2(ka) > 0,
            ;
            if ka == kb {
                assert(la * pow2(ka) <= lb * pow2(ka)) by (nonlinear_arith)
                    requires
                        la <= lb,
                ;
            } else {
                power2::lemma_pow2_unfold(ka + 1);
                if ka + 1 < kb {
                    power2::lemma_pow2_strictly_increases(ka + 1, kb);
                }
                assert(la * pow2(ka) <= lb * pow2(kb)) by (nonlinear_arith)
                    requires
                        la <= 64,
                        lb >= 33,
                        pow2(kb) >= 2 * pow2(ka),
                        pow2(ka) > 0,
                ;
            }
        } else {
            power2::lemma2_to64();
            assert(pow2(kb) >= 2) by {
                if kb > 1 {
                    power2::lemma_pow2_strictly_increases(1, kb);
                }
            }
            assert((33 + b % 32) * pow2(kb) >= 66) by (nonlinear_arith)
                requires
                    pow2(kb) >= 2,
            ;
        }
    }
}

/// A count as a counter of 64 bits holds it.
pub open spec fn wrapped(count: nat) -> nat {
    count % 0x1_0000_0000_0000_0000
}

proof fn lemma_count_in_bound(samples: Seq<nat>, index: nat)
    ensures
        count_in(samples, index) <= samples.len(),
    decreases samples.len(),
{
    if samples.len() > 0 {
        lemma_count_in_bound(samples.drop_last(), index);
    }
}

/// As long as there are fewer samples than a counter can count, every counter
/// holds its exact count.
pub proof fn counts_fit(samples: Seq<nat>)
    requires
        samples.len() <= u64::MAX,
    ensures
        forall|i: int|
            0 <= i < BUCKETS ==> wrapped(#[trigger] counts_of(samples)[i]) == counts_of(samples)[i],
{
    assert forall|i: int| 0 <= i < BUCKETS implies wrapped(#[trigger] counts_of(samples)[i])
        == counts_of(samples)[i] by {
        lemma_count_in_bound(samples, i as nat);
    }
}

/// The sum of all counters.
pub fn total_of(counts: &Vec<u64>) -> (out: u64)
    requires
        cumulative(as_numbers(counts@), counts@.len()) <= u64::MAX,
    ensures
        out as nat == cumulative(as_numbers(counts@), counts@.len()),
{
    let ghost numbers = as_numbers(counts@);
    let mut total: u64 = 0;
    let mut i: usize = 0;
    while i < counts.len()
        invariant
            numbers == as_numbers(counts@),
            i <= counts@.len(),
            total as nat == cumulative(numbers, i as nat),
            cumulative(numbers, counts@.len()) <= u64::MAX,
        decreases counts@.len() - i,
    {
        proof {
            lemma_cumulative_monotonic(numbers, i as nat + 1, counts@.len());
        }
        total += counts[i];
        i += 1;
    }
    total
}

/// The histogram the percentiles are read from.
pub struct Histogram {
    buckets: Vec<u64>,
    samples: Ghost<Seq<nat>>,
}

impl View for Histogram {
    type V = Seq<nat>;

    /// Every sample recorded, in microseconds, oldest first.
    closed spec fn view(&self) -> Seq<nat> {
        self.samples@
    }
}

impl Histogram {
    /// Whether each counter counts the samples of its bucket.
    pub closed spec fn wf(&self) -> bool {
        &&& self.buckets@.len() == BUCKETS
        &&& forall|i: int|
            0 <= i < BUCKETS ==> #[trigger] self.buckets@[i] == wrapped(
                count_in(self.samples@, i as nat),
            )
    }

    /// A histogram without samples.
    pub fn new() -> (out: Self)
        ensures
            out.wf(),
            out@ == Seq::<nat>::empty(),
    {
        let mut buckets: Vec<u64> = Vec::with_capacity(BUCKETS);
        while buckets.len() < BUCKETS
            invariant
                buckets@.len() <= BUCKETS,
                forall|i: int| 0 <= i < buckets@.len() ==> #[trigger] buckets@[i] == 0,
            decreases BUCKETS - buckets@.len(),
        {
            buckets.push(0);
        }
        Self { buckets, samples: Ghost(Seq::empty()) }
    }

    /// Which bucket a value in microseconds belongs to.
    ///
    /// Below `2 * SUB_COUNT` the index is the value itself; above it, the
    /// leading bits pick a doubling and the next five pick a step within it.
    pub fn index_of(micros: u64) -> (out: usize)
        ensures
            out as nat == bucket_of(micros as nat),
    {
        let mut lead: u64 = micros;
        let mut doublings: u64 = 0;
        proof {
            lemma_leading(micros as nat);
            power2::lemma2_to64();
            assert(micros as nat / 1 == micros);
        }
        while lead >= SUB_COUNT * 2
            invariant
                doublings + halvings(lead as nat) == halvings(micros as nat),
                doublings as nat + lead as nat <= u64::MAX,
                pow2(doublings as nat) > 0,
                lead as nat == micros as nat / pow2(doublings as nat),
            decreases lead,
        {
            proof {
                let unit = pow2(doublings as nat);
                power2::lemma_pow2_unfold(doublings as nat + 1);
                power2::lemma_pow2_pos(doublings as nat + 1);
                vstd::arithmetic::div_mod::lemma_div_denominator(
                    micros as int,
                    unit as int,
                    2,
                );
                assert(unit * 2 == 2 * unit) by (nonlinear_arith);
            }
            lead = lead / 2;
            doublings = doublings + 1;
        }
        assert(lead as nat == micros as nat / pow2(halvings(micros as nat)));
        if doublings >= 20 {
            return BUCKETS - 1;
        }
        let index: u64 = SUB_COUNT * doublings + lead;
        if index < BUCKETS as u64 {
            index as usize
        } else {
            BUCKETS - 1
        }
    }

    /// The largest value that lands in a bucket, in microseconds.
    pub fn upper_bound(index: usize) -> (out: u64)
        requires
            index < BUCKETS,
        ensures
            out as nat == bucket_bound(index as nat),
    {
        let index = index as u64;
        if index < SUB_COUNT * 2 {
            return index;
        }
        let shift: u64 = (index - SUB_COUNT) / SUB_COUNT;
        let sub: u64 = (index - SUB_COUNT) % SUB_COUNT;
        proof {
            let unit = pow2(shift as nat);
            power2::lemma2_to64();
            power2::lemma_pow2_pos(shift as nat);
            if shift < 18 {
                power2::lemma_pow2_strictly_increases(shift as nat, 18);
            }
            let lead: int = SUB_COUNT + sub;
            assert(0 < lead * unit <= 64 * 262144) by (nonlinear_arith)
                requires
                    32 <= lead < 64,
                    0 < unit <= 262144,
            ;
            assert((lead + 1) * unit == lead * unit + unit) by (nonlinear_arith);
            vstd::bits::lemma_u64_shl_is_mul((SUB_COUNT + sub) as u64, shift);
            vstd::bits::lemma_u64_shl_is_mul(1, shift);
        }
        ((SUB_COUNT + sub) << shift) + (1u64 << shift) - 1
    }

    /// Count one more sample.
    pub fn record(&mut self, micros: u64)
        requires
            old(self).wf(),
        ensures
            final(self).wf(),
            final(self)@ == old(self)@.push(micros as nat),
    {
        let index = Self::index_of(micros);
        proof {
            buckets_are_ordered(micros as nat, micros as nat);
        }
        let count = self.buckets[index];
        self.buckets.set(index, count.wrapping_add(1));
        let ghost before = self.samples@;
        self.samples = Ghost(self.samples@.push(micros as nat));
        assert(self.samples@.drop_last() =~= before);
    }

    /// Read every counter once, so the figures below agree with each other.
    pub fn snapshot(&self) -> (out: Vec<u64>)
        requires
            self.wf(),
        ensures
            out@.len() == BUCKETS,
            forall|i: int|
                0 <= i < BUCKETS ==> #[trigger] out@[i] == wrapped(counts_of(self@)[i]),
    {
        let mut counts: Vec<u64> = Vec::with_capacity(BUCKETS);
        let mut i: usize = 0;
        while i < self.buckets.len()
            invariant
                self.wf(),
                i <= self.buckets@.len(),
                counts@ =~= self.buckets@.take(i as int),
            decreases self.buckets@.len() - i,
        {
            counts.push(self.buckets[i]);
            i += 1;
        }
        counts
    }

    /// The value below which `num/den` of the samples fall, capped at the
    /// largest actually seen.
    pub fn quantile(
        counts: &Vec<u64>,
        total: u64,
        num: u64,
        den: u64,
        max: Option<Duration>,
    ) -> (out: Option<Duration>)
        requires
            counts@.len() == BUCKETS,
            total as nat == cumulative(as_numbers(counts@), BUCKETS as nat),
            den > 0,
            total * num <= u64::MAX,
        ensures
            nanos_of(out) == figure(
                as_numbers(counts@),
                num as nat,
                den as nat,
                nanos_of(max),
            ),
    {
        if total == 0 {
            return None;
        }
        let scaled: u64 = total * num;
        proof {
            vstd::arithmetic::div_mod::lemma_fundamental_div_mod(scaled as int, den as int);
            let whole = scaled as int / den as int;
            let rest = scaled as int % den as int;
            assert(rest > 0 ==> whole < u64::MAX) by (nonlinear_arith)
                requires
                    den >= 1,
                    scaled == den * whole + rest,
            ;
        }
        let target: u64 = if scaled % den == 0 {
            scaled / den
        } else {
            scaled / den + 1
        };
        let ghost numbers = as_numbers(counts@);
        let mut seen: u64 = 0;
        let mut index: usize = 0;
        while index < counts.len()
            invariant
                counts@.len() == BUCKETS,
                numbers == as_numbers(counts@),
                index <= BUCKETS,
                seen as nat == cumulative(numbers, index as nat),
                total as nat == cumulative(numbers, BUCKETS as nat),
                total > 0,
                target as nat == ceil_div(total as nat * num as nat, den as nat),
                first_reaching(numbers, target as nat, 0) == first_reaching(
                    numbers,
                    target as nat,
                    index as nat,
                ),
            decreases BUCKETS - index,
        {
            proof {
                lemma_cumulative_monotonic(numbers, index as nat + 1, BUCKETS as nat);
            }
            seen += counts[index];
            if seen >= target {
                let bound = Duration::from_micros(Self::upper_bound(index));
                return Some(
                    match max {
                        Some(max) => bound.min(max),
                        None => bound,
                    },
                );
            }
            index += 1;
        }
        max
    }
}

/// Buckets have relative resolution: below twice [`SUB_COUNT`] microseconds
/// every value has its own, doubling a value moves it on by one group of
/// [`SUB_COUNT`], a value and the next share a bucket from there on, and the
/// last bucket takes everything beyond the range.
pub proof fn buckets_follow_doublings(micros: u64, bucket: usize, twice: usize, odd: usize)
    requires
        micros < 0x8000_0000_0000_0000,
        call_ensures(Histogram::index_of, (micros,), bucket),
        call_ensures(Histogram::index_of, ((2 * micros) as u64,), twice),
        call_ensures(Histogram::index_of, ((2 * micros + 1) as u64,), odd),
    ensures
        micros < 64 ==> bucket == micros,
        32 <= micros < 0x80_0000 ==> twice == bucket + 32 && odd == twice,
        micros >= 0x100_0000 ==> bucket == 639,
{
    power2::lemma2_to64();
    let m = micros as nat;
    assert(m / 1 == m);
    if 32 <= micros {
        let k = halvings(m);
        lemma_leading(m);
        assert(halvings(2 * m) == k + 1 && halvings(2 * m + 1) == k + 1);
        power2::lemma_pow2_unfold(k + 1);
        let unit = pow2(k);
        let lead = m / unit;
        assert((2 * m) / (2 * unit) == lead) by (nonlinear_arith)
            requires
                unit > 0,
                lead * unit <= m < (lead + 1) * unit,
        ;
        assert((2 * m + 1) / (2 * unit) == lead) by (nonlinear_arith)
            requires
                unit > 0,
                lead * unit <= m < (lead + 1) * unit,
        ;
        if micros < 0x80_0000 {
            lemma_halvings_in_range(2 * m);
        }
    }
    if micros >= 0x100_0000 {
        lemma_leading(m);
        lemma_halvings_monotonic(0x100_0000, m);
        lemma_halvings_of_product(32, 19, 0x100_0000);
    }
}

/// What a percentile shows is the bound of the bucket that the sample at that
/// place is in, or the largest sample if that is less.
pub proof fn figure_is_the_bucket_bound(
    samples: Seq<nat>,
    num: nat,
    den: nat,
    value: nat,
    max: nat,
)
    requires
        0 < num <= den,
        is_ranked(samples, ceil_div(samples.len() * num, den), value),
        in_range(value),
        value * 1000 <= max,
    ensures
        ({
            let bound = bucket_bound(bucket_of(value)) * 1000;
            &&& bound <= max ==> figure(counts_of(samples), num, den, Some(max)) == Some(bound)
            &&& bound >= max ==> figure(counts_of(samples), num, den, Some(max)) == Some(max)
            &&& figure(counts_of(samples), num, den, None) == Some(bound)
        }),
{
    figure_is_close(samples, num, den, value, max);
    let counts = counts_of(samples);
    let n = samples.len();
    let target = ceil_div(n * num, den);
    every_sample_is_counted(samples);
    lemma_target_positive(n, num, den);
    buckets_are_ordered(value, value);
    lemma_cumulative_ranks(samples, value);
    lemma_first_reaching(counts, target, 0, bucket_of(value));
}

proof fn lemma_target_positive(n: nat, num: nat, den: nat)
    requires
        n > 0,
        num > 0,
        den > 0,
    ensures
        ceil_div(n * num, den) > 0,
{
    let x = n * num;
    assert(x > 0) by (nonlinear_arith)
        requires
            n > 0,
            num > 0,
            x == n * num,
    ;
    vstd::arithmetic::div_mod::lemma_fundamental_div_mod(x as int, den as int);
    if x % den == 0 {
        assert(x / den > 0) by (nonlinear_arith)
            requires
                x > 0,
                x == den * (x / den),
        ;
    }
}

/// Without samples there is no percentile, and one beyond all of them is the
/// largest sample.
pub proof fn figures_at_the_ends(counts: Seq<nat>, num: nat, den: nat, max: Option<nat>)
    requires
        den > 0,
    ensures
        cumulative(counts, counts.len()) == 0 ==> figure(counts, num, den, max) is None,
        cumulative(counts, counts.len()) > 0 && ceil_div(
            cumulative(counts, counts.len()) * num,
            den,
        ) > cumulative(counts, counts.len()) ==> figure(counts, num, den, max) == max,
{
    let total = cumulative(counts, counts.len());
    let target = ceil_div(total * num, den);
    if total > 0 && target > total {
        lemma_never_reached(counts, target, 0);
    }
}

proof fn lemma_never_reached(counts: Seq<nat>, target: nat, from: nat)
    requires
        from <= counts.len(),
        target > cumulative(counts, counts.len()),
    ensures
        first_reaching(counts, target, from) == counts.len(),
    decreases counts.len() - from,
{
    if from < counts.len() {
        lemma_cumulative_monotonic(counts, from + 1, counts.len());
        lemma_never_reached(counts, target, from + 1);
    }
}

/// A percentile is read off the counters as they are given, and the counters
/// of a histogram count its samples.
pub proof fn quantiles_are_figures(
    histogram: &Histogram,
    counts: Vec<u64>,
    total: u64,
    num: u64,
    den: u64,
    max: Option<Duration>,
    shown: Option<Duration>,
    value: nat,
)
    requires
        histogram@.len() <= u64::MAX,
        call_ensures(Histogram::snapshot, (histogram,), counts),
        call_ensures(total_of, (&counts,), total),
        call_ensures(Histogram::quantile, (&counts, total, num, den, max), shown),
        0 < num <= den,
        is_ranked(histogram@, ceil_div(histogram@.len() * num as nat, den as nat), value),
        in_range(value),
        max matches Some(max) ==> value * 1000 <= max@,
    ensures
        total == histogram@.len(),
        shown matches Some(shown) && {
            let bound = bucket_bound(bucket_of(value)) * 1000;
            match max {
                Some(max) => shown@ == if bound <= max@ {
                    bound
                } else {
                    max@
                },
                None => shown@ == bound,
            }
        },
{
    let samples = histogram@;
    counts_fit(samples);
    assert(as_numbers(counts@) =~= counts_of(samples));
    every_sample_is_counted(samples);
    let most = match max {
        Some(max) => max@,
        None => value * 1000,
    };
    figure_is_the_bucket_bound(samples, num as nat, den as nat, value, most);
}

/// Recording a sample adds it to the samples there are, and a histogram starts
/// without any.
pub proof fn recording_adds_one(histogram: &mut Histogram, micros: u64, fresh: Histogram)
    requires
        call_ensures(Histogram::record, (histogram, micros), ()),
        call_ensures(Histogram::new, (), fresh),
    ensures
        fresh@.len() == 0,
        final(histogram)@.len() == old(histogram)@.len() + 1,
        final(histogram)@.drop_last() == old(histogram)@,
        final(histogram)@.last() == micros,
{
    assert(final(histogram)@.drop_last() =~= old(histogram)@);
}

} // verus!
