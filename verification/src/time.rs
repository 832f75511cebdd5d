//! Spans of time and points on a monotonic clock, to the nanosecond.
//!
//! The library never reads a clock. Whoever does hands the reading over as an
//! [`Instant`], which is how long it was after an origin of the caller's own
//! choosing.

use core::cmp::Ordering;

use vstd::prelude::*;

verus! {

/// Nanoseconds in a second.
pub const NANOS_PER_SEC: u32 = 1_000_000_000;

/// The longest span there is, in nanoseconds: as many seconds as fit, and a
/// nanosecond short of one more.
pub open spec fn max_nanos() -> nat {
    u64::MAX as nat * 1_000_000_000 + 999_999_999
}

/// A span of time.
#[derive(Debug, Clone, Copy, Eq, Hash)]
pub struct Duration {
    secs: u64,
    nanos: u32,
}

impl View for Duration {
    type V = nat;

    /// The span in nanoseconds.
    closed spec fn view(&self) -> nat {
        self.secs as nat * 1_000_000_000 + self.nanos as nat
    }
}

impl Duration {
    #[verifier::type_invariant]
    spec fn inv(self) -> bool {
        self.nanos < 1_000_000_000
    }

    /// This many seconds and nanoseconds.
    pub fn new(secs: u64, nanos: u32) -> (out: Self)
        requires
            nanos < NANOS_PER_SEC,
        ensures
            out@ == secs as nat * 1_000_000_000 + nanos as nat,
    {
        Self { secs, nanos }
    }

    /// No time at all.
    pub fn zero() -> (out: Self)
        ensures
            out@ == 0,
    {
        Self { secs: 0, nanos: 0 }
    }

    /// This many seconds.
    pub fn from_secs(secs: u64) -> (out: Self)
        ensures
            out@ == secs as nat * 1_000_000_000,
    {
        Self { secs, nanos: 0 }
    }

    /// This many milliseconds.
    pub fn from_millis(millis: u64) -> (out: Self)
        ensures
            out@ == millis as nat * 1_000_000,
    {
        Self { secs: millis / 1000, nanos: (millis % 1000) as u32 * 1_000_000 }
    }

    /// This many microseconds.
    pub fn from_micros(micros: u64) -> (out: Self)
        ensures
            out@ == micros as nat * 1000,
    {
        Self { secs: micros / 1_000_000, nanos: (micros % 1_000_000) as u32 * 1000 }
    }

    /// The whole seconds of it.
    pub fn as_secs(&self) -> (out: u64)
        ensures
            out as nat == self@ / 1_000_000_000,
    {
        proof {
            use_type_invariant(self);
        }
        self.secs
    }

    /// The nanoseconds beyond the whole seconds.
    pub fn subsec_nanos(&self) -> (out: u32)
        ensures
            out as nat == self@ % 1_000_000_000,
    {
        proof {
            use_type_invariant(self);
        }
        self.nanos
    }

    /// The whole microseconds of it.
    pub fn as_micros(&self) -> (out: u128)
        ensures
            out as nat == self@ / 1000,
    {
        proof {
            use_type_invariant(self);
        }
        self.secs as u128 * 1_000_000 + (self.nanos / 1000) as u128
    }

    /// Whether it is no time at all.
    pub fn is_zero(&self) -> (out: bool)
        ensures
            out <==> self@ == 0,
    {
        self.secs == 0 && self.nanos == 0
    }

    /// The shorter of two spans. Neither is longer than the longest.
    pub fn min(self, other: Self) -> (out: Self)
        ensures
            out@ == if self@ <= other@ {
                self@
            } else {
                other@
            },
            self@ <= max_nanos(),
            other@ <= max_nanos(),
    {
        proof {
            use_type_invariant(&self);
            use_type_invariant(&other);
        }
        if other < self {
            other
        } else {
            self
        }
    }

    /// Two spans one behind the other, unless there is no span that long.
    /// Neither is longer than the longest on its own.
    pub fn checked_add(self, other: Self) -> (out: Option<Self>)
        ensures
            self@ <= max_nanos(),
            other@ <= max_nanos(),
            match out {
                Some(sum) => sum@ == self@ + other@ && sum@ <= max_nanos(),
                None => self@ + other@ > max_nanos(),
            },
    {
        proof {
            use_type_invariant(&self);
            use_type_invariant(&other);
        }
        let nanos: u32 = self.nanos + other.nanos;
        let carry: u64 = if nanos >= NANOS_PER_SEC {
            1
        } else {
            0
        };
        let secs = match self.secs.checked_add(other.secs) {
            Some(secs) => secs,
            None => {
                return None;
            },
        };
        match secs.checked_add(carry) {
            Some(secs) => Some(
                Self { secs, nanos: nanos - carry as u32 * NANOS_PER_SEC },
            ),
            None => None,
        }
    }

    /// A span this many times over, unless there is no span that long.
    pub fn checked_mul(self, times: u32) -> (out: Option<Self>)
        ensures
            match out {
                Some(product) => product@ == self@ * times as nat && product@ <= max_nanos(),
                None => self@ * times as nat > max_nanos(),
            },
    {
        proof {
            use_type_invariant(&self);
        }
        let ghost t = times as int;
        assert(self.nanos * t <= 999_999_999 * 0xffff_ffff) by (nonlinear_arith)
            requires
                0 <= self.nanos <= 999_999_999,
                0 <= t <= 0xffff_ffff,
        ;
        assert(self.secs * t <= 0xffff_ffff_ffff_ffff * 0xffff_ffff) by (nonlinear_arith)
            requires
                0 <= self.secs <= 0xffff_ffff_ffff_ffff,
                0 <= t <= 0xffff_ffff,
        ;
        assert((self.secs * 1_000_000_000 + self.nanos) * t == self.secs * t * 1_000_000_000
            + self.nanos * t) by (nonlinear_arith);
        let nanos: u64 = self.nanos as u64 * times as u64;
        let secs: u128 = self.secs as u128 * times as u128 + (nanos / 1_000_000_000) as u128;
        if secs > u64::MAX as u128 {
            return None;
        }
        Some(Self { secs: secs as u64, nanos: (nanos % 1_000_000_000) as u32 })
    }

    /// What is left of a span after another, or nothing if it is no longer.
    pub fn saturating_sub(self, other: Self) -> (out: Self)
        ensures
            out@ == if self@ >= other@ {
                (self@ - other@) as nat
            } else {
                0
            },
    {
        proof {
            use_type_invariant(&self);
            use_type_invariant(&other);
        }
        if self < other {
            return Self::zero();
        }
        if self.nanos >= other.nanos {
            Self { secs: self.secs - other.secs, nanos: self.nanos - other.nanos }
        } else {
            Self {
                secs: self.secs - other.secs - 1,
                nanos: self.nanos + NANOS_PER_SEC - other.nanos,
            }
        }
    }
}

impl PartialEq for Duration {
    fn eq(&self, other: &Self) -> (out: bool) {
        proof {
            use_type_invariant(self);
            use_type_invariant(other);
        }
        self.secs == other.secs && self.nanos == other.nanos
    }
}

impl vstd::std_specs::cmp::PartialEqSpecImpl for Duration {
    open spec fn obeys_eq_spec() -> bool {
        true
    }

    open spec fn eq_spec(&self, other: &Self) -> bool {
        self@ == other@
    }
}

impl PartialOrd for Duration {
    fn partial_cmp(&self, other: &Self) -> (out: Option<Ordering>) {
        proof {
            use_type_invariant(self);
            use_type_invariant(other);
        }
        if self.secs < other.secs {
            Some(Ordering::Less)
        } else if self.secs > other.secs {
            Some(Ordering::Greater)
        } else if self.nanos < other.nanos {
            Some(Ordering::Less)
        } else if self.nanos > other.nanos {
            Some(Ordering::Greater)
        } else {
            Some(Ordering::Equal)
        }
    }
}

impl vstd::std_specs::cmp::PartialOrdSpecImpl for Duration {
    open spec fn obeys_partial_cmp_spec() -> bool {
        true
    }

    open spec fn partial_cmp_spec(&self, other: &Self) -> Option<Ordering> {
        if self@ < other@ {
            Some(Ordering::Less)
        } else if self@ > other@ {
            Some(Ordering::Greater)
        } else {
            Some(Ordering::Equal)
        }
    }
}

/// A point on a monotonic clock, as the time since the clock's origin.
#[derive(Debug, Clone, Copy, Eq, Hash)]
pub struct Instant {
    since_origin: Duration,
}

impl View for Instant {
    type V = nat;

    /// Nanoseconds since the origin.
    closed spec fn view(&self) -> nat {
        self.since_origin@
    }
}

impl Instant {
    /// The point this long after the origin.
    pub fn at(since_origin: Duration) -> (out: Self)
        ensures
            out@ == since_origin@,
    {
        Self { since_origin }
    }

    /// How long after the origin it is.
    pub fn since_origin(&self) -> (out: Duration)
        ensures
            out@ == self@,
    {
        self.since_origin
    }

    /// How long after `earlier` it is, or nothing if it is not after it.
    pub fn saturating_duration_since(&self, earlier: Instant) -> (out: Duration)
        ensures
            out@ == if self@ >= earlier@ {
                (self@ - earlier@) as nat
            } else {
                0
            },
    {
        self.since_origin.saturating_sub(earlier.since_origin)
    }

    /// The point `span` later, unless the clock does not reach that far.
    pub fn checked_add(&self, span: Duration) -> (out: Option<Self>)
        ensures
            match out {
                Some(later) => later@ == self@ + span@ && later@ <= max_nanos(),
                None => self@ + span@ > max_nanos(),
            },
    {
        match self.since_origin.checked_add(span) {
            Some(since_origin) => Some(Self { since_origin }),
            None => None,
        }
    }
}

impl PartialEq for Instant {
    fn eq(&self, other: &Self) -> (out: bool) {
        self.since_origin == other.since_origin
    }
}

impl vstd::std_specs::cmp::PartialEqSpecImpl for Instant {
    open spec fn obeys_eq_spec() -> bool {
        true
    }

    open spec fn eq_spec(&self, other: &Self) -> bool {
        self@ == other@
    }
}

impl PartialOrd for Instant {
    fn partial_cmp(&self, other: &Self) -> (out: Option<Ordering>) {
        self.since_origin.partial_cmp(&other.since_origin)
    }
}

impl vstd::std_specs::cmp::PartialOrdSpecImpl for Instant {
    open spec fn obeys_partial_cmp_spec() -> bool {
        true
    }

    open spec fn partial_cmp_spec(&self, other: &Self) -> Option<Ordering> {
        if self@ < other@ {
            Some(Ordering::Less)
        } else if self@ > other@ {
            Some(Ordering::Greater)
        } else {
            Some(Ordering::Equal)
        }
    }
}

/// A span is its whole seconds and what is beyond them, and comes apart as it
/// was put together.
pub proof fn spans_come_apart(span: Duration, secs: u64, nanos: u32, micros: u128, again: Duration)
    requires
        call_ensures(Duration::as_secs, (&span,), secs),
        call_ensures(Duration::subsec_nanos, (&span,), nanos),
        call_ensures(Duration::as_micros, (&span,), micros),
        call_ensures(Duration::new, (secs, nanos), again),
    ensures
        again@ == span@,
        nanos < 1_000_000_000,
        micros * 1000 <= span@ < micros * 1000 + 1000,
{
}

/// A second is a thousand milliseconds, and a millisecond a thousand
/// microseconds; nothing of them is no time at all.
pub proof fn units_fit_together(
    n: u64,
    secs: Duration,
    millis: Duration,
    micros: Duration,
    none: Duration,
    is_none: bool,
)
    requires
        call_ensures(Duration::from_secs, (n,), secs),
        call_ensures(Duration::from_millis, (n,), millis),
        call_ensures(Duration::from_micros, (n,), micros),
        call_ensures(Duration::zero, (), none),
        call_ensures(Duration::is_zero, (&secs,), is_none),
    ensures
        secs@ == 1000 * millis@,
        millis@ == 1000 * micros@,
        micros@ == 1000 * n,
        none@ == 0,
        is_none <==> n == 0,
{
}

/// Spans add up, come apart again and multiply as numbers do, as long as there
/// is a span that long. Taking away more than there is leaves nothing.
pub proof fn spans_are_numbers(
    a: Duration,
    b: Duration,
    times: u32,
    sum: Option<Duration>,
    product: Option<Duration>,
    rest: Duration,
    less: Duration,
)
    requires
        call_ensures(Duration::checked_add, (a, b), sum),
        call_ensures(Duration::checked_mul, (a, times), product),
        call_ensures(Duration::saturating_sub, (a, b), rest),
        call_ensures(Duration::min, (a, b), less),
    ensures
        sum matches Some(sum) ==> sum@ == a@ + b@,
        sum is None <==> a@ + b@ > u64::MAX * 1_000_000_000 + 999_999_999,
        product matches Some(product) ==> product@ == a@ * times,
        product is None <==> a@ * times > u64::MAX * 1_000_000_000 + 999_999_999,
        a@ >= b@ ==> rest@ + b@ == a@,
        a@ <= b@ ==> rest@ == 0,
        less@ <= a@ && less@ <= b@,
        less@ == a@ || less@ == b@,
{
    let t = times as nat;
    assert(a@ * times == a@ * t);
}

/// Points on the clock and the spans between them fit together.
pub proof fn points_and_spans_fit(
    at: Instant,
    span: Duration,
    later: Option<Instant>,
    since: Duration,
    other: Instant,
    origin: Duration,
    made: Instant,
)
    requires
        call_ensures(Instant::checked_add, (&at, span), later),
        call_ensures(Instant::saturating_duration_since, (&at, other), since),
        call_ensures(Instant::since_origin, (&at,), origin),
        call_ensures(Instant::at, (span,), made),
    ensures
        later matches Some(later) ==> later@ == at@ + span@,
        later is None <==> at@ + span@ > u64::MAX * 1_000_000_000 + 999_999_999,
        at@ >= other@ ==> since@ + other@ == at@,
        at@ <= other@ ==> since@ == 0,
        origin@ == at@,
        made@ == span@,
{
}

/// Spans and points in time are equal, and come before one another, as their
/// nanoseconds do.
pub proof fn times_compare_as_numbers(
    a: Duration,
    b: Duration,
    same: bool,
    order: Option<Ordering>,
    x: Instant,
    y: Instant,
    at_once: bool,
    sequence: Option<Ordering>,
)
    requires
        call_ensures(Duration::eq, (&a, &b), same),
        call_ensures(Duration::partial_cmp, (&a, &b), order),
        call_ensures(Instant::eq, (&x, &y), at_once),
        call_ensures(Instant::partial_cmp, (&x, &y), sequence),
    ensures
        same <==> a@ == b@,
        order == Some(Ordering::Less) <==> a@ < b@,
        order == Some(Ordering::Equal) <==> a@ == b@,
        order == Some(Ordering::Greater) <==> a@ > b@,
        at_once <==> x@ == y@,
        sequence == Some(Ordering::Less) <==> x@ < y@,
        sequence == Some(Ordering::Equal) <==> x@ == y@,
        sequence == Some(Ordering::Greater) <==> x@ > y@,
{
}

} // verus!
