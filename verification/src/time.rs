//! Points in time and spans of time, as the caller's clock counts them.

use vstd::prelude::*;

verus! {

/// A span of time.
#[derive(Debug, Clone, Copy, PartialEq, Eq, PartialOrd, Ord, Hash, Structural)]
pub struct Duration {
    pub nanos: u128,
}

/// A point in time, counted from an origin that the caller picks once.
#[derive(Debug, Clone, Copy, PartialEq, Eq, PartialOrd, Ord, Hash, Structural)]
pub struct Instant {
    pub nanos: u128,
}

impl Duration {
    pub open spec fn of_secs(secs: u64) -> Duration {
        Duration { nanos: (secs * 1_000_000_000) as u128 }
    }

    pub fn from_secs(secs: u64) -> (r: Duration)
        ensures
            r == Duration::of_secs(secs),
            r.nanos == secs * 1_000_000_000,
    {
        Duration { nanos: (secs as u128) * 1_000_000_000 }
    }

    pub fn from_nanos(nanos: u128) -> (r: Duration)
        ensures
            r.nanos == nanos,
    {
        Duration { nanos }
    }
}

impl Instant {
    /// The point `d` after `self`, or the last representable point.
    pub open spec fn later(self, d: Duration) -> Instant {
        if self.nanos + d.nanos <= u128::MAX {
            Instant { nanos: (self.nanos + d.nanos) as u128 }
        } else {
            Instant { nanos: u128::MAX }
        }
    }

    /// Whether a deadline at `self` has been reached at `now`.
    pub open spec fn due(self, now: Instant) -> bool {
        self.nanos <= now.nanos
    }

    pub fn from_nanos(nanos: u128) -> (r: Instant)
        ensures
            r.nanos == nanos,
    {
        Instant { nanos }
    }

    pub fn after(self, d: Duration) -> (r: Instant)
        ensures
            r == self.later(d),
    {
        if d.nanos <= u128::MAX - self.nanos {
            Instant { nanos: self.nanos + d.nanos }
        } else {
            Instant { nanos: u128::MAX }
        }
    }

    pub fn is_due(self, now: Instant) -> (r: bool)
        ensures
            r == self.due(now),
    {
        self.nanos <= now.nanos
    }
}

/// A point that lies a span after another is that many nanoseconds later, or the last
/// point; a deadline is reached from its own point on; a second has a billion nanoseconds.
pub proof fn law_time_adds_up(now: Instant, d: Duration, at: Instant, secs: u64)
    ensures
        now.nanos + d.nanos <= u128::MAX ==> now.later(d).nanos == now.nanos + d.nanos,
        now.nanos + d.nanos > u128::MAX ==> now.later(d).nanos == u128::MAX,
        at.due(now) <==> at.nanos <= now.nanos,
        Duration::of_secs(secs).nanos == secs * 1_000_000_000,
{
}

impl std::ops::Add<Duration> for Instant {
    type Output = Instant;

    fn add(self, d: Duration) -> (r: Instant) {
        self.after(d)
    }
}

impl vstd::std_specs::ops::AddSpecImpl<Duration> for Instant {
    open spec fn obeys_add_spec() -> bool {
        true
    }

    open spec fn add_req(self, d: Duration) -> bool {
        true
    }

    open spec fn add_spec(self, d: Duration) -> Instant {
        self.later(d)
    }
}

/// `r` is the least of the points that satisfy `p`, if there is one.
pub open spec fn is_earliest(r: Option<Instant>, p: spec_fn(Instant) -> bool) -> bool {
    match r {
        Some(t) => p(t) && forall|u: Instant| #[trigger] p(u) ==> t.nanos <= u.nanos,
        None => forall|u: Instant| !#[trigger] p(u),
    }
}

/// The earlier of the earliest points of two kinds is the earliest of either.
pub proof fn lemma_earliest_either(
    a: Option<Instant>,
    b: Option<Instant>,
    p: spec_fn(Instant) -> bool,
    q: spec_fn(Instant) -> bool,
)
    requires
        is_earliest(a, p),
        is_earliest(b, q),
    ensures
        is_earliest(earliest_of(a, b), |t: Instant| p(t) || q(t)),
{
}

/// Conditions that hold of the same points have the same earliest one.
pub proof fn lemma_earliest_same(
    r: Option<Instant>,
    p: spec_fn(Instant) -> bool,
    q: spec_fn(Instant) -> bool,
)
    requires
        is_earliest(r, p),
        forall|t: Instant| #[trigger] p(t) <==> q(t),
    ensures
        is_earliest(r, q),
{
    if r is Some {
        assert(p(r->0));
    }
    assert forall|u: Instant| #[trigger] q(u) implies p(u) by {
        assert(p(u) <==> q(u));
    }
}

/// The earlier of two optional points.
pub fn earlier(a: Option<Instant>, b: Option<Instant>) -> (r: Option<Instant>)
    ensures
        r == earliest_of(a, b),
{
    match (a, b) {
        (Some(x), Some(y)) => if x.nanos <= y.nanos {
            Some(x)
        } else {
            Some(y)
        },
        (Some(x), None) => Some(x),
        (None, y) => y,
    }
}

pub open spec fn earliest_of(a: Option<Instant>, b: Option<Instant>) -> Option<Instant> {
    match (a, b) {
        (Some(x), Some(y)) => if x.nanos <= y.nanos {
            Some(x)
        } else {
            Some(y)
        },
        (Some(x), None) => Some(x),
        (None, y) => y,
    }
}

/// The earliest of some points is one of them and not later than any; there is none exactly
/// if there are no such points. Of two optional points the earlier is the one with fewer
/// nanoseconds, or the only one.
pub proof fn law_earliest_is_the_least(
    r: Option<Instant>,
    p: spec_fn(Instant) -> bool,
    a: Option<Instant>,
    b: Option<Instant>,
    t: Instant,
)
    ensures
        is_earliest(r, p) && p(t) ==> r is Some && r->0.nanos <= t.nanos && p(r->0),
        is_earliest(r, p) && r is None ==> !p(t),
        a is None ==> earliest_of(a, b) == b,
        b is None ==> earliest_of(a, b) == a,
        a is Some && b is Some ==> earliest_of(a, b) is Some && earliest_of(a, b)->0.nanos
            <= a->0.nanos && earliest_of(a, b)->0.nanos <= b->0.nanos && (earliest_of(a, b) == a
            || earliest_of(a, b) == b),
{
}

} // verus!
