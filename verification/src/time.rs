//! Spans of time and points in time, to the nanosecond.
use vstd::prelude::*;

verus! {

pub open spec fn nanos_per_sec() -> nat {
    1_000_000_000
}

/// A span of time.
#[derive(Debug, Clone, Copy, PartialEq, Eq)]
pub struct Span {
    secs: u64,
    nanos: u32,
}

impl View for Span {
    type V = nat;

    /// The length of the span in nanoseconds.
    closed spec fn view(&self) -> nat {
        self.secs as nat * nanos_per_sec() + self.nanos as nat
    }
}

impl Span {
    #[verifier::type_invariant]
    spec fn valid(self) -> bool {
        self.nanos < 1_000_000_000
    }

    /// The whole seconds in the span.
    pub open spec fn whole_secs(self) -> nat {
        self@ / nanos_per_sec()
    }

    /// The whole milliseconds in the span.
    pub open spec fn whole_millis(self) -> nat {
        self@ / 1_000_000
    }

    /// A span of so many seconds and, on top, so many nanoseconds.
    pub fn from_parts(secs: u64, nanos: u32) -> (r: Span)
        requires
            nanos < 1_000_000_000,
        ensures
            r@ == secs * nanos_per_sec() + nanos,
    {
        Span { secs, nanos }
    }

    pub fn from_secs(secs: u64) -> (r: Span)
        ensures
            r@ == secs * nanos_per_sec(),
    {
        Span { secs, nanos: 0 }
    }

    pub fn from_millis(millis: u64) -> (r: Span)
        ensures
            r@ == millis * 1_000_000,
    {
        let nanos: u32 = (millis % 1000) as u32 * 1_000_000;
        Span { secs: millis / 1000, nanos }
    }

    /// The whole seconds in the span.
    pub fn as_secs(&self) -> (r: u64)
        ensures
            r == self.whole_secs(),
    {
        proof {
            use_type_invariant(self);
            assert(self@ / nanos_per_sec() == self.secs as nat) by (nonlinear_arith)
                requires
                    self@ == self.secs as nat * 1_000_000_000 + self.nanos as nat,
                    self.nanos < 1_000_000_000,
                    nanos_per_sec() == 1_000_000_000,
            ;
        }
        self.secs
    }

    /// The whole milliseconds in the span.
    pub fn as_millis(&self) -> (r: u128)
        ensures
            r == self.whole_millis(),
    {
        proof {
            use_type_invariant(self);
        }
        self.secs as u128 * 1000 + (self.nanos / 1_000_000) as u128
    }

    /// The nanoseconds beyond the whole seconds.
    pub fn subsec_nanos(&self) -> (r: u32)
        ensures
            r == self@ % nanos_per_sec(),
    {
        proof {
            use_type_invariant(self);
        }
        self.nanos
    }
}

/// A point in time, told by the span since an origin that all points share.
#[derive(Debug, Clone, Copy, PartialEq, Eq)]
pub struct Moment {
    since_origin: Span,
}

impl View for Moment {
    type V = nat;

    /// The nanoseconds since the origin.
    closed spec fn view(&self) -> nat {
        self.since_origin@
    }
}

/// The nanoseconds from `earlier` to `later`; none if `later` is not later.
pub open spec fn since(later: nat, earlier: nat) -> nat {
    if later >= earlier {
        (later - earlier) as nat
    } else {
        0
    }
}

impl Moment {
    /// The point in time at `since_origin` from the origin.
    pub fn at(since_origin: Span) -> (r: Moment)
        ensures
            r@ == since_origin@,
    {
        Moment { since_origin }
    }

    /// The span from `earlier` to `self`; empty if `earlier` is the later one.
    pub fn saturating_since(&self, earlier: Moment) -> (r: Span)
        ensures
            r@ == since(self@, earlier@),
    {
        let a = self.since_origin;
        let b = earlier.since_origin;
        proof {
            use_type_invariant(&a);
            use_type_invariant(&b);
        }
        if a.secs < b.secs || (a.secs == b.secs && a.nanos <= b.nanos) {
            Span { secs: 0, nanos: 0 }
        } else if a.nanos >= b.nanos {
            Span { secs: a.secs - b.secs, nanos: a.nanos - b.nanos }
        } else {
            Span { secs: a.secs - b.secs - 1, nanos: a.nanos + 1_000_000_000 - b.nanos }
        }
    }
}

/// What is left of a span beyond its whole seconds or milliseconds is less
/// than one.
pub proof fn whole_parts_leave_less_than_one(span: Span)
    ensures
        span.whole_secs() * 1_000_000_000 <= span@ < (span.whole_secs() + 1) * 1_000_000_000,
        span.whole_millis() * 1_000_000 <= span@ < (span.whole_millis() + 1) * 1_000_000,
{
}

/// The time from one point to a later one, added to the first, gives the
/// second. There is none back.
pub proof fn time_passes_forward(earlier: nat, span: nat)
    ensures
        since(earlier + span, earlier) == span,
        since(earlier, earlier + span) == 0,
        nanos_per_sec() == 1_000_000_000,
{
}

} // verus!
