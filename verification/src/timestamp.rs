//! Points in time, and how far one lies from another in words.

use chrono::Duration;
use chrono_humanize::HumanTime;
use vstd::prelude::*;

verus! {

/// The nanoseconds in a second.
pub const NANOS_PER_SEC: u32 = 1_000_000_000;

/// The largest number of seconds before or after the epoch that a timestamp holds. The distance
/// between two timestamps is then always one that `chrono` can hold.
pub const MAX_SECS: i64 = 4_611_686_018_427_386;

/// A point in time.
#[derive(Debug, Clone, Copy)]
pub struct Timestamp {
    secs: i64,
    nanos: u32,
}

/// The words for a span of whole seconds, towards the past if negative, and nanoseconds on
/// top of them.
pub uninterp spec fn human_time_text(secs: int, nanos: int) -> Seq<char>;

/// The words for a span of nanoseconds.
pub open spec fn span_text(span: int) -> Seq<char> {
    human_time_text(span / NANOS_PER_SEC as int, span % NANOS_PER_SEC as int)
}

/// Calls `chrono_humanize::HumanTime::from` on a `chrono::Duration` and formats the result. The
/// claim is that the words depend on the span alone; what they are is left unsaid.
#[verifier::external_body]
fn human_time(secs: i64, nanos: u32) -> (text: String)
    requires
        nanos < NANOS_PER_SEC,
        -2 * MAX_SECS - 1 <= secs <= 2 * MAX_SECS,
    ensures
        text@ == human_time_text(secs as int, nanos as int),
{
    HumanTime::from(Duration::new(secs, nanos).unwrap()).to_string()
}

impl Timestamp {
    /// Nanoseconds since the epoch.
    pub closed spec fn view(&self) -> int {
        self.secs * NANOS_PER_SEC + self.nanos
    }

    #[verifier::type_invariant]
    spec fn wf(self) -> bool {
        &&& self.nanos < NANOS_PER_SEC
        &&& -MAX_SECS <= self.secs <= MAX_SECS
    }

    /// Makes a timestamp from seconds since the epoch and the nanoseconds on top of them.
    pub fn new(secs: i64, nanos: u32) -> (timestamp: Option<Timestamp>)
        ensures
            timestamp is Some <==> nanos < NANOS_PER_SEC && -MAX_SECS <= secs <= MAX_SECS,
            timestamp matches Some(t) ==> t@ == secs * NANOS_PER_SEC + nanos,
    {
        if nanos < NANOS_PER_SEC && -MAX_SECS <= secs && secs <= MAX_SECS {
            Some(Timestamp { secs, nanos })
        } else {
            None
        }
    }

    /// The whole seconds since the epoch, rounded down, and the nanoseconds beyond them.
    pub fn parts(&self) -> (parts: (i64, u32))
        ensures
            parts.0 == self@ / NANOS_PER_SEC as int,
            parts.1 == self@ % NANOS_PER_SEC as int,
    {
        proof {
            use_type_invariant(self);
        }
        (self.secs, self.nanos)
    }

    /// How far the timestamp lies from `now`, in words.
    pub fn relative_to(&self, now: &Timestamp) -> (text: String)
        ensures
            text@ == span_text(self@ - now@),
    {
        proof {
            use_type_invariant(self);
            use_type_invariant(now);
        }
        let secs: i64 = self.secs - now.secs;
        if self.nanos >= now.nanos {
            let nanos: u32 = self.nanos - now.nanos;
            assert(self@ - now@ == secs * NANOS_PER_SEC + nanos);
            human_time(secs, nanos)
        } else {
            let nanos: u32 = self.nanos + NANOS_PER_SEC - now.nanos;
            assert(self@ - now@ == (secs - 1) * NANOS_PER_SEC + nanos);
            human_time(secs - 1, nanos)
        }
    }
}

/// A span is told in words by its whole seconds, rounded down, and the nanoseconds beyond them.
pub proof fn lemma_span_text(secs: int, nanos: int)
    requires
        0 <= nanos < 1_000_000_000,
    ensures
        span_text(secs * 1_000_000_000 + nanos) == human_time_text(secs, nanos),
{
}

} // verus!
