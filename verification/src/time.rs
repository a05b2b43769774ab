use vstd::prelude::*;

verus! {

/// One tick of the playlist clock is 1/45000 of a second.
pub const TICKS_PER_SECOND: u64 = 45000;

/// Nanoseconds in one second.
pub const NANOS_PER_SECOND: u64 = 1_000_000_000;

/// A non-negative span of time, kept as whole seconds plus a nanosecond
/// remainder below one second.  Chapter timestamps never need sub-nanosecond
/// precision: a tick is 1/45000 s and the fractional part is truncated,
/// never rounded, when a tick count is converted.
#[derive(Clone, Copy, Debug, PartialEq, Eq, Structural)]
pub struct Duration {
    pub secs: u64,
    pub nanos: u32,
}

impl Duration {
    /// The nanosecond field stays below one second.
    pub open spec fn wf(self) -> bool {
        self.nanos < NANOS_PER_SECOND
    }

    /// A duration denotes a total count of nanoseconds.
    pub open spec fn view(self) -> int {
        self.secs * NANOS_PER_SECOND + self.nanos
    }

    pub fn zero() -> (r: Duration)
        ensures
            r.wf(),
            r@ == 0,
    {
        Duration { secs: 0, nanos: 0 }
    }

    pub fn new(secs: u64, nanos: u32) -> (r: Duration)
        requires
            nanos < NANOS_PER_SECOND,
        ensures
            r.wf(),
            r@ == secs * NANOS_PER_SECOND + nanos,
    {
        Duration { secs, nanos }
    }

    /// Exact addition; the caller keeps the seconds within range.
    pub fn add(self, other: Duration) -> (r: Duration)
        requires
            self.wf(),
            other.wf(),
            self.secs + other.secs + 1 <= u64::MAX,
        ensures
            r.wf(),
            r@ == self@ + other@,
    {
        let mut secs: u64 = self.secs + other.secs;
        let mut nanos: u32 = self.nanos + other.nanos;
        if nanos >= 1_000_000_000 {
            secs = secs + 1;
            nanos = nanos - 1_000_000_000;
        }
        Duration { secs, nanos }
    }

    /// Subtraction clamped at zero: re-basing never runs before the start
    /// of its window, so a clamped result only arises from bounds that do
    /// not lie on the segment's timeline.
    pub fn saturating_sub(self, other: Duration) -> (r: Duration)
        requires
            self.wf(),
            other.wf(),
        ensures
            r.wf(),
            self@ >= other@ ==> r@ == self@ - other@,
            self@ < other@ ==> r@ == 0,
    {
        if self.secs > other.secs || (self.secs == other.secs && self.nanos >= other.nanos) {
            if self.nanos >= other.nanos {
                Duration { secs: self.secs - other.secs, nanos: self.nanos - other.nanos }
            } else {
                Duration {
                    secs: self.secs - other.secs - 1,
                    nanos: 1_000_000_000 - other.nanos + self.nanos,
                }
            }
        } else {
            Duration { secs: 0, nanos: 0 }
        }
    }
}

/// The nanosecond count that a tick count denotes: whole seconds, then the
/// remainder scaled to nanoseconds with the fraction truncated.
pub open spec fn dur_of_ticks(t: int) -> int {
    (t / 45000) * 1_000_000_000 + (t % 45000) * 1_000_000_000 / 45000
}

/// Converts a 45 kHz tick count to a duration.  The fractional part is
/// truncated to whole nanoseconds, never rounded.
pub fn ticks_to_duration(ticks: u32) -> (r: Duration)
    ensures
        r.wf(),
        r@ == dur_of_ticks(ticks as int),
        r.secs <= 95444,
{
    let t: u64 = ticks as u64;
    let secs: u64 = t / TICKS_PER_SECOND;
    let rem: u64 = t % TICKS_PER_SECOND;
    let scaled: u64 = rem * NANOS_PER_SECOND;
    let nanos: u64 = scaled / TICKS_PER_SECOND;
    assert(nanos < 1_000_000_000) by {
        assert(rem < 45000);
        assert(rem * 1_000_000_000 < 45000 * 1_000_000_000) by (nonlinear_arith)
            requires rem < 45000;
        assert(scaled / 45000 < 1_000_000_000);
    };
    assert(secs <= 95444) by {
        assert(t <= u32::MAX);
    };
    Duration { secs, nanos: nanos as u32 }
}

/// Every duration derived from a 32-bit tick count stays below this many
/// nanoseconds (a little under 95445 seconds).
pub open spec fn max_tick_nanos() -> int {
    (95445 * 1_000_000_000) as int
}

pub proof fn lemma_dur_of_ticks_bound(t: int)
    requires
        0 <= t <= u32::MAX,
    ensures
        0 <= dur_of_ticks(t) < max_tick_nanos(),
{
    assert(t / 45000 <= 95443) by (nonlinear_arith)
        requires 0 <= t <= 0xffff_ffff;
    assert(t / 45000 >= 0) by (nonlinear_arith)
        requires t >= 0;
    assert(t % 45000 * 1_000_000_000 / 45000 < 1_000_000_000) by (nonlinear_arith)
        requires t >= 0;
    assert(t % 45000 * 1_000_000_000 / 45000 >= 0) by (nonlinear_arith)
        requires t >= 0;
}

} // verus!
