//! Monotonic cycle-counter time: `Instant` wraps a 32-bit cycle count
//! interpreted as signed for wrap-around-safe ordering, and `Duration` is an
//! unsigned 32-bit span. Any two live instants must stay within `2^31` cycles
//! of each other; under that discipline the wrapping arithmetic below behaves
//! like exact arithmetic.

use vstd::prelude::*;
use vstd::std_specs::cmp::PartialOrdSpec;
use vstd::wrapping::i32_specs;

verus! {

/// Half of the 32-bit counter range: the largest span a `Duration` used with
/// an `Instant` may have.
pub const HALF_RANGE: u32 = 0x8000_0000;

/// A measurement of a monotonically nondecreasing clock. Opaque and useful
/// only with `Duration`.
#[derive(Clone, Copy, Debug, PartialEq, Eq, Structural)]
pub struct Instant(i32);

/// A span of time, in clock cycles.
#[derive(Clone, Copy, Debug, PartialEq, Eq, Structural)]
pub struct Duration(u32);

impl Duration {
    /// The number of cycles this span covers.
    pub closed spec fn ticks(self) -> u32 {
        self.0
    }

    /// Builds a span from a cycle count.
    pub fn from_cycles(cycles: u32) -> (r: Duration)
        ensures
            r.ticks() == cycles,
    {
        Duration(cycles)
    }

    /// The cycle count back out of the span.
    pub fn as_cycles(self) -> (r: u32)
        ensures
            r == self.ticks(),
    {
        self.0
    }

    /// Sum of two spans.
    pub fn add(self, other: Duration) -> (r: Duration)
        requires
            self.ticks() + other.ticks() <= u32::MAX,
        ensures
            r.ticks() == self.ticks() + other.ticks(),
    {
        Duration(self.0 + other.0)
    }

    /// Difference of two spans.
    pub fn sub(self, other: Duration) -> (r: Duration)
        requires
            other.ticks() <= self.ticks(),
        ensures
            r.ticks() == self.ticks() - other.ticks(),
    {
        Duration(self.0 - other.0)
    }
}

/// Adds the `cycles` method to the `u32` type.
pub trait U32Ext {
    /// Converts the `u32` value into a number of clock cycles.
    fn cycles(self) -> Duration;
}

impl U32Ext for u32 {
    fn cycles(self) -> (r: Duration)
        ensures
            r.ticks() == self,
    {
        Duration(self)
    }
}

/// The signed wrap-around difference `a - b`: how far `a` lies after `b` on
/// the 32-bit circle, negative when `a` lies before `b`.
pub open spec fn wrap_diff(a: Instant, b: Instant) -> i32 {
    i32_specs::wrapping_sub(a.ts(), b.ts())
}

/// Relies on `cortex_m::peripheral::DWT::cycle_count`: an atomic read of the
/// DWT cycle counter register. No two reads are related in any way this
/// library could state, so nothing is promised of the value.
#[verifier::external_body]
fn read_cycle_counter() -> u32 {
    cortex_m::peripheral::DWT::cycle_count()
}

impl Instant {
    /// The raw signed cycle count behind this instant.
    pub closed spec fn ts(self) -> i32 {
        self.0
    }

    /// The instant holding a given raw cycle count, at the spec level.
    pub closed spec fn artificial_spec(timestamp: i32) -> Instant {
        Instant(timestamp)
    }

    /// Builds an instant directly from a cycle count, bypassing the clock.
    pub fn artificial(timestamp: i32) -> (r: Self)
        ensures
            r.ts() == timestamp,
    {
        Instant(timestamp)
    }

    /// Returns an instant corresponding to "now": the current value of the
    /// DWT cycle counter.
    pub fn now() -> Self {
        Instant(read_cycle_counter() as i32)
    }

    /// Returns the amount of time elapsed since this instant was created:
    /// the wrapping span from this instant to the counter's current value.
    /// Meaningful while that span stays under `2^31`; the read value itself
    /// is unconstrained, so the computation on it carries the contract of
    /// `wrapping_duration_since`.
    pub fn elapsed(&self) -> Duration {
        let n = Instant::now();
        n.wrapping_duration_since(*self)
    }

    /// Returns the wrapping span from `earlier` to this instant: the
    /// unsigned wrap-around distance between the two cycle counts, defined
    /// for every pair. It agrees with `duration_since` whenever `earlier`
    /// does not lie after this instant.
    pub fn wrapping_duration_since(&self, earlier: Instant) -> (r: Duration)
        ensures
            wrap_diff(*self, earlier) >= 0 ==> r.ticks() == wrap_diff(*self, earlier),
            wrap_diff(*self, earlier) < 0 ==> r.ticks() == wrap_diff(*self, earlier)
                + 0x1_0000_0000,
    {
        let diff = self.0.wrapping_sub(earlier.0);
        if diff >= 0 {
            Duration(diff as u32)
        } else {
            Duration(((diff as i64) + 0x1_0000_0000i64) as u32)
        }
    }

    /// Returns the amount of time elapsed from another instant to this one.
    /// The other instant must not lie after this one under the wrap-around
    /// ordering.
    pub fn duration_since(&self, earlier: Instant) -> (r: Duration)
        requires
            wrap_diff(*self, earlier) >= 0,
        ensures
            r.ticks() == wrap_diff(*self, earlier),
    {
        let diff = self.0.wrapping_sub(earlier.0);
        Duration(diff as u32)
    }

    /// Moves this instant forward by `dur`, wrapping around the counter.
    pub fn add_assign(&mut self, dur: Duration)
        requires
            dur.ticks() < HALF_RANGE,
        ensures
            final(self).ts() == i32_specs::wrapping_add_unsigned(old(self).ts(), dur.ticks()),
    {
        self.0 = self.0.wrapping_add_unsigned(dur.0);
    }

    /// The instant `dur` cycles after this one, wrapping around the counter.
    pub fn add(self, dur: Duration) -> (r: Self)
        requires
            dur.ticks() < HALF_RANGE,
        ensures
            r.ts() == i32_specs::wrapping_add_unsigned(self.ts(), dur.ticks()),
    {
        let mut r = self;
        r.add_assign(dur);
        r
    }

    /// Moves this instant backward by `dur`, wrapping around the counter.
    pub fn sub_assign(&mut self, dur: Duration)
        requires
            dur.ticks() < HALF_RANGE,
        ensures
            final(self).ts() == i32_specs::wrapping_sub(old(self).ts(), dur.ticks() as i32),
    {
        self.0 = self.0.wrapping_sub(dur.0 as i32);
    }

    /// The instant `dur` cycles before this one, wrapping around the counter.
    pub fn sub(self, dur: Duration) -> (r: Self)
        requires
            dur.ticks() < HALF_RANGE,
        ensures
            r.ts() == i32_specs::wrapping_sub(self.ts(), dur.ticks() as i32),
    {
        let mut r = self;
        r.sub_assign(dur);
        r
    }

    /// The signed wrap-around distance from `base` to this instant: how far
    /// it lies after `base` on the 32-bit circle. Relative to a fixed
    /// `base`, it orders every instant of a live half-range window; the
    /// timer queue orders its entries by it.
    pub fn offset_from(&self, base: Instant) -> (r: i32)
        ensures
            r == wrap_diff(*self, base),
    {
        self.0.wrapping_sub(base.0)
    }
}

impl PartialOrd for Instant {
    /// Wrap-around-safe comparison: the sign of the signed difference.
    fn partial_cmp(&self, rhs: &Instant) -> (r: Option<core::cmp::Ordering>) {
        let diff = self.0.wrapping_sub(rhs.0);
        if diff < 0 {
            Some(core::cmp::Ordering::Less)
        } else if diff == 0 {
            Some(core::cmp::Ordering::Equal)
        } else {
            Some(core::cmp::Ordering::Greater)
        }
    }
}

impl vstd::std_specs::cmp::PartialOrdSpecImpl for Instant {
    open spec fn obeys_partial_cmp_spec() -> bool {
        true
    }

    open spec fn partial_cmp_spec(&self, rhs: &Instant) -> Option<core::cmp::Ordering> {
        if wrap_diff(*self, *rhs) < 0 {
            Some(core::cmp::Ordering::Less)
        } else if wrap_diff(*self, *rhs) == 0 {
            Some(core::cmp::Ordering::Equal)
        } else {
            Some(core::cmp::Ordering::Greater)
        }
    }
}

/// Wrap-safe time, round trip: for any instant `a` and any span `d` under
/// half the counter range, `(a + d) - a == d`; in particular `a + d` never
/// lies before `a`, so the subtraction is defined.
pub proof fn lemma_wrap_roundtrip(a: Instant, d: Duration)
    requires
        d.ticks() < HALF_RANGE,
    ensures
        wrap_diff(Instant::artificial_spec(i32_specs::wrapping_add_unsigned(a.ts(), d.ticks())), a) >= 0,
        wrap_diff(Instant::artificial_spec(i32_specs::wrapping_add_unsigned(a.ts(), d.ticks())), a) == d.ticks(),
{
}

/// Wrap-safe time, ordering: the comparison of two instants agrees with the
/// sign of their signed wrap-around difference.
pub proof fn lemma_cmp_is_signed_diff(a: Instant, b: Instant)
    ensures
        a.partial_cmp_spec(&b) == Some(core::cmp::Ordering::Less) <==> wrap_diff(a, b) < 0,
        a.partial_cmp_spec(&b) == Some(core::cmp::Ordering::Equal) <==> wrap_diff(a, b) == 0,
        a.partial_cmp_spec(&b) == Some(core::cmp::Ordering::Greater) <==> wrap_diff(a, b) > 0,
{
}

} // verus!
