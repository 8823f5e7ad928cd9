//! The tick-extension clock: widening the live 16-bit counter and the
//! overflow accumulator into one 64-bit tick count, correcting for a
//! counter wrap that raced the overflow interrupt.
//!
//! A read combines the accumulator with the raw counter. If the counter
//! has just wrapped but the overflow interrupt has not been serviced yet,
//! that sum falls behind the last value already handed out; the read
//! detects this (raw counter near zero, sum below the watermark) and adds
//! one full counter span once. The watermark is updated to every value
//! returned, which makes reads monotonic for every interleaving of reads
//! and overflow interrupts that the hardware can produce.

use vstd::prelude::*;

use crate::driver::AvrTc1EmbassyTimeDriver;
use crate::slots::COUNTER_SPAN;

verus! {

/// Raw counter readings at or below this are treated as "just wrapped"
/// when the wrap-race correction is considered. The overflow interrupt is
/// assumed serviced before the counter climbs past it.
pub const OVERFLOW_GRACE: u16 = 100;

/// The value a clock read returns, given the accumulator, the watermark
/// and the raw counter: the plain sum, or one span more when the
/// wrap-race correction fires.
pub open spec fn clock_read_value(ticks_elapsed: int, last: int, tcnt: u16) -> int {
    if tcnt <= OVERFLOW_GRACE && ticks_elapsed + tcnt < last {
        ticks_elapsed + tcnt + COUNTER_SPAN
    } else {
        ticks_elapsed + tcnt
    }
}

/// A raw counter reading the hardware can actually deliver in a given
/// clock state: the watermark is at most one unserviced span ahead of the
/// sum, and a reading past the grace threshold means no overflow is
/// pending, so the sum has caught the watermark up.
pub open spec fn reading_consistent(ticks_elapsed: int, last: int, tcnt: u16) -> bool {
    &&& last <= ticks_elapsed + tcnt + COUNTER_SPAN
    &&& tcnt > OVERFLOW_GRACE ==> ticks_elapsed + tcnt >= last
}

/// One event of the clock's environment: a read handing in the raw
/// counter, or the service of an overflow interrupt.
pub enum ClockEvent {
    Read { tcnt: u16 },
    Overflow,
}

/// The clock portion of the driver state, as the mathematical machine
/// the two exec operations implement: `time_now` performs `Read` (its
/// result is the new watermark), `__tc1_ovf` performs `Overflow`.
pub struct ClockState {
    pub ticks_elapsed: int,
    pub last_ticks_elapsed: int,
}

impl AvrTc1EmbassyTimeDriver {
    /// The clock portion of this state, for holding the exec operations
    /// to the model.
    pub open spec fn clock_state(self) -> ClockState {
        ClockState {
            ticks_elapsed: self.ticks_elapsed as int,
            last_ticks_elapsed: self.last_ticks_elapsed as int,
        }
    }
}

/// What one event does to the clock state.
pub open spec fn clock_step(c: ClockState, e: ClockEvent) -> ClockState {
    match e {
        ClockEvent::Read { tcnt } => ClockState {
            ticks_elapsed: c.ticks_elapsed,
            last_ticks_elapsed: clock_read_value(c.ticks_elapsed, c.last_ticks_elapsed, tcnt),
        },
        ClockEvent::Overflow => ClockState {
            ticks_elapsed: c.ticks_elapsed + COUNTER_SPAN,
            last_ticks_elapsed: c.ticks_elapsed + COUNTER_SPAN,
        },
    }
}

/// An event the hardware can deliver in a given state. A read's raw
/// counter must be consistent with at most one pending overflow; an
/// overflow service must find the watermark at most one span ahead of
/// the accumulator, so that accounting the span catches it up. That
/// second condition is not implied by prompt servicing alone: a read
/// that already applied the wrap correction for the very overflow being
/// serviced leaves the watermark at the accumulator plus the raw
/// counter plus a span, ahead of where the service resets it, and the
/// next read racing a further wrap can then fall short of the corrected
/// value by up to the grace threshold.
pub open spec fn event_ok(c: ClockState, e: ClockEvent) -> bool {
    match e {
        ClockEvent::Read { tcnt } => reading_consistent(
            c.ticks_elapsed,
            c.last_ticks_elapsed,
            tcnt,
        ),
        ClockEvent::Overflow => c.last_ticks_elapsed <= c.ticks_elapsed + COUNTER_SPAN,
    }
}

impl AvrTc1EmbassyTimeDriver {
    /// Headroom so that widening arithmetic cannot overflow: the
    /// accumulator stays far enough from the top of `u64` for one raw
    /// counter plus one correction span.
    pub open spec fn clock_headroom(self) -> bool {
        self.ticks_elapsed + 2 * COUNTER_SPAN <= u64::MAX
    }

    /// One clock read, taking the raw hardware counter as read inside the
    /// caller's critical section. Returns the widened tick count and
    /// moves the watermark up to it.
    ///
    /// For a reading the hardware can deliver (`reading_consistent`) the
    /// result never falls below the watermark, i.e. below any value an
    /// earlier read returned.
    pub fn time_now(&mut self, tcnt: u16) -> (r: u64)
        requires
            old(self).clock_headroom(),
        ensures
            final(self).clock_state() == clock_step(
                old(self).clock_state(),
                ClockEvent::Read { tcnt },
            ),
            r == clock_read_value(
                old(self).ticks_elapsed as int,
                old(self).last_ticks_elapsed as int,
                tcnt,
            ),
            final(self).last_ticks_elapsed == r,
            final(self).ticks_elapsed == old(self).ticks_elapsed,
            final(self).queue@ == old(self).queue@,
            final(self).queue_id == old(self).queue_id,
            final(self).queue_next == old(self).queue_next,
            final(self).free_order@ == old(self).free_order@,
            final(self).queue_order@ == old(self).queue_order@,
            final(self).same_config(*old(self)),
            reading_consistent(
                old(self).ticks_elapsed as int,
                old(self).last_ticks_elapsed as int,
                tcnt,
            ) ==> r >= old(self).last_ticks_elapsed,
            old(self).ticks_elapsed + tcnt <= r <= old(self).ticks_elapsed + tcnt + COUNTER_SPAN,
    {
        let mut ticks: u64 = self.ticks_elapsed + tcnt as u64;
        if tcnt <= OVERFLOW_GRACE && ticks < self.last_ticks_elapsed {
            ticks = ticks + COUNTER_SPAN;
        }
        self.last_ticks_elapsed = ticks;
        ticks
    }

    /// The public clock: the widened tick count scaled back to logical
    /// ticks. Monotonic exactly as `time_now` is.
    pub fn now(&mut self, tcnt: u16) -> (r: u64)
        requires
            old(self).wf(),
            old(self).clock_headroom(),
            (old(self).ticks_elapsed + 2 * COUNTER_SPAN) * old(self).prescalar <= u64::MAX,
        ensures
            final(self).wf(),
            r == clock_read_value(
                old(self).ticks_elapsed as int,
                old(self).last_ticks_elapsed as int,
                tcnt,
            ) * old(self).prescalar,
            final(self).last_ticks_elapsed * final(self).prescalar == r,
            final(self).ticks_elapsed == old(self).ticks_elapsed,
            final(self).queue@ == old(self).queue@,
            final(self).queue_id == old(self).queue_id,
            final(self).queue_next == old(self).queue_next,
            final(self).free_order@ == old(self).free_order@,
            final(self).queue_order@ == old(self).queue_order@,
            final(self).same_config(*old(self)),
            reading_consistent(
                old(self).ticks_elapsed as int,
                old(self).last_ticks_elapsed as int,
                tcnt,
            ) ==> r >= old(self).last_ticks_elapsed * old(self).prescalar,
    {
        let ticks = self.time_now(tcnt);
        proof {
            let t = ticks as int;
            let bound = old(self).ticks_elapsed + 2 * COUNTER_SPAN;
            let p = old(self).prescalar as int;
            assert(t <= bound);
            assert(t * p <= bound * p) by (nonlinear_arith)
                requires t <= bound, p >= 0;
            let last0 = old(self).last_ticks_elapsed as int;
            if reading_consistent(old(self).ticks_elapsed as int, last0, tcnt) {
                assert(last0 * p <= t * p) by (nonlinear_arith)
                    requires last0 <= t, p >= 0;
            }
        }
        ticks * self.prescalar
    }
}

} // verus!
