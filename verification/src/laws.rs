//! The global guarantees of the core, stated and proved in one place:
//! allocation never aliases a live handle, the deadline queue is always
//! sorted, and the clock never runs backwards over any hardware-
//! consistent interleaving of reads and overflow interrupts.

use vstd::prelude::*;

use crate::clock::ClockEvent;
use crate::clock::ClockState;
use crate::clock::clock_read_value;
use crate::clock::clock_step;
use crate::clock::event_ok;
use crate::driver::AvrTc1EmbassyTimeDriver;
use crate::slots::le_prefix_len;
use crate::slots::lemma_le_prefix_len;

verus! {

/// No aliasing: an allocation hands out the free-list head, and a live
/// handle is never on the free list, so the handle `allocate_alarm`
/// returns is distinct from every handle that is still live at the
/// call.
pub proof fn lemma_allocate_no_alias(s: AvrTc1EmbassyTimeDriver, h: u8)
    requires
        s.wf(),
        s.live(h),
        s.free_order@.len() > 0,
    ensures
        s.free_order@[0] != h,
{
    assert(s.free_order@.contains(s.free_order@[0]));
}

/// No aliasing between two allocations: the handles of two consecutive
/// `allocate_alarm` calls with no release in between — the second call
/// pops the free list the first call left — are distinct, because the
/// free list holds no index twice.
pub proof fn lemma_allocate_twice_distinct(
    s0: AvrTc1EmbassyTimeDriver,
    s1: AvrTc1EmbassyTimeDriver,
    h1: u8,
    h2: u8,
)
    requires
        s0.wf(),
        s0.free_order@.len() > 0,
        h1 == s0.free_order@[0],
        s1.free_order@ == s0.free_order@.drop_first(),
        s1.free_order@.len() > 0,
        h2 == s1.free_order@[0],
    ensures
        h1 != h2,
{
    assert(s1.free_order@[0] == s0.free_order@[1]);
}

/// Sort invariant: in every well-formed state — so after any insertion,
/// since every operation returns a well-formed state — walking the
/// deadline queue from its head yields a non-decreasing sequence of
/// deadlines.
pub proof fn lemma_queue_sorted(s: AvrTc1EmbassyTimeDriver, i: int, j: int)
    requires
        s.wf(),
        0 <= i <= j < s.queue_order@.len(),
    ensures
        s.queue@[s.queue_order@[i] as int].at <= s.queue@[s.queue_order@[j] as int].at,
{
}

/// The drained prefix is exactly what is due: in a well-formed state,
/// every entry inside the prefix the handlers drain at `now` has a
/// deadline at most `now`, and every entry beyond it has a deadline
/// strictly after `now` — nothing due is left behind, nothing fires
/// early.
pub proof fn lemma_drain_prefix_exact(s: AvrTc1EmbassyTimeDriver, now: u64, k: int)
    requires
        s.wf(),
        0 <= k < s.queue_order@.len(),
    ensures
        k < le_prefix_len(s.queue@, s.queue_order@, now) ==> s.queue@[s.queue_order@[k] as int].at
            <= now,
        k >= le_prefix_len(s.queue@, s.queue_order@, now) ==> s.queue@[s.queue_order@[k] as int].at
            > now,
{
    lemma_le_prefix_len(s.queue@, s.queue_order@, now);
    let n = le_prefix_len(s.queue@, s.queue_order@, now);
    if k >= n {
        // Sorted: everything at or beyond the first not-due entry is
        // not due either.
        assert(s.queue@[s.queue_order@[n] as int].at <= s.queue@[s.queue_order@[k] as int].at);
    }
}

/// The state after a whole sequence of events.
pub open spec fn run_clock(c: ClockState, events: Seq<ClockEvent>) -> ClockState
    decreases events.len(),
{
    if events.len() == 0 {
        c
    } else {
        clock_step(run_clock(c, events.drop_last()), events.last())
    }
}

/// Every event of the sequence is one the hardware could deliver in the
/// state it finds.
pub open spec fn trace_ok(c: ClockState, events: Seq<ClockEvent>) -> bool
    decreases events.len(),
{
    if events.len() == 0 {
        true
    } else {
        trace_ok(c, events.drop_last()) && event_ok(run_clock(c, events.drop_last()), events.last())
    }
}

/// The value a read returns in a given state.
pub open spec fn read_result(c: ClockState, e: ClockEvent) -> int
    recommends
        e is Read,
{
    clock_read_value(c.ticks_elapsed, c.last_ticks_elapsed, e->tcnt)
}

/// One hardware-consistent event never lowers the watermark; a read
/// returns at least the watermark it found and leaves it at its result.
pub proof fn lemma_step_watermark(c: ClockState, e: ClockEvent)
    requires
        event_ok(c, e),
    ensures
        clock_step(c, e).last_ticks_elapsed >= c.last_ticks_elapsed,
        e is Read ==> clock_step(c, e).last_ticks_elapsed == read_result(c, e),
{
}

/// A prefix of a hardware-consistent trace is hardware-consistent.
proof fn lemma_trace_ok_prefix(c: ClockState, events: Seq<ClockEvent>, i: int)
    requires
        trace_ok(c, events),
        0 <= i <= events.len(),
    ensures
        trace_ok(c, events.take(i)),
    decreases events.len(),
{
    if i < events.len() {
        assert(events.drop_last().take(i) =~= events.take(i));
        lemma_trace_ok_prefix(c, events.drop_last(), i);
    } else {
        assert(events.take(i) =~= events);
    }
}

/// The watermark never decreases along a hardware-consistent trace.
proof fn lemma_watermark_monotonic(c: ClockState, events: Seq<ClockEvent>, i: int)
    requires
        trace_ok(c, events),
        0 <= i <= events.len(),
    ensures
        run_clock(c, events.take(i)).last_ticks_elapsed <= run_clock(
            c,
            events,
        ).last_ticks_elapsed,
    decreases events.len(),
{
    if i < events.len() {
        assert(events.drop_last().take(i) =~= events.take(i));
        lemma_trace_ok_prefix(c, events, events.len() - 1);
        assert(events.take(events.len() - 1) =~= events.drop_last());
        lemma_watermark_monotonic(c, events.drop_last(), i);
        lemma_step_watermark(run_clock(c, events.drop_last()), events.last());
    } else {
        assert(events.take(i) =~= events);
    }
}

/// Monotonic clock: over any interleaving of reads and overflow
/// services whose events are `event_ok` — each raw counter reading
/// consistent with at most one pending overflow, each overflow service
/// finding the watermark within one span of the accumulator — the
/// values that successive reads return never decrease. The second
/// hypothesis is necessary: a service resets the watermark down to the
/// accumulator, and a read that had already wrap-corrected past that
/// point would otherwise stand above a later read.
pub proof fn lemma_now_monotonic(c0: ClockState, events: Seq<ClockEvent>, i: int, j: int)
    requires
        trace_ok(c0, events),
        0 <= i < j < events.len(),
        events[i] is Read,
        events[j] is Read,
    ensures
        read_result(run_clock(c0, events.take(i)), events[i]) <= read_result(
            run_clock(c0, events.take(j)),
            events[j],
        ),
{
    let before_i = run_clock(c0, events.take(i));
    let before_j = run_clock(c0, events.take(j));
    lemma_trace_ok_prefix(c0, events, j + 1);
    lemma_trace_ok_prefix(c0, events, j);
    lemma_trace_ok_prefix(c0, events, i + 1);
    lemma_trace_ok_prefix(c0, events, i);
    // The state after read `i` carries its result as the watermark.
    assert(events.take(i + 1).drop_last() =~= events.take(i));
    assert(events.take(i + 1).last() == events[i]);
    assert(run_clock(c0, events.take(i + 1)) == clock_step(before_i, events[i]));
    lemma_step_watermark(before_i, events[i]);
    // The watermark then never decreases up to read `j`.
    assert(events.take(j).take(i + 1) =~= events.take(i + 1));
    lemma_watermark_monotonic(c0, events.take(j), i + 1);
    // And read `j` returns at least the watermark it finds.
    assert(events.take(j + 1).drop_last() =~= events.take(j));
    assert(events.take(j + 1).last() == events[j]);
    assert(event_ok(before_j, events[j]));
    lemma_step_watermark(before_j, events[j]);
}

} // verus!
