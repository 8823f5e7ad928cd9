//! The two interrupt entry points: counter overflow and compare match.
//!
//! Both advance the clock, drain every entry whose deadline has passed,
//! and hand the actions back for dispatch in exactly the order the queue
//! yields them: ascending deadline, ties in insertion order. They also
//! return the compare-match update for the first entry that is not yet
//! due. The platform layer wires these to the hardware vectors, runs
//! them with interrupts masked, performs the returned register update,
//! and dispatches the actions.

use vstd::prelude::*;

use crate::alarm::CompareAction;
use crate::alarm::rearm_compare;
use crate::alarm::rearm_decision;
use crate::clock::ClockEvent;
use crate::clock::clock_read_value;
use crate::clock::clock_step;
use crate::driver::AvrTc1EmbassyTimeDriver;
use crate::slots::AlarmOrWaker;
use crate::slots::COUNTER_SPAN;
use crate::slots::le_prefix_len;

verus! {

/// What both handlers owe once the clock has settled on `now`: the due
/// prefix of the queue is drained in order, its slots are back on the
/// free list, and the compare match is re-armed for the new head (or
/// disabled when nothing is queued or the head is beyond the counter's
/// range).
pub open spec fn drained_at(
    pre: AvrTc1EmbassyTimeDriver,
    post: AvrTc1EmbassyTimeDriver,
    r: (Vec<AlarmOrWaker>, CompareAction),
    now: int,
    tcnt: u16,
) -> bool {
    let n = le_prefix_len(pre.queue@, pre.queue_order@, now as u64);
    &&& r.0@ == pre.queue_order@.take(n).map_values(|i: u8| pre.queue@[i as int].v)
    &&& post.queue_order@ == pre.queue_order@.skip(n)
    &&& post.free_order@ == pre.queue_order@.take(n).reverse() + pre.free_order@
    &&& post.queue@.len() == pre.queue@.len()
    &&& (forall|k: int|
        0 <= k < pre.queue@.len() ==> (#[trigger] post.queue@[k]).at == pre.queue@[k].at
            && post.queue@[k].v == pre.queue@[k].v)
    &&& (post.queue_order@.len() == 0 ==> r.1 == CompareAction::Disable)
    &&& (post.queue_order@.len() > 0 ==> {
        let head_at = pre.queue@[post.queue_order@[0] as int].at;
        &&& head_at > now
        &&& r.1 == rearm_decision(pre.margin, head_at as int, now, tcnt)
        &&& (r.1 matches CompareAction::Arm { compare } ==> compare != tcnt)
    })
}

impl AvrTc1EmbassyTimeDriver {
    /// The overflow interrupt: account one full counter span, reset the
    /// watermark to match, and drain everything due at the coarse
    /// accumulator value.
    pub fn __tc1_ovf(&mut self, tcnt: u16) -> (r: (Vec<AlarmOrWaker>, CompareAction))
        requires
            old(self).wf(),
            old(self).clock_headroom(),
        ensures
            final(self).wf(),
            final(self).same_config(*old(self)),
            final(self).ticks_elapsed == old(self).ticks_elapsed + COUNTER_SPAN,
            final(self).last_ticks_elapsed == final(self).ticks_elapsed,
            final(self).clock_state() == clock_step(
                old(self).clock_state(),
                ClockEvent::Overflow,
            ),
            drained_at(
                *old(self),
                *final(self),
                r,
                old(self).ticks_elapsed + COUNTER_SPAN,
                tcnt,
            ),
    {
        self.ticks_elapsed = self.ticks_elapsed + COUNTER_SPAN;
        self.last_ticks_elapsed = self.ticks_elapsed;
        let now_ticks = self.ticks_elapsed;
        self.drain_and_rearm(now_ticks, tcnt)
    }

    /// The compare-match interrupt: read the precise clock and drain
    /// everything due at it.
    pub fn __tc1_compa(&mut self, tcnt: u16) -> (r: (Vec<AlarmOrWaker>, CompareAction))
        requires
            old(self).wf(),
            old(self).clock_headroom(),
        ensures
            final(self).wf(),
            final(self).same_config(*old(self)),
            final(self).ticks_elapsed == old(self).ticks_elapsed,
            ({
                let now = clock_read_value(
                    old(self).ticks_elapsed as int,
                    old(self).last_ticks_elapsed as int,
                    tcnt,
                );
                &&& final(self).last_ticks_elapsed == now
                &&& drained_at(*old(self), *final(self), r, now, tcnt)
            }),
    {
        let now_ticks = self.time_now(tcnt);
        self.drain_and_rearm(now_ticks, tcnt)
    }

    /// Shared tail of both handlers: drain the due prefix at `now_ticks`
    /// and decide the compare-match update for what remains.
    fn drain_and_rearm(&mut self, now_ticks: u64, tcnt: u16) -> (r: (
        Vec<AlarmOrWaker>,
        CompareAction,
    ))
        requires
            old(self).wf(),
        ensures
            final(self).wf(),
            final(self).same_clock(*old(self)),
            final(self).same_config(*old(self)),
            drained_at(*old(self), *final(self), r, now_ticks as int, tcnt),
    {
        let acts = self.drain_due(now_ticks);
        let action = match self.queue_next {
            None => {
                proof {
                    assert(self.queue_order@.len() == 0);
                }
                CompareAction::Disable
            },
            Some(h) => {
                proof {
                    assert(self.queue_order@[0] == h);
                    assert(self.queue@[h as int].at == old(self).queue@[h as int].at);
                }
                rearm_compare(self.queue[h as usize].at, now_ticks, tcnt, self.margin)
            },
        };
        (acts, action)
    }
}

} // verus!
