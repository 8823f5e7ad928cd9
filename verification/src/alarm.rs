//! The alarm API and the compare-match arming decisions.
//!
//! Deadlines arrive in logical ticks and are scaled to hardware ticks by
//! the prescalar, rounding up so an alarm never fires early. Whenever an
//! insertion puts a new entry at the queue head, the hardware compare
//! match must be re-armed; the decision is returned to the platform
//! layer as a [`CompareAction`] instead of being written to the register
//! here.

use vstd::prelude::*;

use crate::clock::clock_read_value;
use crate::driver::AvrTc1EmbassyTimeDriver;
use crate::slots::AlarmOrWaker;
use crate::slots::COUNTER_SPAN;
use crate::slots::first_waker_match;
use crate::slots::le_prefix_len;
use crate::slots::lemma_first_waker_match;
use crate::slots::lemma_first_waker_match_same;
use crate::slots::lemma_le_prefix_len;
use crate::slots::lemma_le_prefix_len_same;

verus! {

/// What the platform layer must do to the compare-match hardware after a
/// core operation: program the compare register to `compare` and enable
/// the compare-match interrupt, disable that interrupt, or leave it as
/// it is.
#[derive(Clone, Copy, Debug, PartialEq, Eq, Structural)]
pub enum CompareAction {
    Arm { compare: u16 },
    Disable,
    Leave,
}

/// A deadline in logical ticks, scaled to hardware ticks: divided by the
/// prescalar, rounding up so the alarm never fires early.
pub open spec fn scale_ticks(t: u64, prescalar: u64) -> int
    recommends
        prescalar >= 1,
{
    if t % prescalar == 0 {
        (t / prescalar) as int
    } else {
        t / prescalar + 1
    }
}

/// Ticks to wait before the compare match: the remaining distance to the
/// deadline, but never less than the arming margin, so a deadline that
/// is too close (or already past) still lands strictly ahead of the
/// counter.
pub open spec fn arm_clamp(margin: u16, deadline: int, now: int) -> int {
    if deadline - now < margin {
        margin as int
    } else {
        deadline - now
    }
}

/// The compare register value: the current raw counter plus the clamped
/// wait, wrapping as the 16-bit counter does.
pub open spec fn compare_for(tcnt: u16, clamp: int) -> u16 {
    ((tcnt + clamp) % 0x10000) as u16
}

/// The arming decision after an insertion put `deadline` at the queue
/// head: program a compare match if the deadline is within the counter's
/// range, otherwise leave the hardware alone and let the periodic
/// overflow interrupt re-evaluate.
pub open spec fn arm_decision(margin: u16, deadline: int, now: int, tcnt: u16) -> CompareAction {
    if deadline - now < COUNTER_SPAN {
        CompareAction::Arm { compare: compare_for(tcnt, arm_clamp(margin, deadline, now)) }
    } else {
        CompareAction::Leave
    }
}

/// The arming decision at the end of an interrupt handler, for the first
/// entry that is not yet due: like [`arm_decision`], but a deadline
/// beyond the counter's range disables the compare match until an
/// overflow gets closer to it.
pub open spec fn rearm_decision(margin: u16, deadline: int, now: int, tcnt: u16) -> CompareAction {
    if deadline - now < COUNTER_SPAN {
        CompareAction::Arm { compare: compare_for(tcnt, arm_clamp(margin, deadline, now)) }
    } else {
        CompareAction::Disable
    }
}

/// Builds the compare value for a clamped wait, and shows it lands
/// strictly ahead of the counter: adding between 1 and 65535 modulo
/// 65536 never returns to the start.
fn compare_point(tcnt: u16, clamped: u16) -> (r: u16)
    requires
        clamped >= 1,
    ensures
        r == compare_for(tcnt, clamped as int),
        r != tcnt,
{
    let sum: u32 = tcnt as u32 + clamped as u32;
    let compare = (sum % 0x10000) as u16;
    proof {
        if sum < 0x10000 {
            assert(compare == tcnt + clamped);
        } else {
            assert(sum / 0x10000 == 1);
            assert(compare == sum - 0x10000);
            assert(compare < tcnt);
        }
    }
    compare
}

/// The arming decision after an insertion, executable form.
fn arm_compare(deadline: u64, now_ticks: u64, tcnt: u16, margin: u16) -> (r: CompareAction)
    requires
        margin >= 1,
    ensures
        r == arm_decision(margin, deadline as int, now_ticks as int, tcnt),
        r matches CompareAction::Arm { compare } ==> compare != tcnt,
{
    let clamped: u16;
    if deadline <= now_ticks {
        clamped = margin;
    } else {
        let rem = deadline - now_ticks;
        if rem >= COUNTER_SPAN {
            return CompareAction::Leave;
        }
        let rem16 = rem as u16;
        clamped = if rem16 < margin {
            margin
        } else {
            rem16
        };
    }
    let compare = compare_point(tcnt, clamped);
    CompareAction::Arm { compare }
}

/// The arming decision in an interrupt handler, executable form; the
/// head entry it is called for is never already due.
pub(crate) fn rearm_compare(deadline: u64, now_ticks: u64, tcnt: u16, margin: u16) -> (r: CompareAction)
    requires
        margin >= 1,
        now_ticks < deadline,
    ensures
        r == rearm_decision(margin, deadline as int, now_ticks as int, tcnt),
        r matches CompareAction::Arm { compare } ==> compare != tcnt,
{
    let rem = deadline - now_ticks;
    if rem >= COUNTER_SPAN {
        return CompareAction::Disable;
    }
    let rem16 = rem as u16;
    let clamped = if rem16 < margin {
        margin
    } else {
        rem16
    };
    let compare = compare_point(tcnt, clamped);
    CompareAction::Arm { compare }
}

/// Deadline scaling, executable form.
fn scale_deadline(t: u64, prescalar: u64) -> (r: u64)
    requires
        prescalar >= 1,
    ensures
        r == scale_ticks(t, prescalar),
{
    let q = t / prescalar;
    if t % prescalar == 0 {
        q
    } else {
        proof {
            // Rounding up cannot overflow: a nonzero remainder means the
            // prescalar is at least 2, so the quotient is at most half
            // the range.
            assert(prescalar >= 2);
            vstd::arithmetic::div_mod::lemma_fundamental_div_mod(t as int, prescalar as int);
            assert(2 * (q as int) <= (prescalar as int) * (q as int)) by (nonlinear_arith)
                requires
                    q >= 0,
                    prescalar >= 2,
            ;
        }
        q + 1
    }
}

impl AvrTc1EmbassyTimeDriver {
    /// If `id` just became the queue head, reads the clock and decides
    /// the compare-match update for its deadline; otherwise the hardware
    /// is left alone and the clock is not read.
    fn arm_if_head(&mut self, id: u8, deadline: u64, tcnt: u16) -> (r: CompareAction)
        requires
            old(self).wf(),
            old(self).clock_headroom(),
        ensures
            final(self).wf(),
            final(self).queue@ == old(self).queue@,
            final(self).queue_id == old(self).queue_id,
            final(self).queue_next == old(self).queue_next,
            final(self).free_order@ == old(self).free_order@,
            final(self).queue_order@ == old(self).queue_order@,
            final(self).ticks_elapsed == old(self).ticks_elapsed,
            final(self).same_config(*old(self)),
            old(self).queue_next == Some(id) ==> {
                let now = clock_read_value(
                    old(self).ticks_elapsed as int,
                    old(self).last_ticks_elapsed as int,
                    tcnt,
                );
                &&& final(self).last_ticks_elapsed == now
                &&& r == arm_decision(old(self).margin, deadline as int, now, tcnt)
                &&& (r matches CompareAction::Arm { compare } ==> compare != tcnt)
            },
            old(self).queue_next != Some(id) ==> r == CompareAction::Leave && *final(self) == *old(
                self,
            ),
    {
        let is_head = match self.queue_next {
            Some(h) => h == id,
            None => false,
        };
        if is_head {
            let now_ticks = self.time_now(tcnt);
            arm_compare(deadline, now_ticks, tcnt, self.margin)
        } else {
            CompareAction::Leave
        }
    }

    /// Sets (or moves) a live alarm's deadline: scales it to hardware
    /// ticks, unlinks the handle from the queue if it was already
    /// queued, splices it back in at its sorted position, and, if it
    /// became the new head, decides the compare-match update. Always
    /// reports the alarm as set.
    #[verifier::rlimit(60)]
    pub fn set_alarm(&mut self, alarm: u8, timestamp: u64, tcnt: u16) -> (r: (bool, CompareAction))
        requires
            old(self).wf(),
            old(self).live(alarm),
            old(self).clock_headroom(),
        ensures
            final(self).wf(),
            r.0 == true,
            final(self).live(alarm),
            final(self).free_order@ == old(self).free_order@,
            final(self).ticks_elapsed == old(self).ticks_elapsed,
            final(self).same_config(*old(self)),
            ({
                let pre = *old(self);
                let post = *final(self);
                let d = scale_ticks(timestamp, pre.prescalar);
                let q1 = pre.queue_order@.remove_value(alarm);
                &&& post.queue@.len() == pre.queue@.len()
                &&& post.queue@[alarm as int].at == d
                &&& post.queue@[alarm as int].v == pre.queue@[alarm as int].v
                &&& forall|k: int|
                    0 <= k < pre.queue@.len() && k != alarm as int ==> (#[trigger] post.queue@[k]).at
                        == pre.queue@[k].at && post.queue@[k].v == pre.queue@[k].v
                &&& post.queue_order@ == q1.insert(le_prefix_len(pre.queue@, q1, d as u64), alarm)
                &&& (post.queue_order@[0] == alarm ==> {
                    let now = clock_read_value(
                        pre.ticks_elapsed as int,
                        pre.last_ticks_elapsed as int,
                        tcnt,
                    );
                    &&& post.last_ticks_elapsed == now
                    &&& r.1 == arm_decision(pre.margin, d, now, tcnt)
                    &&& (r.1 matches CompareAction::Arm { compare } ==> compare != tcnt)
                })
                &&& (post.queue_order@[0] != alarm ==> r.1 == CompareAction::Leave
                    && post.last_ticks_elapsed == pre.last_ticks_elapsed)
            }),
    {
        let d = scale_deadline(timestamp, self.prescalar);
        self.unlink(alarm);
        let ghost mid1 = *self;
        let mut slot = self.queue[alarm as usize];
        slot.at = d;
        self.queue.set(alarm as usize, slot);
        proof {
            Self::lemma_wf_after_loose_slot_touch(mid1, *self, alarm);
        }
        let ghost mid2 = *self;
        self.insert_sorted(alarm);
        proof {
            let pre = *old(self);
            let q1 = pre.queue_order@.remove_value(alarm);
            assert(q1 == mid2.queue_order@);
            assert forall|k: int|
                0 <= k < q1.len() implies pre.queue@[(#[trigger] q1[k]) as int].at
                == mid2.queue@[q1[k] as int].at by {
                assert(q1.contains(q1[k]));
                assert(q1[k] != alarm);
            }
            lemma_le_prefix_len_same(pre.queue@, mid2.queue@, q1, d);
            assert(self.queue_order@ == q1.insert(le_prefix_len(pre.queue@, q1, d), alarm));
            lemma_le_prefix_len(pre.queue@, q1, d);
            q1.insert_ensures(le_prefix_len(pre.queue@, q1, d), alarm);
        }
        let action = self.arm_if_head(alarm, d, tcnt);
        (true, action)
    }

    /// Finds the first queued entry carrying the given wake handle, if
    /// any: the entry `schedule_wake` must coalesce with.
    fn find_waker(&self, waker: u64) -> (r: Option<u8>)
        requires
            self.wf(),
        ensures
            ({
                let m = first_waker_match(self.queue@, self.queue_order@, waker);
                match r {
                    Some(n) => m < self.queue_order@.len() && n == self.queue_order@[m],
                    None => m == self.queue_order@.len(),
                }
            }),
    {
        let ghost order = self.queue_order@;
        let mut cur: Option<u8> = self.queue_next;
        let ghost mut k: int = 0;
        loop
            invariant
                self.wf(),
                order == self.queue_order@,
                0 <= k <= order.len(),
                cur == (if k < order.len() {
                    Some(order[k])
                } else {
                    None::<u8>
                }),
                forall|i: int|
                    0 <= i < k ==> self.queue@[(#[trigger] order[i]) as int].v != (
                    AlarmOrWaker::Waker(waker)),
            ensures
                0 <= k <= order.len(),
                cur == (if k < order.len() {
                    Some(order[k])
                } else {
                    None::<u8>
                }),
                forall|i: int|
                    0 <= i < k ==> self.queue@[(#[trigger] order[i]) as int].v != (
                    AlarmOrWaker::Waker(waker)),
                k < order.len() ==> self.queue@[order[k] as int].v == (AlarmOrWaker::Waker(waker)),
            decreases order.len() - k,
        {
            let c = match cur {
                None => { break },
                Some(c) => c,
            };
            let hit = match self.queue[c as usize].v {
                AlarmOrWaker::Waker(w) => w == waker,
                _ => false,
            };
            if hit {
                break ;
            }
            cur = self.queue[c as usize].next;
            proof {
                k = k + 1;
            }
        }
        proof {
            lemma_first_waker_match(self.queue@, order, waker);
            let m = first_waker_match(self.queue@, order, waker);
            if m < k {
                assert(self.queue@[order[m] as int].v != (AlarmOrWaker::Waker(waker)));
            }
            if k < m {
                assert(self.queue@[order[k] as int].v != (AlarmOrWaker::Waker(waker)));
            }
            assert(k == m);
        }
        cur
    }

    /// Splices a filled, unlinked slot into the queue and decides the
    /// compare-match update if it became the head.
    #[verifier::rlimit(60)]
    fn link_and_arm(&mut self, id: u8, tcnt: u16) -> (r: CompareAction)
        requires
            old(self).wf(),
            old(self).clock_headroom(),
            (id as int) < old(self).queue.len(),
            !old(self).free_order@.contains(id),
            !old(self).queue_order@.contains(id),
        ensures
            final(self).wf(),
            ({
                let pre = *old(self);
                let post = *final(self);
                let d = pre.queue@[id as int].at;
                let n = le_prefix_len(pre.queue@, pre.queue_order@, d);
                &&& post.queue_order@ == pre.queue_order@.insert(n, id)
                &&& post.free_order@ == pre.free_order@
                &&& post.queue_id == pre.queue_id
                &&& post.ticks_elapsed == pre.ticks_elapsed
                &&& post.same_config(pre)
                &&& post.queue@.len() == pre.queue@.len()
                &&& (forall|k: int|
                    0 <= k < pre.queue@.len() ==> (#[trigger] post.queue@[k]).at
                        == pre.queue@[k].at && post.queue@[k].v == pre.queue@[k].v)
                &&& (post.queue_order@[0] == id ==> {
                    let now = clock_read_value(
                        pre.ticks_elapsed as int,
                        pre.last_ticks_elapsed as int,
                        tcnt,
                    );
                    &&& post.last_ticks_elapsed == now
                    &&& r == arm_decision(pre.margin, d as int, now, tcnt)
                    &&& (r matches CompareAction::Arm { compare } ==> compare != tcnt)
                })
                &&& (post.queue_order@[0] != id ==> r == CompareAction::Leave
                    && post.last_ticks_elapsed == pre.last_ticks_elapsed)
            }),
    {
        let d = self.queue[id as usize].at;
        self.insert_sorted(id);
        proof {
            let pre = *old(self);
            let n = le_prefix_len(pre.queue@, pre.queue_order@, d);
            lemma_le_prefix_len(pre.queue@, pre.queue_order@, d);
            pre.queue_order@.insert_ensures(n, id);
        }
        self.arm_if_head(id, d, tcnt)
    }

    /// Registers a wake-up for a task at an absolute deadline: allocates
    /// a slot, fills it, and links it into the queue — unless the task
    /// already has a wake-up queued, in which case only the earlier of
    /// the two deadlines survives, so one task never holds two slots.
    /// Returns the compare-match update to perform, or nothing exactly
    /// when the pool is exhausted — a pending wake cannot be deferred,
    /// so the caller must treat that as fatal.
    #[verifier::rlimit(100)]
    pub fn schedule_wake(&mut self, at: u64, waker: u64, tcnt: u16) -> (r: Option<CompareAction>)
        requires
            old(self).wf(),
            old(self).clock_headroom(),
        ensures
            final(self).wf(),
            r is None <==> old(self).free_order@.len() == 0,
            r is None ==> *final(self) == *old(self),
            final(self).same_config(*old(self)),
            final(self).ticks_elapsed == old(self).ticks_elapsed,
            ({
                let pre = *old(self);
                let post = *final(self);
                let d = scale_ticks(at, pre.prescalar);
                let h = pre.free_order@[0];
                let q0 = pre.queue_order@;
                let m = first_waker_match(pre.queue@, q0, waker);
                r is Some ==> {
                    &&& post.queue@.len() == pre.queue@.len()
                    &&& (m < q0.len() && pre.queue@[q0[m] as int].at <= d ==> {
                        // The queued wake-up is already at an earlier or
                        // equal deadline: keep it, recycle the new slot.
                        &&& r == Some(CompareAction::Leave)
                        &&& post.queue_order@ == q0
                        &&& post.free_order@ == pre.free_order@
                        &&& post.last_ticks_elapsed == pre.last_ticks_elapsed
                        &&& (forall|k: int|
                            0 <= k < pre.queue@.len() && k != h as int ==> (
                            #[trigger] post.queue@[k]).at == pre.queue@[k].at && post.queue@[k].v
                                == pre.queue@[k].v)
                    })
                    &&& (m < q0.len() && pre.queue@[q0[m] as int].at > d ==> {
                        // The queued wake-up is later: replace it.
                        let q1 = q0.remove(m);
                        let n = le_prefix_len(pre.queue@, q1, d as u64);
                        &&& post.queue_order@ == q1.insert(n, h)
                        &&& post.free_order@ == seq![q0[m]] + pre.free_order@.drop_first()
                        &&& post.queue@[h as int].at == d
                        &&& post.queue@[h as int].v == (AlarmOrWaker::Waker(waker))
                        &&& (forall|k: int|
                            0 <= k < pre.queue@.len() && k != h as int ==> (
                            #[trigger] post.queue@[k]).at == pre.queue@[k].at && post.queue@[k].v
                                == pre.queue@[k].v)
                        &&& wake_arm_cases(pre, post, r, h, d, tcnt)
                    })
                    &&& (m == q0.len() ==> {
                        // The woken task has no queued entry.
                        let n = le_prefix_len(pre.queue@, q0, d as u64);
                        &&& post.queue_order@ == q0.insert(n, h)
                        &&& post.free_order@ == pre.free_order@.drop_first()
                        &&& post.queue@[h as int].at == d
                        &&& post.queue@[h as int].v == (AlarmOrWaker::Waker(waker))
                        &&& (forall|k: int|
                            0 <= k < pre.queue@.len() && k != h as int ==> (
                            #[trigger] post.queue@[k]).at == pre.queue@[k].at && post.queue@[k].v
                                == pre.queue@[k].v)
                        &&& wake_arm_cases(pre, post, r, h, d, tcnt)
                    })
                }
            }),
    {
        let d = scale_deadline(at, self.prescalar);
        let id = match self.pop_queue() {
            None => { return None },
            Some(id) => id,
        };
        let ghost mid1 = *self;
        let mut slot = self.queue[id as usize];
        slot.next = None;
        slot.at = d;
        slot.v = AlarmOrWaker::Waker(waker);
        self.queue.set(id as usize, slot);
        proof {
            Self::lemma_wf_after_loose_slot_touch(mid1, *self, id);
            let pre = *old(self);
            let q0 = pre.queue_order@;
            assert forall|k: int|
                0 <= k < q0.len() implies pre.queue@[(#[trigger] q0[k]) as int].v
                == self.queue@[q0[k] as int].v by {
                assert(q0.contains(q0[k]));
            }
            lemma_first_waker_match_same(pre.queue@, self.queue@, q0, waker);
        }
        let ghost mid2 = *self;
        let dup = self.find_waker(waker);
        proof {
            let pre = *old(self);
            let q0 = pre.queue_order@;
            assert(mid2.queue_order@ == q0);
            assert(first_waker_match(mid2.queue@, q0, waker) == first_waker_match(
                pre.queue@,
                q0,
                waker,
            ));
        }
        let action: CompareAction;
        match dup {
            Some(dn) => {
                proof {
                    let pre = *old(self);
                    let q0 = pre.queue_order@;
                    let m = first_waker_match(pre.queue@, q0, waker);
                    lemma_first_waker_match(pre.queue@, q0, waker);
                    assert(0 <= m < q0.len() && dn == q0[m]);
                    assert(q0.contains(dn));
                    assert(self.queue@[dn as int].at == pre.queue@[dn as int].at);
                }
                if self.queue[dn as usize].at <= d {
                    // Keep the existing, earlier registration; the new
                    // slot goes straight back to the free list.
                    proof {
                        assert(!self.free_order@.contains(id));
                        assert(!self.queue_order@.contains(id));
                    }
                    self.push_queue(id);
                    proof {
                        assert(self.free_order@ =~= old(self).free_order@);
                    }
                    action = CompareAction::Leave;
                } else {
                    // The existing registration is later: drop it and
                    // link the new one.
                    self.unlink(dn);
                    proof {
                        let pre = *old(self);
                        let q0 = pre.queue_order@;
                        let m = first_waker_match(pre.queue@, q0, waker);
                        lemma_first_waker_match(pre.queue@, q0, waker);
                        q0.index_of_first_ensures(dn);
                        let j0 = q0.index_of_first(dn).unwrap();
                        assert(q0[j0] == dn);
                        assert(q0[m] == dn);
                        assert(j0 == m);
                        assert(self.queue_order@ == q0.remove(m));
                    }
                    self.push_queue(dn);
                    let ghost mid4 = *self;
                    proof {
                        assert(!self.free_order@.contains(id)) by {
                            assert(id == old(self).free_order@[0]);
                            if old(self).free_order@.drop_first().contains(id) {
                                let j = choose|j: int|
                                    0 <= j < old(self).free_order@.drop_first().len() && old(
                                        self,
                                    ).free_order@.drop_first()[j] == id;
                                assert(old(self).free_order@[j + 1] == id);
                            }
                        }
                    }
                    action = self.link_and_arm(id, tcnt);
                    proof {
                        let pre = *old(self);
                        let q0 = pre.queue_order@;
                        let m = first_waker_match(pre.queue@, q0, waker);
                        let q1 = q0.remove(m);
                        q0.remove_ensures(m);
                        assert forall|k: int|
                            0 <= k < q1.len() implies pre.queue@[(#[trigger] q1[k]) as int].at
                            == mid4.queue@[q1[k] as int].at by {
                            assert(q1.contains(q1[k]));
                            assert(q0.contains(q1[k]));
                        }
                        lemma_le_prefix_len_same(pre.queue@, mid4.queue@, q1, d);
                    }
                }
            },
            None => {
                action = self.link_and_arm(id, tcnt);
                proof {
                    let pre = *old(self);
                    let q0 = pre.queue_order@;
                    assert forall|k: int|
                        0 <= k < q0.len() implies pre.queue@[(#[trigger] q0[k]) as int].at
                        == mid2.queue@[q0[k] as int].at by {
                        assert(q0.contains(q0[k]));
                    }
                    lemma_le_prefix_len_same(pre.queue@, mid2.queue@, q0, d);
                }
            },
        }
        Some(action)
    }
}

/// The arming outcome `schedule_wake` owes when it linked a new entry:
/// if the entry became the queue head the clock was read and the
/// decision computed for its deadline, otherwise the hardware is left
/// alone.
pub open spec fn wake_arm_cases(
    pre: AvrTc1EmbassyTimeDriver,
    post: AvrTc1EmbassyTimeDriver,
    r: Option<CompareAction>,
    h: u8,
    d: int,
    tcnt: u16,
) -> bool {
    &&& (post.queue_order@[0] == h ==> {
        let now = clock_read_value(pre.ticks_elapsed as int, pre.last_ticks_elapsed as int, tcnt);
        &&& post.last_ticks_elapsed == now
        &&& r == Some(arm_decision(pre.margin, d, now, tcnt))
        &&& (arm_decision(pre.margin, d, now, tcnt) matches CompareAction::Arm { compare }
            ==> compare != tcnt)
    })
    &&& (post.queue_order@[0] != h ==> r == Some(CompareAction::Leave)
        && post.last_ticks_elapsed == pre.last_ticks_elapsed)
}

} // verus!
