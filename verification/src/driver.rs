//! The driver state: the slot pool, the two list heads, the clock
//! accumulator, and the build-time parameters.
//!
//! The original target keeps this state in statics mutated with
//! interrupts masked; here it is one explicit value, and every operation
//! runs inside whatever mutual-exclusion section the platform layer
//! provides around it.

use vstd::prelude::*;

use crate::slots::AlarmOrWaker;
use crate::slots::LinkedList;
use crate::slots::links_ok;
use crate::slots::deadlines_sorted;

verus! {

/// The time driver: a fixed-capacity alarm pool, the free list and the
/// deadline queue threaded through it, and the widened tick clock.
pub struct AvrTc1EmbassyTimeDriver {
    /// The alarm slots; a slot's index is its stable handle. The length
    /// is the pool capacity, fixed at construction.
    pub queue: Vec<LinkedList>,
    /// Head of the LIFO free list.
    pub queue_id: Option<u8>,
    /// Head of the deadline-sorted queue.
    pub queue_next: Option<u8>,
    /// Accumulated full counter spans from serviced overflow interrupts.
    pub ticks_elapsed: u64,
    /// Monotonic watermark: the last value a clock read returned, used to
    /// detect a counter wrap that raced the overflow interrupt.
    pub last_ticks_elapsed: u64,
    /// Hardware ticks per logical tick; deadlines come in scaled by it.
    pub prescalar: u64,
    /// Minimum distance, in hardware ticks, at which a compare match may
    /// be armed ahead of the counter.
    pub margin: u16,
    /// Model of the free list: the slot indices from its head, in order.
    pub free_order: Ghost<Seq<u8>>,
    /// Model of the deadline queue: the slot indices from its head, in
    /// order.
    pub queue_order: Ghost<Seq<u8>>,
}

impl AvrTc1EmbassyTimeDriver {
    /// The structural invariant: both ghost orders describe their lists
    /// exactly, no slot sits in both or twice in one, the deadline queue
    /// is sorted, and the parameters are in range.
    pub open spec fn wf(self) -> bool {
        &&& self.queue.len() <= 256
        &&& links_ok(self.queue@, self.queue_id, self.free_order@)
        &&& links_ok(self.queue@, self.queue_next, self.queue_order@)
        &&& self.free_order@.no_duplicates()
        &&& self.queue_order@.no_duplicates()
        &&& forall|i: int|
            0 <= i < self.free_order@.len() ==> !self.queue_order@.contains(
                #[trigger] self.free_order@[i],
            )
        &&& deadlines_sorted(self.queue@, self.queue_order@)
        &&& self.prescalar >= 1
        &&& self.margin >= 1
    }

    /// A handle is live when it designates a slot inside the pool that is
    /// not on the free list: exactly the handles `allocate_alarm` has
    /// handed out (or `schedule_wake` has linked) and nothing has
    /// released yet.
    pub open spec fn live(self, h: u8) -> bool {
        &&& (h as int) < self.queue.len()
        &&& !self.free_order@.contains(h)
    }

    /// The deadline and the clock parameters a call leaves untouched.
    pub open spec fn same_clock(self, other: Self) -> bool {
        &&& self.ticks_elapsed == other.ticks_elapsed
        &&& self.last_ticks_elapsed == other.last_ticks_elapsed
    }

    /// The build-time configuration never changes after construction.
    pub open spec fn same_config(self, other: Self) -> bool {
        &&& self.prescalar == other.prescalar
        &&& self.margin == other.margin
        &&& self.queue.len() == other.queue.len()
    }

    /// Builds the initial state the platform initialization routine owes
    /// the core: every slot free (threaded in index order), both heads
    /// cleared but the free head at slot zero, and the clock zeroed.
    ///
    /// `capacity` is the pool size, `prescalar` the hardware ticks per
    /// logical tick, `margin` the minimum compare-match arming distance.
    pub fn init_system_time(capacity: usize, prescalar: u64, margin: u16) -> (d: Self)
        requires
            1 <= capacity <= 256,
            prescalar >= 1,
            margin >= 1,
        ensures
            d.wf(),
            d.queue.len() == capacity,
            d.free_order@.len() == capacity,
            forall|i: int| 0 <= i < capacity ==> (#[trigger] d.free_order@[i]) == i as u8,
            forall|i: int|
                0 <= i < capacity ==> (#[trigger] d.queue@[i]) == (LinkedList {
                    next: if i + 1 < capacity as int {
                        Some((i + 1) as u8)
                    } else {
                        None
                    },
                    at: 0,
                    v: AlarmOrWaker::Empty,
                }),
            d.queue_order@.len() == 0,
            d.ticks_elapsed == 0,
            d.last_ticks_elapsed == 0,
            d.prescalar == prescalar,
            d.margin == margin,
    {
        let mut pool: Vec<LinkedList> = Vec::new();
        let mut i: usize = 0;
        while i < capacity
            invariant
                i <= capacity,
                capacity <= 256,
                pool.len() == i,
                forall|k: int|
                    0 <= k < i ==> (#[trigger] pool@[k]) == (LinkedList {
                        next: if k + 1 < capacity as int {
                            Some((k + 1) as u8)
                        } else {
                            None
                        },
                        at: 0,
                        v: AlarmOrWaker::Empty,
                    }),
            decreases capacity - i,
        {
            let next = if i + 1 < capacity {
                Some((i + 1) as u8)
            } else {
                None
            };
            pool.push(LinkedList { next, at: 0, v: AlarmOrWaker::Empty });
            i = i + 1;
        }
        let d = AvrTc1EmbassyTimeDriver {
            queue: pool,
            queue_id: Some(0),
            queue_next: None,
            ticks_elapsed: 0,
            last_ticks_elapsed: 0,
            prescalar,
            margin,
            free_order: Ghost(Seq::new(capacity as nat, |k: int| k as u8)),
            queue_order: Ghost(Seq::empty()),
        };
        proof {
            assert forall|i: int, j: int|
                0 <= i < j < d.free_order@.len() implies d.free_order@[i] != d.free_order@[j] by {
                assert(d.free_order@[i] == i as u8);
                assert(d.free_order@[j] == j as u8);
            }
        }
        d
    }

    /// Rewriting a slot that sits on neither list cannot disturb either
    /// list's links, sortedness or membership.
    pub(crate) proof fn lemma_wf_after_loose_slot_touch(pre: Self, post: Self, id: u8)
        requires
            pre.wf(),
            (id as int) < pre.queue@.len(),
            !pre.free_order@.contains(id),
            !pre.queue_order@.contains(id),
            post.queue@.len() == pre.queue@.len(),
            forall|j: int|
                0 <= j < pre.queue@.len() && j != id as int ==> (#[trigger] post.queue@[j])
                    == pre.queue@[j],
            post.queue_id == pre.queue_id,
            post.queue_next == pre.queue_next,
            post.free_order@ == pre.free_order@,
            post.queue_order@ == pre.queue_order@,
            post.prescalar == pre.prescalar,
            post.margin == pre.margin,
        ensures
            post.wf(),
    {
        assert forall|k: int| 0 <= k < post.free_order@.len() implies {
            &&& (#[trigger] post.free_order@[k]) < post.queue@.len()
            &&& post.queue@[post.free_order@[k] as int].next == (if k + 1
                < post.free_order@.len() {
                Some(post.free_order@[k + 1])
            } else {
                None::<u8>
            })
        } by {
            assert(pre.free_order@.contains(pre.free_order@[k]));
        }
        assert forall|k: int| 0 <= k < post.queue_order@.len() implies {
            &&& (#[trigger] post.queue_order@[k]) < post.queue@.len()
            &&& post.queue@[post.queue_order@[k] as int].next == (if k + 1
                < post.queue_order@.len() {
                Some(post.queue_order@[k + 1])
            } else {
                None::<u8>
            })
        } by {
            assert(pre.queue_order@.contains(pre.queue_order@[k]));
        }
        assert forall|i: int, j: int|
            #![trigger post.queue_order@[i], post.queue_order@[j]]
            0 <= i <= j < post.queue_order@.len() implies post.queue@[post.queue_order@[i] as int].at
            <= post.queue@[post.queue_order@[j] as int].at by {
            assert(pre.queue_order@.contains(pre.queue_order@[i]));
            assert(pre.queue_order@.contains(pre.queue_order@[j]));
        }
    }

    /// Pops the free-list head, the O(1) allocation primitive. Returns
    /// nothing exactly when the pool is exhausted; the popped slot keeps
    /// its contents and now belongs to the caller alone.
    pub fn pop_queue(&mut self) -> (r: Option<u8>)
        requires
            old(self).wf(),
        ensures
            final(self).wf(),
            final(self).queue@ == old(self).queue@,
            final(self).queue_next == old(self).queue_next,
            final(self).queue_order@ == old(self).queue_order@,
            final(self).same_clock(*old(self)),
            final(self).same_config(*old(self)),
            r is None <==> old(self).free_order@.len() == 0,
            r is None ==> *final(self) == *old(self),
            r matches Some(h) ==> {
                &&& h == old(self).free_order@[0]
                &&& (h as int) < old(self).queue.len()
                &&& final(self).free_order@ == old(self).free_order@.drop_first()
                &&& !final(self).free_order@.contains(h)
                &&& !final(self).queue_order@.contains(h)
            },
    {
        match self.queue_id {
            None => None,
            Some(h) => {
                self.queue_id = self.queue[h as usize].next;
                proof {
                    self.free_order = Ghost(self.free_order@.drop_first());
                    if self.free_order@.len() > 0 {
                        assert(old(self).free_order@[1] == self.free_order@[0]);
                    }
                    assert forall|k: int| 0 <= k < self.free_order@.len() implies {
                        &&& (#[trigger] self.free_order@[k]) < self.queue@.len()
                        &&& self.queue@[self.free_order@[k] as int].next == (if k + 1
                            < self.free_order@.len() {
                            Some(self.free_order@[k + 1])
                        } else {
                            None::<u8>
                        })
                    } by {
                        assert(self.free_order@[k] == old(self).free_order@[k + 1]);
                        if k + 1 < self.free_order@.len() {
                            assert(self.free_order@[k + 1] == old(self).free_order@[k + 2]);
                        }
                    }
                    if self.free_order@.contains(h) {
                        let k = self.free_order@.index_of(h);
                        assert(old(self).free_order@[k + 1] == h);
                    }
                    assert(old(self).free_order@.contains(h));
                }
                Some(h)
            },
        }
    }

    /// Pushes a slot onto the free-list head, the O(1) release
    /// primitive. The caller must have unlinked the slot from the
    /// deadline queue already; releasing a slot that is still queued (or
    /// already free) would break the one-list-membership invariant, so
    /// the contract forbids it.
    pub fn push_queue(&mut self, id: u8)
        requires
            old(self).wf(),
            (id as int) < old(self).queue.len(),
            !old(self).free_order@.contains(id),
            !old(self).queue_order@.contains(id),
        ensures
            final(self).wf(),
            final(self).free_order@ == seq![id] + old(self).free_order@,
            final(self).queue_next == old(self).queue_next,
            final(self).queue_order@ == old(self).queue_order@,
            final(self).same_clock(*old(self)),
            final(self).same_config(*old(self)),
            final(self).queue@.len() == old(self).queue@.len(),
            final(self).queue@[id as int].at == old(self).queue@[id as int].at,
            final(self).queue@[id as int].v == old(self).queue@[id as int].v,
            forall|k: int|
                0 <= k < old(self).queue@.len() && k != id as int ==> final(self).queue@[k] == old(
                    self,
                ).queue@[k],
    {
        let mut slot = self.queue[id as usize];
        slot.next = self.queue_id;
        self.queue.set(id as usize, slot);
        self.queue_id = Some(id);
        proof {
            self.free_order = Ghost(seq![id] + old(self).free_order@);
            assert forall|k: int| 0 <= k < self.free_order@.len() implies {
                &&& (#[trigger] self.free_order@[k]) < self.queue@.len()
                &&& self.queue@[self.free_order@[k] as int].next == (if k + 1
                    < self.free_order@.len() {
                    Some(self.free_order@[k + 1])
                } else {
                    None::<u8>
                })
            } by {
                if k > 0 {
                    assert(self.free_order@[k] == old(self).free_order@[k - 1]);
                    assert(old(self).free_order@.contains(old(self).free_order@[k - 1]));
                    assert(self.free_order@[k] != id);
                    if k + 1 < self.free_order@.len() {
                        assert(self.free_order@[k + 1] == old(self).free_order@[k]);
                    }
                }
            }
            assert forall|k: int| 0 <= k < self.queue_order@.len() implies {
                &&& (#[trigger] self.queue_order@[k]) < self.queue@.len()
                &&& self.queue@[self.queue_order@[k] as int].next == (if k + 1
                    < self.queue_order@.len() {
                    Some(self.queue_order@[k + 1])
                } else {
                    None::<u8>
                })
            } by {
                assert(old(self).queue_order@.contains(self.queue_order@[k]));
                assert(self.queue_order@[k] != id);
            }
            assert forall|i: int| 0 <= i < self.free_order@.len() implies !self.queue_order@.contains(
                #[trigger] self.free_order@[i],
            ) by {
                if i > 0 {
                    assert(self.free_order@[i] == old(self).free_order@[i - 1]);
                    assert(old(self).free_order@.contains(old(self).free_order@[i - 1]));
                }
            }
            assert forall|i: int, j: int|
                #![trigger self.queue_order@[i], self.queue_order@[j]]
                0 <= i <= j < self.queue_order@.len() implies self.queue@[self.queue_order@[i] as int].at
                <= self.queue@[self.queue_order@[j] as int].at by {
                assert(old(self).queue_order@.contains(self.queue_order@[i]));
                assert(old(self).queue_order@.contains(self.queue_order@[j]));
            }
        }
    }

    /// Hands out a free slot as a fresh alarm handle and resets its
    /// contents, so a recycled slot never carries a stale action or
    /// deadline. Returns nothing exactly when the pool is exhausted, in
    /// which case nothing changes and the caller decides whether to back
    /// off.
    pub fn allocate_alarm(&mut self) -> (r: Option<u8>)
        requires
            old(self).wf(),
        ensures
            final(self).wf(),
            final(self).queue_next == old(self).queue_next,
            final(self).queue_order@ == old(self).queue_order@,
            final(self).same_clock(*old(self)),
            final(self).same_config(*old(self)),
            r is None <==> old(self).free_order@.len() == 0,
            r is None ==> *final(self) == *old(self),
            r matches Some(h) ==> {
                &&& h == old(self).free_order@[0]
                &&& final(self).live(h)
                &&& !old(self).live(h)
                &&& final(self).free_order@ == old(self).free_order@.drop_first()
                &&& final(self).queue@[h as int].v == AlarmOrWaker::Empty
                &&& final(self).queue@[h as int].at == 0
                &&& final(self).queue@[h as int].next is None
                &&& forall|k: int|
                    0 <= k < old(self).queue@.len() && k != h as int ==> final(self).queue@[k]
                        == old(self).queue@[k]
            },
    {
        match self.pop_queue() {
            None => None,
            Some(h) => {
                self.queue.set(
                    h as usize,
                    LinkedList { next: None, at: 0, v: AlarmOrWaker::Empty },
                );
                proof {
                    let posted = *self;
                    assert forall|k: int| 0 <= k < posted.free_order@.len() implies {
                        &&& (#[trigger] posted.free_order@[k]) < posted.queue@.len()
                        &&& posted.queue@[posted.free_order@[k] as int].next == (if k + 1
                            < posted.free_order@.len() {
                            Some(posted.free_order@[k + 1])
                        } else {
                            None::<u8>
                        })
                    } by {
                        assert(posted.free_order@.contains(posted.free_order@[k]));
                    }
                    assert forall|k: int| 0 <= k < posted.queue_order@.len() implies {
                        &&& (#[trigger] posted.queue_order@[k]) < posted.queue@.len()
                        &&& posted.queue@[posted.queue_order@[k] as int].next == (if k + 1
                            < posted.queue_order@.len() {
                            Some(posted.queue_order@[k + 1])
                        } else {
                            None::<u8>
                        })
                    } by {
                        assert(posted.queue_order@.contains(posted.queue_order@[k]));
                    }
                    assert forall|i: int, j: int|
                        #![trigger posted.queue_order@[i], posted.queue_order@[j]]
                        0 <= i <= j < posted.queue_order@.len() implies posted.queue@[posted.queue_order@[i] as int].at
                        <= posted.queue@[posted.queue_order@[j] as int].at by {
                        assert(posted.queue_order@.contains(posted.queue_order@[i]));
                        assert(posted.queue_order@.contains(posted.queue_order@[j]));
                    }
                }
                Some(h)
            },
        }
    }

    /// Attaches a callback action to a live alarm handle. Nothing is
    /// armed and the queues do not move; the deadline set later decides
    /// when the action fires.
    pub fn set_alarm_callback(&mut self, alarm: u8, callback: usize, ctx: usize)
        requires
            old(self).wf(),
            old(self).live(alarm),
        ensures
            final(self).wf(),
            final(self).live(alarm),
            final(self).queue_id == old(self).queue_id,
            final(self).queue_next == old(self).queue_next,
            final(self).free_order@ == old(self).free_order@,
            final(self).queue_order@ == old(self).queue_order@,
            final(self).same_clock(*old(self)),
            final(self).same_config(*old(self)),
            final(self).queue@[alarm as int].v == (AlarmOrWaker::Alarm { callback, ctx }),
            final(self).queue@[alarm as int].at == old(self).queue@[alarm as int].at,
            final(self).queue@[alarm as int].next == old(self).queue@[alarm as int].next,
            forall|k: int|
                0 <= k < old(self).queue@.len() && k != alarm as int ==> final(self).queue@[k]
                    == old(self).queue@[k],
    {
        let mut slot = self.queue[alarm as usize];
        slot.v = AlarmOrWaker::Alarm { callback, ctx };
        self.queue.set(alarm as usize, slot);
        proof {
            // Only the action changed; neither list reads it.
            let posted = *self;
            assert forall|k: int| 0 <= k < posted.free_order@.len() implies {
                &&& (#[trigger] posted.free_order@[k]) < posted.queue@.len()
                &&& posted.queue@[posted.free_order@[k] as int].next == (if k + 1
                    < posted.free_order@.len() {
                    Some(posted.free_order@[k + 1])
                } else {
                    None::<u8>
                })
            } by {}
            assert forall|i: int, j: int|
                #![trigger posted.queue_order@[i], posted.queue_order@[j]]
                0 <= i <= j < posted.queue_order@.len() implies posted.queue@[posted.queue_order@[i] as int].at
                <= posted.queue@[posted.queue_order@[j] as int].at by {}
        }
    }
}

} // verus!
