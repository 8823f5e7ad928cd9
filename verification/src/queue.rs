//! Surgery on the deadline queue: sorted insertion, unlinking, and
//! draining the due prefix.
//!
//! All three walk the queue by index through the slots' `next` links; the
//! ghost order sequences are updated alongside and keep the links, the
//! sortedness and the one-list-membership invariant provable. The lemmas
//! here each re-establish one piece of the invariant after a splice or a
//! removal.

use vstd::prelude::*;

use crate::driver::AvrTc1EmbassyTimeDriver;
use crate::slots::AlarmOrWaker;
use crate::slots::LinkedList;
use crate::slots::deadlines_sorted;
use crate::slots::le_prefix_len;
use crate::slots::lemma_le_prefix_len;
use crate::slots::lemma_le_prefix_len_unique;
use crate::slots::links_ok;

verus! {

/// Membership in a spliced order: exactly the old members plus the new
/// one.
proof fn lemma_insert_contains(order: Seq<u8>, k: int, id: u8)
    requires
        0 <= k <= order.len(),
    ensures
        forall|x: u8|
            #[trigger] order.insert(k, id).contains(x) <==> (order.contains(x) || x == id),
{
    order.insert_ensures(k, id);
    assert forall|x: u8| #[trigger] order.insert(k, id).contains(x) implies (order.contains(x) || x
        == id) by {
        let j = choose|j: int| 0 <= j < order.insert(k, id).len() && order.insert(k, id)[j] == x;
        if j < k {
            assert(order[j] == x);
        } else if j > k {
            assert(order.insert(k, id)[(j - 1) + 1] == order[j - 1]);
        }
    }
    assert forall|x: u8| (order.contains(x) || x == id) implies #[trigger] order.insert(
        k,
        id,
    ).contains(x) by {
        if x == id {
            assert(order.insert(k, id)[k] == x);
        } else {
            let j = choose|j: int| 0 <= j < order.len() && order[j] == x;
            if j < k {
                assert(order.insert(k, id)[j] == x);
            } else {
                assert(order.insert(k, id)[j + 1] == x);
            }
        }
    }
}

/// A fresh element spliced into a duplicate-free order leaves it
/// duplicate-free.
proof fn lemma_insert_no_dup(order: Seq<u8>, k: int, id: u8)
    requires
        order.no_duplicates(),
        !order.contains(id),
        0 <= k <= order.len(),
    ensures
        order.insert(k, id).no_duplicates(),
{
    order.insert_ensures(k, id);
    let order2 = order.insert(k, id);
    assert forall|i: int, j: int| 0 <= i < j < order2.len() implies order2[i] != order2[j] by {
        let i0: int = if i < k {
            i
        } else {
            i - 1
        };
        let j0: int = if j < k {
            j
        } else {
            j - 1
        };
        if i == k {
            assert(order2[j] == order[j0]);
            assert(order.contains(order[j0]));
        } else if j == k {
            assert(order2[i] == order[i0]);
            assert(order.contains(order[i0]));
        } else {
            assert(order2[i] == order[i0]);
            assert(order2[j] == order[j0]);
        }
    }
}

/// The links re-established after splicing `id` in at position `k`: the
/// new slot points at the old entry `k`, the predecessor (or the head)
/// points at the new slot, and no other link moved.
proof fn lemma_links_after_splice(
    pool0: Seq<LinkedList>,
    pool2: Seq<LinkedList>,
    head0: Option<u8>,
    head2: Option<u8>,
    order: Seq<u8>,
    k: int,
    id: u8,
)
    requires
        links_ok(pool0, head0, order),
        order.no_duplicates(),
        !order.contains(id),
        (id as int) < pool0.len(),
        pool2.len() == pool0.len(),
        0 <= k <= order.len(),
        pool2[id as int].next == (if k < order.len() {
            Some(order[k])
        } else {
            None::<u8>
        }),
        k > 0 ==> pool2[order[k - 1] as int].next == Some(id),
        forall|j: int|
            0 <= j < pool0.len() && j != id as int && (k == 0 || j != order[k - 1] as int)
                ==> (#[trigger] pool2[j]).next == pool0[j].next,
        head2 == (if k == 0 {
            Some(id)
        } else {
            head0
        }),
    ensures
        links_ok(pool2, head2, order.insert(k, id)),
{
    order.insert_ensures(k, id);
    let order2 = order.insert(k, id);
    assert forall|i: int| 0 <= i < order.len() implies order[i] != id by {
        assert(order.contains(order[i]));
    }
    assert forall|m: int| 0 <= m < order2.len() implies {
        &&& (#[trigger] order2[m]) < pool2.len()
        &&& pool2[order2[m] as int].next == (if m + 1 < order2.len() {
            Some(order2[m + 1])
        } else {
            None::<u8>
        })
    } by {
        if m < k - 1 {
            assert(order2[m] == order[m]);
            assert(order2[m + 1] == order[m + 1]);
        } else if m == k - 1 {
            assert(order2[m] == order[m]);
            assert(order2[m + 1] == id);
        } else if m == k {
            assert(order2[m] == id);
            if m + 1 < order2.len() {
                assert(order2[(m) + 1] == order[m]);
            }
        } else {
            assert(order2[m] == order[m - 1]);
            if m - 1 != k - 1 {
                assert(pool2[order[m - 1] as int].next == pool0[order[m - 1] as int].next);
            }
            assert(order2[(m - 1) + 1] == order[m - 1]);
            if m + 1 < order2.len() {
                assert(order2[((m) - 1) + 1 + 1] == order[m]);
            }
        }
    }
    if k == 0 {
        assert(order2[0] == id);
    } else {
        assert(order2[0] == order[0]);
    }
}

/// Sortedness after splicing at the boundary `le_prefix_len` picks:
/// everything before is at most the new deadline, everything after is
/// strictly greater.
proof fn lemma_sorted_after_insert(pool2: Seq<LinkedList>, order: Seq<u8>, k: int, id: u8)
    requires
        deadlines_sorted(pool2, order),
        0 <= k <= order.len(),
        (id as int) < pool2.len(),
        forall|i: int|
            0 <= i < k ==> pool2[(#[trigger] order[i]) as int].at <= pool2[id as int].at,
        k < order.len() ==> pool2[order[k] as int].at > pool2[id as int].at,
    ensures
        deadlines_sorted(pool2, order.insert(k, id)),
{
    order.insert_ensures(k, id);
    let order2 = order.insert(k, id);
    let d = pool2[id as int].at;
    assert forall|i: int, j: int|
        #![trigger order2[i], order2[j]]
        0 <= i <= j < order2.len() implies pool2[order2[i] as int].at
        <= pool2[order2[j] as int].at by {
        let i0: int = if i < k {
            i
        } else {
            i - 1
        };
        let j0: int = if j < k {
            j
        } else {
            j - 1
        };
        if i != k {
            assert(order2[i] == order[i0]);
        }
        if j != k {
            assert(order2[j] == order[j0]);
        }
        if i == k && j != k {
            // The new entry against a later one: `order[j0]` sits at or
            // after the split, so its deadline exceeds `d`.
            assert(pool2[order[k] as int].at <= pool2[order[j0] as int].at);
        }
        if j == k && i != k {
            assert(pool2[order[i0] as int].at <= d);
        }
    }
}

/// Membership after removing position `k` from a duplicate-free order.
proof fn lemma_remove_contains(order: Seq<u8>, k: int)
    requires
        order.no_duplicates(),
        0 <= k < order.len(),
    ensures
        !order.remove(k).contains(order[k]),
        forall|x: u8| #[trigger] order.remove(k).contains(x) ==> order.contains(x),
        forall|x: u8| order.contains(x) && x != order[k] ==> #[trigger] order.remove(k).contains(x),
        order.remove(k).no_duplicates(),
{
    order.remove_ensures(k);
    let order2 = order.remove(k);
    assert forall|x: u8| #[trigger] order2.contains(x) implies order.contains(x) by {
        let j = choose|j: int| 0 <= j < order2.len() && order2[j] == x;
        if j < k {
            assert(order[j] == x);
        } else {
            assert(order2[j] == order[j + 1]);
        }
    }
    if order2.contains(order[k]) {
        let j = choose|j: int| 0 <= j < order2.len() && order2[j] == order[k];
        if j < k {
            assert(order[j] == order[k]);
        } else {
            assert(order[j + 1] == order[k]);
        }
    }
    assert forall|x: u8| order.contains(x) && x != order[k] implies #[trigger] order2.contains(
        x,
    ) by {
        let j = choose|j: int| 0 <= j < order.len() && order[j] == x;
        if j < k {
            assert(order2[j] == x);
        } else {
            assert(order2[j - 1] == order[(j - 1) + 1]);
        }
    }
    assert forall|i: int, j: int| 0 <= i < j < order2.len() implies order2[i] != order2[j] by {
        let i0: int = if i < k {
            i
        } else {
            i + 1
        };
        let j0: int = if j < k {
            j
        } else {
            j + 1
        };
        assert(order2[i] == order[i0]);
        assert(order2[j] == order[j0]);
    }
}

/// The links re-established after unlinking the entry at position `k`:
/// its predecessor (or the head) now skips it, and no other link moved.
proof fn lemma_links_after_remove(
    pool0: Seq<LinkedList>,
    pool2: Seq<LinkedList>,
    head0: Option<u8>,
    head2: Option<u8>,
    order: Seq<u8>,
    k: int,
)
    requires
        links_ok(pool0, head0, order),
        order.no_duplicates(),
        0 <= k < order.len(),
        pool2.len() == pool0.len(),
        k > 0 ==> pool2[order[k - 1] as int].next == (if k + 1 < order.len() {
            Some(order[k + 1])
        } else {
            None::<u8>
        }),
        forall|j: int|
            0 <= j < pool0.len() && (k == 0 || j != order[k - 1] as int) ==> (#[trigger] pool2[j]).next
                == pool0[j].next,
        head2 == (if k == 0 {
            if order.len() > 1 {
                Some(order[1])
            } else {
                None::<u8>
            }
        } else {
            head0
        }),
    ensures
        links_ok(pool2, head2, order.remove(k)),
{
    order.remove_ensures(k);
    let order2 = order.remove(k);
    assert forall|m: int| 0 <= m < order2.len() implies {
        &&& (#[trigger] order2[m]) < pool2.len()
        &&& pool2[order2[m] as int].next == (if m + 1 < order2.len() {
            Some(order2[m + 1])
        } else {
            None::<u8>
        })
    } by {
        let m0: int = if m < k {
            m
        } else {
            m + 1
        };
        assert(order2[m] == order[m0]);
        if m + 1 < order2.len() {
            let n0: int = if m + 1 < k {
                m + 1
            } else {
                m + 2
            };
            assert(order2[m + 1] == order[n0]);
        }
        if m0 != k - 1 {
            assert(pool2[order[m0] as int].next == pool0[order[m0] as int].next);
        }
    }
    if order2.len() > 0 {
        if k == 0 {
            assert(order2[0] == order[1]);
        } else {
            assert(order2[0] == order[0]);
        }
    }
}

/// Sortedness survives removing any entry.
proof fn lemma_sorted_after_remove(pool2: Seq<LinkedList>, order: Seq<u8>, k: int)
    requires
        deadlines_sorted(pool2, order),
        0 <= k < order.len(),
    ensures
        deadlines_sorted(pool2, order.remove(k)),
{
    order.remove_ensures(k);
    let order2 = order.remove(k);
    assert forall|i: int, j: int|
        #![trigger order2[i], order2[j]]
        0 <= i <= j < order2.len() implies pool2[order2[i] as int].at
        <= pool2[order2[j] as int].at by {
        let i0: int = if i < k {
            i
        } else {
            i + 1
        };
        let j0: int = if j < k {
            j
        } else {
            j + 1
        };
        assert(order2[i] == order[i0]);
        assert(order2[j] == order[j0]);
    }
}

impl AvrTc1EmbassyTimeDriver {
    /// Splices an unlinked slot into the deadline queue immediately
    /// before the first entry with a strictly greater deadline, so
    /// entries with equal deadlines keep their insertion order. O(N) in
    /// the pool capacity.
    #[verifier::rlimit(100)]
    pub(crate) fn insert_sorted(&mut self, id: u8)
        requires
            old(self).wf(),
            (id as int) < old(self).queue.len(),
            !old(self).free_order@.contains(id),
            !old(self).queue_order@.contains(id),
        ensures
            final(self).wf(),
            final(self).queue_order@ == old(self).queue_order@.insert(
                le_prefix_len(
                    old(self).queue@,
                    old(self).queue_order@,
                    old(self).queue@[id as int].at,
                ),
                id,
            ),
            final(self).free_order@ == old(self).free_order@,
            final(self).queue_id == old(self).queue_id,
            final(self).same_clock(*old(self)),
            final(self).same_config(*old(self)),
            forall|k: int|
                0 <= k < old(self).queue@.len() ==> (#[trigger] final(self).queue@[k]).at == old(
                    self,
                ).queue@[k].at && final(self).queue@[k].v == old(self).queue@[k].v,
            final(self).queue_next == (if le_prefix_len(
                old(self).queue@,
                old(self).queue_order@,
                old(self).queue@[id as int].at,
            ) == 0 {
                Some(id)
            } else {
                old(self).queue_next
            }),
    {
        let deadline = self.queue[id as usize].at;
        let ghost order = self.queue_order@;
        let mut prev: Option<u8> = None;
        let mut cur: Option<u8> = self.queue_next;
        let ghost mut k: int = 0;
        loop
            invariant
                *self == *old(self),
                old(self).wf(),
                (id as int) < old(self).queue.len(),
                order == old(self).queue_order@,
                deadline == old(self).queue@[id as int].at,
                0 <= k <= order.len(),
                cur == (if k < order.len() {
                    Some(order[k])
                } else {
                    None::<u8>
                }),
                match prev {
                    None => k == 0,
                    Some(p) => k > 0 && p == order[k - 1],
                },
                forall|i: int| 0 <= i < k ==> self.queue@[(#[trigger] order[i]) as int].at <= deadline,
            ensures
                *self == *old(self),
                0 <= k <= order.len(),
                cur == (if k < order.len() {
                    Some(order[k])
                } else {
                    None::<u8>
                }),
                match prev {
                    None => k == 0,
                    Some(p) => k > 0 && p == order[k - 1],
                },
                forall|i: int| 0 <= i < k ==> self.queue@[(#[trigger] order[i]) as int].at <= deadline,
                k < order.len() ==> self.queue@[order[k] as int].at > deadline,
            decreases order.len() - k,
        {
            let c = match cur {
                None => { break },
                Some(c) => c,
            };
            if self.queue[c as usize].at <= deadline {
                prev = Some(c);
                cur = self.queue[c as usize].next;
                proof {
                    k = k + 1;
                }
            } else {
                break ;
            }
        }
        proof {
            lemma_le_prefix_len_unique(old(self).queue@, order, deadline, k);
        }
        let mut slot = self.queue[id as usize];
        slot.next = cur;
        self.queue.set(id as usize, slot);
        match prev {
            None => {
                self.queue_next = Some(id);
            },
            Some(p) => {
                let mut pslot = self.queue[p as usize];
                pslot.next = Some(id);
                self.queue.set(p as usize, pslot);
                proof {
                    assert(order.contains(p));
                }
            },
        }
        proof {
            self.queue_order = Ghost(order.insert(k, id));
            let pool0 = old(self).queue@;
            let pool2 = self.queue@;
            lemma_links_after_splice(
                pool0,
                pool2,
                old(self).queue_next,
                self.queue_next,
                order,
                k,
                id,
            );
            lemma_insert_no_dup(order, k, id);
            lemma_insert_contains(order, k, id);
            assert(deadlines_sorted(pool2, order)) by {
                assert forall|i: int, j: int|
                    #![trigger order[i], order[j]]
                    0 <= i <= j < order.len() implies pool2[order[i] as int].at
                    <= pool2[order[j] as int].at by {
                    assert(pool0[order[i] as int].at <= pool0[order[j] as int].at);
                }
            }
            lemma_sorted_after_insert(pool2, order, k, id);
            assert forall|i: int| 0 <= i < self.free_order@.len() implies {
                &&& (#[trigger] self.free_order@[i]) < pool2.len()
                &&& pool2[self.free_order@[i] as int].next == (if i + 1 < self.free_order@.len() {
                    Some(self.free_order@[i + 1])
                } else {
                    None::<u8>
                })
            } by {
                let f = self.free_order@[i];
                assert(old(self).free_order@.contains(f));
                assert(f != id);
                if k > 0 {
                    assert(order.contains(order[k - 1]));
                    assert(!old(self).free_order@.contains(order[k - 1]));
                }
                assert(pool2[f as int].next == pool0[f as int].next);
            }
            assert forall|i: int| 0 <= i < self.free_order@.len() implies !self.queue_order@.contains(
                #[trigger] self.free_order@[i],
            ) by {
                assert(old(self).free_order@.contains(self.free_order@[i]));
            }
        }
    }
    /// Unlinks a slot from the deadline queue if it is queued, leaving
    /// everything else in place. `set_alarm` must do this before it
    /// re-inserts a handle that is already queued: re-inserting without
    /// unlinking would put one slot in the queue twice.
    #[verifier::rlimit(100)]
    pub(crate) fn unlink(&mut self, id: u8)
        requires
            old(self).wf(),
            (id as int) < old(self).queue.len(),
        ensures
            final(self).wf(),
            final(self).queue_order@ == old(self).queue_order@.remove_value(id),
            !final(self).queue_order@.contains(id),
            final(self).free_order@ == old(self).free_order@,
            final(self).queue_id == old(self).queue_id,
            final(self).same_clock(*old(self)),
            final(self).same_config(*old(self)),
            forall|k: int|
                0 <= k < old(self).queue@.len() ==> (#[trigger] final(self).queue@[k]).at == old(
                    self,
                ).queue@[k].at && final(self).queue@[k].v == old(self).queue@[k].v,
            final(self).queue@[id as int].next == old(self).queue@[id as int].next,
            !old(self).queue_order@.contains(id) ==> *final(self) == *old(self),
    {
        let ghost order = self.queue_order@;
        let mut prev: Option<u8> = None;
        let mut cur: Option<u8> = self.queue_next;
        let ghost mut k: int = 0;
        loop
            invariant
                *self == *old(self),
                old(self).wf(),
                (id as int) < old(self).queue.len(),
                order == old(self).queue_order@,
                0 <= k <= order.len(),
                cur == (if k < order.len() {
                    Some(order[k])
                } else {
                    None::<u8>
                }),
                match prev {
                    None => k == 0,
                    Some(p) => k > 0 && p == order[k - 1],
                },
                forall|i: int| 0 <= i < k ==> (#[trigger] order[i]) != id,
            ensures
                *self == *old(self),
                0 <= k <= order.len(),
                cur == (if k < order.len() {
                    Some(order[k])
                } else {
                    None::<u8>
                }),
                match prev {
                    None => k == 0,
                    Some(p) => k > 0 && p == order[k - 1],
                },
                forall|i: int| 0 <= i < k ==> (#[trigger] order[i]) != id,
                k < order.len() ==> order[k] == id,
            decreases order.len() - k,
        {
            let c = match cur {
                None => { break },
                Some(c) => c,
            };
            if c == id {
                break ;
            }
            prev = Some(c);
            cur = self.queue[c as usize].next;
            proof {
                k = k + 1;
            }
        }
        if cur.is_none() {
            // Not queued: nothing to do.
            proof {
                assert(!order.contains(id)) by {
                    if order.contains(id) {
                        let j = choose|j: int| 0 <= j < order.len() && order[j] == id;
                        assert(order[j] != id);
                    }
                }
                order.index_of_first_ensures(id);
            }
            return ;
        }
        // `id` sits at position `k`; make its predecessor (or the head)
        // skip it.
        let id_next = self.queue[id as usize].next;
        match prev {
            None => {
                self.queue_next = id_next;
            },
            Some(p) => {
                let mut pslot = self.queue[p as usize];
                pslot.next = id_next;
                self.queue.set(p as usize, pslot);
                proof {
                    assert(order.contains(p));
                }
            },
        }
        proof {
            self.queue_order = Ghost(order.remove(k));
            let pool0 = old(self).queue@;
            let pool2 = self.queue@;
            assert(pool0[order[k] as int].next == (if k + 1 < order.len() {
                Some(order[k + 1])
            } else {
                None::<u8>
            }));
            lemma_links_after_remove(
                pool0,
                pool2,
                old(self).queue_next,
                self.queue_next,
                order,
                k,
            );
            lemma_remove_contains(order, k);
            assert(deadlines_sorted(pool2, order)) by {
                assert forall|i: int, j: int|
                    #![trigger order[i], order[j]]
                    0 <= i <= j < order.len() implies pool2[order[i] as int].at
                    <= pool2[order[j] as int].at by {
                    assert(pool0[order[i] as int].at <= pool0[order[j] as int].at);
                }
            }
            lemma_sorted_after_remove(pool2, order, k);
            assert forall|i: int| 0 <= i < self.free_order@.len() implies {
                &&& (#[trigger] self.free_order@[i]) < pool2.len()
                &&& pool2[self.free_order@[i] as int].next == (if i + 1 < self.free_order@.len() {
                    Some(self.free_order@[i + 1])
                } else {
                    None::<u8>
                })
            } by {
                let f = self.free_order@[i];
                assert(old(self).free_order@.contains(f));
                if k > 0 {
                    assert(order.contains(order[k - 1]));
                    assert(!old(self).free_order@.contains(order[k - 1]));
                }
                assert(pool2[f as int].next == pool0[f as int].next);
            }
            assert forall|i: int| 0 <= i < self.free_order@.len() implies !self.queue_order@.contains(
                #[trigger] self.free_order@[i],
            ) by {
                assert(old(self).free_order@.contains(self.free_order@[i]));
            }
            // The position found is the first occurrence, so the result
            // is `remove_value`.
            order.index_of_first_ensures(id);
            let k0 = order.index_of_first(id).unwrap();
            if k0 < k {
                assert(order[k0] != id);
            }
            if k < k0 {
                assert(order[k] == id);
            }
            assert(k == k0);
        }
    }

    /// Pops every due entry off the queue head in deadline order,
    /// releases the slots back to the free list, and returns the actions
    /// in the order they must be dispatched: ascending deadline, ties in
    /// insertion order. Stops at the first entry that is not yet due.
    #[verifier::rlimit(100)]
    pub(crate) fn drain_due(&mut self, now_ticks: u64) -> (acts: Vec<AlarmOrWaker>)
        requires
            old(self).wf(),
        ensures
            final(self).wf(),
            ({
                let n = le_prefix_len(old(self).queue@, old(self).queue_order@, now_ticks);
                &&& acts@ == old(self).queue_order@.take(n).map_values(
                    |i: u8| old(self).queue@[i as int].v,
                )
                &&& final(self).queue_order@ == old(self).queue_order@.skip(n)
                &&& final(self).free_order@ == old(self).queue_order@.take(n).reverse() + old(
                    self,
                ).free_order@
            }),
            final(self).same_clock(*old(self)),
            final(self).same_config(*old(self)),
            forall|k: int|
                0 <= k < old(self).queue@.len() ==> (#[trigger] final(self).queue@[k]).at == old(
                    self,
                ).queue@[k].at && final(self).queue@[k].v == old(self).queue@[k].v,
            ({
                let post = *final(self);
                post.queue_order@.len() > 0 ==> post.queue@[post.queue_order@[0] as int].at
                    > now_ticks
            }),
    {
        let ghost order = self.queue_order@;
        let ghost free0 = self.free_order@;
        let mut acts: Vec<AlarmOrWaker> = Vec::new();
        let ghost mut j: int = 0;
        proof {
            assert(order.skip(0) =~= order);
            assert(order.take(0).reverse() + free0 =~= free0);
            assert(acts@ =~= order.take(0).map_values(|i: u8| old(self).queue@[i as int].v));
        }
        loop
            invariant
                self.wf(),
                old(self).wf(),
                order == old(self).queue_order@,
                free0 == old(self).free_order@,
                0 <= j <= order.len(),
                self.queue_order@ == order.skip(j),
                self.free_order@ == order.take(j).reverse() + free0,
                acts@ == order.take(j).map_values(|i: u8| old(self).queue@[i as int].v),
                forall|i: int|
                    0 <= i < j ==> old(self).queue@[(#[trigger] order[i]) as int].at <= now_ticks,
                self.queue@.len() == old(self).queue@.len(),
                forall|k: int|
                    0 <= k < old(self).queue@.len() ==> (#[trigger] self.queue@[k]).at == old(
                        self,
                    ).queue@[k].at && self.queue@[k].v == old(self).queue@[k].v,
                self.same_clock(*old(self)),
                self.same_config(*old(self)),
            ensures
                self.wf(),
                0 <= j <= order.len(),
                self.queue_order@ == order.skip(j),
                self.free_order@ == order.take(j).reverse() + free0,
                acts@ == order.take(j).map_values(|i: u8| old(self).queue@[i as int].v),
                forall|i: int|
                    0 <= i < j ==> old(self).queue@[(#[trigger] order[i]) as int].at <= now_ticks,
                j < order.len() ==> old(self).queue@[order[j] as int].at > now_ticks,
                self.queue@.len() == old(self).queue@.len(),
                forall|k: int|
                    0 <= k < old(self).queue@.len() ==> (#[trigger] self.queue@[k]).at == old(
                        self,
                    ).queue@[k].at && self.queue@[k].v == old(self).queue@[k].v,
                self.same_clock(*old(self)),
                self.same_config(*old(self)),
            decreases order.len() - j,
        {
            let h = match self.queue_next {
                None => {
                    proof {
                        assert(j == order.len());
                    }
                    break
                },
                Some(h) => h,
            };
            proof {
                assert(self.queue_order@[0] == h);
                assert(order.skip(j)[0] == order[j]);
            }
            if self.queue[h as usize].at > now_ticks {
                break ;
            }
            // Detach the due head.
            let ghost mid = *self;
            self.queue_next = self.queue[h as usize].next;
            proof {
                self.queue_order = Ghost(self.queue_order@.drop_first());
                let rest = self.queue_order@;
                assert(rest =~= order.skip(j + 1)) by {
                    assert forall|m: int| 0 <= m < rest.len() implies rest[m] == order.skip(j + 1)[m] by {
                        assert(rest[m] == order.skip(j)[m + 1]);
                    }
                }
                assert forall|m: int| 0 <= m < rest.len() implies {
                    &&& (#[trigger] rest[m]) < self.queue@.len()
                    &&& self.queue@[rest[m] as int].next == (if m + 1 < rest.len() {
                        Some(rest[m + 1])
                    } else {
                        None::<u8>
                    })
                } by {
                    assert(rest[m] == mid.queue_order@[m + 1]);
                    if m + 1 < rest.len() {
                        assert(rest[m + 1] == mid.queue_order@[m + 2]);
                    }
                }
                assert(self.queue_next == (if rest.len() > 0 {
                    Some(rest[0])
                } else {
                    None::<u8>
                })) by {
                    assert(mid.queue@[mid.queue_order@[0] as int].next == (if 1
                        < mid.queue_order@.len() {
                        Some(mid.queue_order@[1])
                    } else {
                        None::<u8>
                    }));
                }
                assert forall|a: int, b: int| 0 <= a < b < rest.len() implies rest[a] != rest[b] by {
                    assert(rest[a] == mid.queue_order@[a + 1]);
                    assert(rest[b] == mid.queue_order@[b + 1]);
                }
                assert forall|i: int| 0 <= i < self.free_order@.len() implies !rest.contains(
                    #[trigger] self.free_order@[i],
                ) by {
                    if rest.contains(self.free_order@[i]) {
                        let m = choose|m: int| 0 <= m < rest.len() && rest[m] == self.free_order@[i];
                        assert(mid.queue_order@[m + 1] == self.free_order@[i]);
                    }
                }
                assert forall|a: int, b: int|
                    #![trigger rest[a], rest[b]]
                    0 <= a <= b < rest.len() implies self.queue@[rest[a] as int].at
                    <= self.queue@[rest[b] as int].at by {
                    assert(rest[a] == mid.queue_order@[a + 1]);
                    assert(rest[b] == mid.queue_order@[b + 1]);
                }
            }
            let act = self.queue[h as usize].v;
            acts.push(act);
            proof {
                assert(!self.queue_order@.contains(h)) by {
                    if self.queue_order@.contains(h) {
                        let m = choose|m: int|
                            0 <= m < self.queue_order@.len() && self.queue_order@[m] == h;
                        assert(mid.queue_order@[m + 1] == h);
                        assert(mid.queue_order@[0] == h);
                    }
                }
                assert(!self.free_order@.contains(h)) by {
                    assert(mid.queue_order@[0] == h);
                    if self.free_order@.contains(h) {
                        assert(mid.free_order@.contains(h));
                    }
                }
            }
            self.push_queue(h);
            proof {
                let jn = j + 1;
                assert(order.take(jn) =~= order.take(j).push(order[j]));
                assert(order.take(jn).reverse() =~= seq![order[j]] + order.take(j).reverse());
                assert(self.free_order@ =~= order.take(jn).reverse() + free0);
                assert(acts@ =~= order.take(jn).map_values(|i: u8| old(self).queue@[i as int].v))
                    by {
                    assert(order.take(jn).map_values(|i: u8| old(self).queue@[i as int].v).len()
                        == jn);
                    assert forall|m: int| 0 <= m < jn implies order.take(jn).map_values(
                        |i: u8| old(self).queue@[i as int].v,
                    )[m] == acts@[m] by {
                        assert(order.take(jn)[m] == order[m]);
                        if m < j {
                            assert(order.take(j)[m] == order[m]);
                        }
                    }
                }
                j = jn;
            }
        }
        proof {
            lemma_le_prefix_len_unique(old(self).queue@, order, now_ticks, j);
            if self.queue_order@.len() > 0 {
                assert(self.queue_order@[0] == order[j]);
            }
        }
        acts
    }
}

} // verus!
