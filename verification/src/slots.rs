//! The alarm slots and the shape of the two intrusive lists threaded
//! through them.
//!
//! Every slot of the pool belongs to exactly one of two singly-linked
//! lists at any time after initialization: the LIFO free list, or the
//! deadline queue sorted by the `at` field. Both lists are threaded
//! through the `next` field; a list is described in specifications by the
//! sequence of slot indices it visits from its head.

use vstd::prelude::*;

verus! {

/// One full span of the 16-bit hardware counter: it overflows every
/// 65536 counts, and the overflow handler accounts exactly this much,
/// so the widened clock loses nothing across wraps.
pub const COUNTER_SPAN: u64 = 65536;

/// The action attached to an alarm slot: a raw callback with its opaque
/// context, a task wake handle, or nothing yet.
///
/// The core never interprets the callback or context words, and never
/// calls through them; it only stores and returns them. A wake handle is
/// likewise an opaque task identity: two registrations target the same
/// task exactly when their handles are equal.
#[derive(Clone, Copy, Debug, PartialEq, Eq, Structural)]
pub enum AlarmOrWaker {
    Alarm { callback: usize, ctx: usize },
    Waker(u64),
    Empty,
}

/// One slot of the alarm pool. The slot's index in the pool is its stable
/// handle.
#[derive(Clone, Copy, Debug, PartialEq, Eq, Structural)]
pub struct LinkedList {
    /// Link to the next slot of whichever list currently owns this slot.
    pub next: Option<u8>,
    /// Absolute deadline in ticks; meaningless while the slot is free.
    pub at: u64,
    /// The action to dispatch when the deadline passes.
    pub v: AlarmOrWaker,
}

/// `order` lists the slot indices of the singly-linked list starting at
/// `head` and threaded through `next`, in traversal order.
pub open spec fn links_ok(pool: Seq<LinkedList>, head: Option<u8>, order: Seq<u8>) -> bool {
    &&& match head {
        Some(h) => order.len() > 0 && order[0] == h,
        None => order.len() == 0,
    }
    &&& forall|k: int| 0 <= k < order.len() ==> {
        &&& (#[trigger] order[k]) < pool.len()
        &&& pool[order[k] as int].next == (if k + 1 < order.len() {
            Some(order[k + 1])
        } else {
            None::<u8>
        })
    }
}

/// The deadlines along `order` never decrease.
pub open spec fn deadlines_sorted(pool: Seq<LinkedList>, order: Seq<u8>) -> bool {
    forall|i: int, j: int|
        #![trigger order[i], order[j]]
        0 <= i <= j < order.len() ==> pool[order[i] as int].at <= pool[order[j] as int].at
}

/// Length of the longest prefix of `order` whose deadlines are at most
/// `deadline`. On a sorted queue this is both the number of entries due
/// at `deadline` and the position where a new entry with that deadline is
/// spliced in (after its equals, keeping ties in insertion order).
pub open spec fn le_prefix_len(pool: Seq<LinkedList>, order: Seq<u8>, deadline: u64) -> int
    decreases order.len(),
{
    if order.len() == 0 {
        0
    } else if pool[order[0] as int].at <= deadline {
        1 + le_prefix_len(pool, order.drop_first(), deadline)
    } else {
        0
    }
}

/// Position of the first entry of `order` whose action is a wake handle
/// equal to `w`; `order.len()` if there is none.
pub open spec fn first_waker_match(pool: Seq<LinkedList>, order: Seq<u8>, w: u64) -> int
    decreases order.len(),
{
    if order.len() == 0 {
        0
    } else if pool[order[0] as int].v == (AlarmOrWaker::Waker(w)) {
        0
    } else {
        1 + first_waker_match(pool, order.drop_first(), w)
    }
}

/// What `le_prefix_len` promises: it is a position in `order`, every
/// entry before it is due at `deadline`, and the entry at it (if any) is
/// not.
pub proof fn lemma_le_prefix_len(pool: Seq<LinkedList>, order: Seq<u8>, deadline: u64)
    ensures
        0 <= le_prefix_len(pool, order, deadline) <= order.len(),
        forall|i: int|
            0 <= i < le_prefix_len(pool, order, deadline) ==> pool[#[trigger] order[i] as int].at
                <= deadline,
        le_prefix_len(pool, order, deadline) < order.len() ==> pool[order[le_prefix_len(
            pool,
            order,
            deadline,
        )] as int].at > deadline,
    decreases order.len(),
{
    if order.len() > 0 && pool[order[0] as int].at <= deadline {
        lemma_le_prefix_len(pool, order.drop_first(), deadline);
        assert forall|i: int| 0 <= i < le_prefix_len(pool, order, deadline) implies pool[#[trigger] order[i] as int].at
            <= deadline by {
            if i > 0 {
                assert(order.drop_first()[i - 1] == order[i]);
            }
        }
    }
}

/// `le_prefix_len` is determined by its defining properties: any position
/// cut the same way is the prefix length.
pub proof fn lemma_le_prefix_len_unique(
    pool: Seq<LinkedList>,
    order: Seq<u8>,
    deadline: u64,
    k: int,
)
    requires
        0 <= k <= order.len(),
        forall|i: int| 0 <= i < k ==> pool[#[trigger] order[i] as int].at <= deadline,
        k < order.len() ==> pool[order[k] as int].at > deadline,
    ensures
        k == le_prefix_len(pool, order, deadline),
    decreases order.len(),
{
    if order.len() > 0 {
        if k == 0 {
            if pool[order[0] as int].at <= deadline {
                assert(false);
            }
        } else {
            assert(pool[order[0] as int].at <= deadline);
            assert forall|i: int| 0 <= i < k - 1 implies pool[#[trigger] order.drop_first()[i] as int].at
                <= deadline by {
                assert(order.drop_first()[i] == order[i + 1]);
            }
            if k - 1 < order.drop_first().len() {
                assert(order.drop_first()[k - 1] == order[k]);
            }
            lemma_le_prefix_len_unique(pool, order.drop_first(), deadline, k - 1);
        }
    }
}

/// `le_prefix_len` reads only the deadlines of the listed slots, so it is
/// unchanged between two pools that agree on them.
pub proof fn lemma_le_prefix_len_same(
    a: Seq<LinkedList>,
    b: Seq<LinkedList>,
    order: Seq<u8>,
    deadline: u64,
)
    requires
        forall|k: int|
            0 <= k < order.len() ==> a[(#[trigger] order[k]) as int].at == b[order[k] as int].at,
    ensures
        le_prefix_len(a, order, deadline) == le_prefix_len(b, order, deadline),
    decreases order.len(),
{
    if order.len() > 0 {
        assert forall|k: int| 0 <= k < order.drop_first().len() implies a[(#[trigger] order.drop_first()[k]) as int].at
            == b[order.drop_first()[k] as int].at by {
            assert(order.drop_first()[k] == order[k + 1]);
        }
        lemma_le_prefix_len_same(a, b, order.drop_first(), deadline);
    }
}

/// `first_waker_match` reads only the actions of the listed slots, so it
/// is unchanged between two pools that agree on them.
pub proof fn lemma_first_waker_match_same(
    a: Seq<LinkedList>,
    b: Seq<LinkedList>,
    order: Seq<u8>,
    w: u64,
)
    requires
        forall|k: int|
            0 <= k < order.len() ==> a[(#[trigger] order[k]) as int].v == b[order[k] as int].v,
    ensures
        first_waker_match(a, order, w) == first_waker_match(b, order, w),
    decreases order.len(),
{
    if order.len() > 0 {
        assert forall|k: int| 0 <= k < order.drop_first().len() implies a[(#[trigger] order.drop_first()[k]) as int].v
            == b[order.drop_first()[k] as int].v by {
            assert(order.drop_first()[k] == order[k + 1]);
        }
        lemma_first_waker_match_same(a, b, order.drop_first(), w);
    }
}

/// What `first_waker_match` promises: no entry before it carries the wake
/// handle, and the entry at it (if inside the list) does.
pub proof fn lemma_first_waker_match(pool: Seq<LinkedList>, order: Seq<u8>, w: u64)
    ensures
        0 <= first_waker_match(pool, order, w) <= order.len(),
        forall|i: int|
            0 <= i < first_waker_match(pool, order, w) ==> pool[#[trigger] order[i] as int].v != (
            AlarmOrWaker::Waker(w)),
        first_waker_match(pool, order, w) < order.len() ==> pool[order[first_waker_match(
            pool,
            order,
            w,
        )] as int].v == (AlarmOrWaker::Waker(w)),
    decreases order.len(),
{
    if order.len() > 0 && pool[order[0] as int].v != (AlarmOrWaker::Waker(w)) {
        lemma_first_waker_match(pool, order.drop_first(), w);
        assert forall|i: int| 0 <= i < first_waker_match(pool, order, w) implies pool[#[trigger] order[i] as int].v
            != (AlarmOrWaker::Waker(w)) by {
            if i > 0 {
                assert(order.drop_first()[i - 1] == order[i]);
            }
        }
        if first_waker_match(pool, order, w) < order.len() {
            assert(order.drop_first()[first_waker_match(pool, order.drop_first(), w)] == order[
                first_waker_match(pool, order, w)]);
        }
    }
}

} // verus!
