use avr_tc1_time::AlarmOrWaker;
use avr_tc1_time::AvrTc1EmbassyTimeDriver;
use avr_tc1_time::CompareAction;

fn fresh(capacity: usize) -> AvrTc1EmbassyTimeDriver {
    AvrTc1EmbassyTimeDriver::init_system_time(capacity, 1, 20)
}

/// Walks the deadline queue through the slots' `next` links and returns
/// the deadlines from head to tail.
fn deadlines_from_head(d: &AvrTc1EmbassyTimeDriver) -> Vec<u64> {
    let mut out = Vec::new();
    let mut cur = d.queue_next;
    while let Some(i) = cur {
        out.push(d.queue[i as usize].at);
        cur = d.queue[i as usize].next;
    }
    out
}

#[test]
fn allocation_hands_out_each_slot_once() {
    let mut d = fresh(4);
    let a = d.allocate_alarm().unwrap();
    let b = d.allocate_alarm().unwrap();
    let c = d.allocate_alarm().unwrap();
    let e = d.allocate_alarm().unwrap();
    let mut handles = vec![a, b, c, e];
    handles.sort();
    handles.dedup();
    assert_eq!(handles.len(), 4, "live handles must all be distinct");
}

#[test]
fn allocation_returns_none_when_pool_exhausted() {
    let mut d = fresh(3);
    assert!(d.allocate_alarm().is_some());
    assert!(d.allocate_alarm().is_some());
    assert!(d.allocate_alarm().is_some());
    assert_eq!(d.allocate_alarm(), None);
}

#[test]
fn schedule_wake_returns_none_when_pool_exhausted() {
    let mut d = fresh(2);
    assert!(d.schedule_wake(10, 1, 0).is_some());
    assert!(d.schedule_wake(20, 2, 0).is_some());
    // The third concurrent wake cannot be deferred; the caller must
    // treat this as fatal.
    assert_eq!(d.schedule_wake(30, 3, 0), None);
}

#[test]
fn queue_walk_is_sorted_after_any_insert() {
    let mut d = fresh(6);
    let deadlines = [900u64, 15, 400, 15, 70000, 3];
    for (i, &t) in deadlines.iter().enumerate() {
        let h = d.allocate_alarm().unwrap();
        d.set_alarm_callback(h, 100 + i, 0);
        let (ok, _) = d.set_alarm(h, t, 0);
        assert!(ok);
        let walk = deadlines_from_head(&d);
        for w in walk.windows(2) {
            assert!(w[0] <= w[1], "queue walk must be non-decreasing: {walk:?}");
        }
    }
}

#[test]
fn tie_break_fires_in_insertion_order() {
    let mut d = fresh(4);
    // A, B, C, D with deadlines [5, 5, 10, 3].
    let ids = [(1usize, 5u64), (2, 5), (3, 10), (4, 3)];
    for &(tag, t) in ids.iter() {
        let h = d.allocate_alarm().unwrap();
        d.set_alarm_callback(h, tag, 0);
        d.set_alarm(h, t, 0);
    }
    let (acts, rearm) = d.__tc1_compa(10);
    let tags: Vec<usize> = acts
        .iter()
        .map(|a| match a {
            AlarmOrWaker::Alarm { callback, .. } => *callback,
            other => panic!("expected a callback action, got {other:?}"),
        })
        .collect();
    assert_eq!(tags, vec![4, 1, 2, 3], "must fire D(3), A(5), B(5), C(10)");
    assert_eq!(rearm, CompareAction::Disable);
}

#[test]
fn round_trip_fires_once_and_slot_is_reusable() {
    let mut d = fresh(2);
    let h = d.allocate_alarm().unwrap();
    d.set_alarm_callback(h, 7, 99);
    let (ok, act) = d.set_alarm(h, 1000, 0);
    assert!(ok);
    assert_eq!(act, CompareAction::Arm { compare: 1000 });
    // Advance the simulated counter to the deadline.
    let (acts, rearm) = d.__tc1_compa(1000);
    assert_eq!(acts, vec![AlarmOrWaker::Alarm { callback: 7, ctx: 99 }]);
    assert_eq!(rearm, CompareAction::Disable);
    // Firing exactly once: a later interrupt finds nothing due.
    let (acts2, _) = d.__tc1_compa(2000);
    assert!(acts2.is_empty());
    // The fired slot is back in the pool.
    let again = d.allocate_alarm();
    assert_eq!(again, Some(h));
    assert!(d.allocate_alarm().is_some());
    assert_eq!(d.allocate_alarm(), None);
}

#[test]
fn set_alarm_reschedule_moves_single_entry() {
    let mut d = fresh(3);
    let h = d.allocate_alarm().unwrap();
    d.set_alarm_callback(h, 1, 0);
    d.set_alarm(h, 500, 0);
    // Re-arming the same handle must move its single entry, not add a
    // second one.
    d.set_alarm(h, 40, 0);
    assert_eq!(deadlines_from_head(&d), vec![40]);
    let (acts, _) = d.__tc1_compa(100);
    assert_eq!(acts.len(), 1);
    let (acts2, _) = d.__tc1_compa(1000);
    assert!(acts2.is_empty(), "the old deadline must be gone");
}

#[test]
fn empty_action_is_reported_for_unarmed_deadline() {
    // A deadline set before any callback is attached drains as an
    // `Empty` action; dispatching it is the caller's fatal fault.
    let mut d = fresh(2);
    let h = d.allocate_alarm().unwrap();
    d.set_alarm(h, 5, 0);
    let (acts, _) = d.__tc1_compa(10);
    assert_eq!(acts, vec![AlarmOrWaker::Empty]);
}

#[test]
fn wake_coalesces_to_earliest_deadline_keep_existing() {
    let mut d = fresh(4);
    assert_eq!(d.schedule_wake(50, 7, 0), Some(CompareAction::Arm { compare: 50 }));
    // A later wake for the same task must not add a second entry.
    assert_eq!(d.schedule_wake(100, 7, 0), Some(CompareAction::Leave));
    assert_eq!(deadlines_from_head(&d), vec![50]);
    let (acts, _) = d.__tc1_compa(200);
    assert_eq!(acts, vec![AlarmOrWaker::Waker(7)]);
}

#[test]
fn wake_coalesces_to_earliest_deadline_replace_later() {
    let mut d = fresh(4);
    d.schedule_wake(100, 7, 0);
    d.schedule_wake(60, 9, 0);
    // An earlier wake for task 7 replaces its queued entry.
    let r = d.schedule_wake(50, 7, 0);
    assert_eq!(r, Some(CompareAction::Arm { compare: 50 }));
    assert_eq!(deadlines_from_head(&d), vec![50, 60]);
    let (acts, _) = d.__tc1_compa(200);
    assert_eq!(acts, vec![AlarmOrWaker::Waker(7), AlarmOrWaker::Waker(9)]);
    // Only one slot was held: two remain free afterwards plus both
    // drained ones.
    let mut live = 0;
    while d.allocate_alarm().is_some() {
        live += 1;
    }
    assert_eq!(live, 4);
}

#[test]
fn wake_same_deadline_keeps_single_entry() {
    let mut d = fresh(4);
    d.schedule_wake(80, 5, 0);
    assert_eq!(d.schedule_wake(80, 5, 0), Some(CompareAction::Leave));
    assert_eq!(deadlines_from_head(&d), vec![80]);
}

#[test]
fn prescalar_scales_deadlines_rounding_up() {
    let mut d = AvrTc1EmbassyTimeDriver::init_system_time(2, 8, 20);
    let h = d.allocate_alarm().unwrap();
    d.set_alarm_callback(h, 1, 0);
    d.set_alarm(h, 100, 0);
    // ceil(100 / 8) = 13 hardware ticks.
    assert_eq!(d.queue[h as usize].at, 13);
    // An exact multiple does not round.
    let h2 = d.allocate_alarm().unwrap();
    d.set_alarm_callback(h2, 2, 0);
    d.set_alarm(h2, 96, 0);
    assert_eq!(d.queue[h2 as usize].at, 12);
}

#[test]
fn far_deadline_leaves_compare_match_alone() {
    let mut d = fresh(2);
    let h = d.allocate_alarm().unwrap();
    d.set_alarm_callback(h, 1, 0);
    // Farther away than the counter's range: rely on the overflow
    // interrupt instead of programming a compare match.
    let (_, act) = d.set_alarm(h, 70000, 0);
    assert_eq!(act, CompareAction::Leave);
    // The overflow interrupt then finds it within range and arms it.
    let (acts, rearm) = d.__tc1_ovf(3);
    assert!(acts.is_empty());
    assert_eq!(rearm, CompareAction::Arm { compare: 3 + (70000 - 65536) as u16 });
}

#[test]
fn overflow_handler_drains_at_coarse_accumulator() {
    let mut d = fresh(2);
    let h = d.allocate_alarm().unwrap();
    d.set_alarm_callback(h, 9, 0);
    d.set_alarm(h, 65000, 0);
    // The overflow accounts a full span, which passes the deadline.
    let (acts, rearm) = d.__tc1_ovf(40);
    assert_eq!(acts, vec![AlarmOrWaker::Alarm { callback: 9, ctx: 0 }]);
    assert_eq!(rearm, CompareAction::Disable);
    assert_eq!(d.ticks_elapsed, 65536);
}

#[test]
fn non_head_insert_does_not_touch_hardware() {
    let mut d = fresh(3);
    let a = d.allocate_alarm().unwrap();
    d.set_alarm_callback(a, 1, 0);
    d.set_alarm(a, 100, 0);
    let b = d.allocate_alarm().unwrap();
    d.set_alarm_callback(b, 2, 0);
    // Behind the head: nothing to re-arm.
    let (_, act) = d.set_alarm(b, 200, 0);
    assert_eq!(act, CompareAction::Leave);
}
