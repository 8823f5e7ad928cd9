use avr_tc1_time::AvrTc1EmbassyTimeDriver;
use avr_tc1_time::CompareAction;

fn fresh(capacity: usize) -> AvrTc1EmbassyTimeDriver {
    AvrTc1EmbassyTimeDriver::init_system_time(capacity, 1, 20)
}

#[test]
fn overflow_correction_is_monotonic_and_exact() {
    let mut d = fresh(2);
    let t1 = d.time_now(60000);
    assert_eq!(t1, 60000);
    // The counter wrapped from its maximum back to 10, but the overflow
    // interrupt has not been serviced yet: the raw sum would jump
    // backwards, so the read adds one counter span once.
    let t2 = d.time_now(10);
    assert_eq!(t2, 60000 + (65536 - 60000) + 10, "previous value plus elapsed delta");
    assert!(t2 >= t1);
    // Servicing the overflow afterwards keeps the clock consistent.
    let (acts, _) = d.__tc1_ovf(12);
    assert!(acts.is_empty());
    let t3 = d.time_now(20);
    assert_eq!(t3, 65536 + 20);
    assert!(t3 >= t2);
}

#[test]
fn reads_are_monotonic_across_interleavings() {
    // A hardware-consistent interleaving of reads and overflow
    // services: raw counter values follow real time, wraps are serviced
    // while the counter is still below the grace threshold.
    let mut d = fresh(2);
    let mut last = 0u64;
    let mut step = |r: u64| {
        assert!(r >= last, "clock ran backwards: {r} < {last}");
        last = r;
    };
    let r = d.time_now(100);
    step(r);
    let r = d.time_now(40000);
    step(r);
    // Wrap happened; a read races the overflow interrupt.
    let r = d.time_now(50);
    step(r);
    let (_, _) = d.__tc1_ovf(60);
    let r = d.time_now(70);
    step(r);
    let r = d.time_now(200);
    step(r);
    // Second wrap, serviced before any read this time.
    let (_, _) = d.__tc1_ovf(3);
    let r = d.time_now(5);
    step(r);
    let r = d.time_now(30000);
    step(r);
}

#[test]
fn now_scales_by_prescalar() {
    let mut d = AvrTc1EmbassyTimeDriver::init_system_time(2, 8, 20);
    assert_eq!(d.now(13), 13 * 8);
    assert_eq!(d.now(200), 200 * 8);
}

#[test]
fn margin_clamps_overdue_deadline_into_the_future() {
    let mut d = fresh(2);
    let h = d.allocate_alarm().unwrap();
    d.set_alarm_callback(h, 1, 0);
    // The deadline is already past at arm time: the compare value is
    // still a full margin ahead of the counter, never behind it.
    let (_, act) = d.set_alarm(h, 5, 100);
    assert_eq!(act, CompareAction::Arm { compare: 120 });
}

#[test]
fn margin_clamps_too_close_deadline() {
    let mut d = fresh(2);
    let h = d.allocate_alarm().unwrap();
    d.set_alarm_callback(h, 1, 0);
    // Only 5 ticks away, closer than the margin of 20.
    let (_, act) = d.set_alarm(h, 105, 100);
    assert_eq!(act, CompareAction::Arm { compare: 120 });
}

#[test]
fn margin_clamp_wraps_with_the_counter() {
    let mut d = fresh(2);
    let h = d.allocate_alarm().unwrap();
    d.set_alarm_callback(h, 1, 0);
    // Near the top of the counter the compare value wraps, and still
    // differs from the counter at arm time.
    let (_, act) = d.set_alarm(h, 65535, 65530);
    assert_eq!(act, CompareAction::Arm { compare: ((65530u32 + 20) % 65536) as u16 });
    match act {
        CompareAction::Arm { compare } => assert_ne!(compare, 65530),
        other => panic!("expected an arm action, got {other:?}"),
    }
}
