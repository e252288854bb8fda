use cortex_m_rtfm::system::System;
use cortex_m_rtfm::time::{Instant, U32Ext};
use cortex_m_rtfm::timer_queue::SysTickAction;

// One task `foo` (tag 0) at priority 1 with capacity 4, one task `bar`
// (tag 1) at priority 2 with capacity 1: `foo` goes to dispatcher 0,
// `bar` to dispatcher 1.
fn two_level_system(baseline: Instant) -> System {
    System::new(&vec![4, 1], &vec![0, 1], &vec![4, 1], 0, baseline)
}

#[test]
fn interrupt_spawns_run_in_priority_then_fifo_order() {
    // UART0 at priority 2 spawns foo(0), foo(1), foo(2), foo(3), then bar
    let t0 = Instant::artificial(0);
    let mut sys = two_level_system(t0);
    for i in 0..4 {
        assert_eq!(sys.spawn(0, i, t0), Ok(()));
    }
    assert_eq!(sys.spawn(1, 100, t0), Ok(()));
    // capacity 4 exhausted: a fifth foo comes back to the caller
    assert_eq!(sys.spawn(0, 99, t0), Err(99));
    // both dispatchers were pended
    assert!(sys.claim_pend(1));
    assert!(sys.claim_pend(0));
    // the higher-priority dispatcher preempts first: bar runs
    let (task, _slot, input, _sched) = sys.dispatch_next(1).unwrap();
    assert_eq!((task, input), (1, 100));
    assert_eq!(sys.dispatch_next(1), None);
    // then the level-1 dispatcher drains foo in spawn order
    for i in 0..4 {
        let (task, _slot, input, _sched) = sys.dispatch_next(0).unwrap();
        assert_eq!((task, input), (0, i));
    }
    assert_eq!(sys.dispatch_next(0), None);
    // all slots returned: foo can be spawned again
    assert_eq!(sys.spawn(0, 7, t0), Ok(()));
}

#[test]
fn chained_spawns_cross_priority_levels() {
    // init spawns bar (priority 2); bar spawns foo (priority 1)
    let t0 = Instant::artificial(0);
    let mut sys = two_level_system(t0);
    assert_eq!(sys.spawn(1, 0, t0), Ok(()));
    let (task, _, _, _) = sys.dispatch_next(1).unwrap();
    assert_eq!(task, 1);
    // bar's body spawns foo
    assert_eq!(sys.spawn(0, 42, t0), Ok(()));
    let (task, _, input, _) = sys.dispatch_next(0).unwrap();
    assert_eq!((task, input), (0, 42));
}

#[test]
fn self_rescheduling_task_keeps_its_period() {
    // one task (tag 0) reschedules itself every 1_000_000 cycles; the
    // start lies just before the counter wraps, so the period crosses it
    let period = 1_000_000u32.cycles();
    let baseline = Instant::artificial(i32::MAX - 1_500_000);
    let mut sys = System::new(&vec![1], &vec![0], &vec![1], 1, baseline);
    let mut scheduled = baseline.add(period);
    assert_eq!(sys.schedule(0, scheduled, 0), Ok(()));
    let mut observed: Vec<Instant> = Vec::new();
    for _ in 0..4 {
        // nothing is due one cycle early
        assert_eq!(sys.systick_step(scheduled.sub(1.cycles())), None);
        match sys.reload(scheduled.sub(1.cycles())) {
            SysTickAction::Reload(c) => assert_eq!(c, 1),
            a => panic!("unexpected action {:?}", a),
        }
        // at the due instant the task is routed and dispatched
        assert_eq!(sys.systick_step(scheduled), Some((0, 0)));
        assert!(sys.claim_pend(0));
        let (task, _slot, _input, when) = sys.dispatch_next(0).unwrap();
        assert_eq!(task, 0);
        observed.push(when);
        // the body reschedules itself one period later
        scheduled = when.add(period);
        assert_eq!(sys.schedule(0, scheduled, 0), Ok(()));
    }
    // successive observed instants differ by exactly one period
    for w in observed.windows(2) {
        assert_eq!(w[1].duration_since(w[0]), period);
    }
}

#[test]
fn systick_routes_due_entries_in_order() {
    let t0 = Instant::artificial(0);
    let mut sys = System::new(&vec![2, 1], &vec![0, 0], &vec![3], 3, t0);
    assert_eq!(sys.schedule(0, t0.add(300.cycles()), 30), Ok(()));
    assert_eq!(sys.schedule(1, t0.add(100.cycles()), 10), Ok(()));
    assert_eq!(sys.schedule(0, t0.add(200.cycles()), 20), Ok(()));
    let now = t0.add(250.cycles());
    // two entries are due, earliest first; the third stays
    assert_eq!(sys.systick_step(now), Some((1, 0)));
    // the second due entry of task 0 sits in its second slot
    assert_eq!(sys.systick_step(now), Some((0, 1)));
    assert_eq!(sys.systick_step(now), None);
    match sys.reload(now) {
        SysTickAction::Reload(c) => assert_eq!(c, 50),
        a => panic!("unexpected action {:?}", a),
    }
    // the routed entries dispatch with their payloads and instants
    let (task, _, input, when) = sys.dispatch_next(0).unwrap();
    assert_eq!((task, input), (1, 10));
    assert_eq!(when.duration_since(t0), 100.cycles());
    let (task, _, input, when) = sys.dispatch_next(0).unwrap();
    assert_eq!((task, input), (0, 20));
    assert_eq!(when.duration_since(t0), 200.cycles());
}

#[test]
fn schedule_returns_payload_when_no_slot_is_free() {
    let t0 = Instant::artificial(0);
    let mut sys = System::new(&vec![1], &vec![0], &vec![1], 1, t0);
    assert_eq!(sys.schedule(0, t0.add(10.cycles()), 5), Ok(()));
    assert_eq!(sys.schedule(0, t0.add(20.cycles()), 6), Err(6));
}

#[test]
fn drain_returns_every_pending_invocation_in_order() {
    // both tasks share dispatcher 0; the queue is already non-empty when
    // more spawns interleave
    let t0 = Instant::artificial(0);
    let mut sys = System::new(&vec![2, 2], &vec![0, 0], &vec![4], 0, t0);
    assert_eq!(sys.spawn(0, 10, t0), Ok(()));
    assert_eq!(sys.spawn(1, 11, t0), Ok(()));
    assert_eq!(sys.spawn(0, 12, t0), Ok(()));
    assert_eq!(sys.spawn(1, 13, t0), Ok(()));
    let runs = sys.drain_level(0);
    let payloads: Vec<(u8, u32)> = runs.iter().map(|r| (r.0, r.2)).collect();
    assert_eq!(payloads, vec![(0, 10), (1, 11), (0, 12), (1, 13)]);
    assert_eq!(sys.dispatch_next(0), None);
}

#[test]
fn later_dequeues_keep_earlier_payloads() {
    // a spawn enqueued behind two pending ones still reads back exactly
    // its payload after the earlier ones are dispatched
    let t0 = Instant::artificial(0);
    let mut sys = System::new(&vec![3], &vec![0], &vec![3], 0, t0);
    assert_eq!(sys.spawn(0, 1, t0), Ok(()));
    assert_eq!(sys.spawn(0, 2, t0), Ok(()));
    assert_eq!(sys.spawn(0, 3, t0), Ok(()));
    let (_, _, p1, _) = sys.dispatch_next(0).unwrap();
    // a new spawn reuses the freed slot while entry 3 is still queued
    assert_eq!(sys.spawn(0, 4, t0), Ok(()));
    let (_, _, p2, _) = sys.dispatch_next(0).unwrap();
    let (_, _, p3, _) = sys.dispatch_next(0).unwrap();
    let (_, _, p4, _) = sys.dispatch_next(0).unwrap();
    assert_eq!((p1, p2, p3, p4), (1, 2, 3, 4));
}
