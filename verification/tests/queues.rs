use cortex_m_rtfm::fifo::Fifo;
use cortex_m_rtfm::srp::{logical2hw, MaskAction, SrpContext};
use cortex_m_rtfm::system::round_capacity;
use cortex_m_rtfm::time::{Instant, U32Ext};
use cortex_m_rtfm::timer_queue::{NotReady, SysTickAction, TimerQueue, SYSTICK_MAX};

#[test]
fn fifo_roundtrip_and_order() {
    let mut q: Fifo<u8> = Fifo::new(2);
    assert!(q.is_empty());
    assert_eq!(q.dequeue(), None);
    assert_eq!(q.enqueue(7), Ok(()));
    assert_eq!(q.enqueue(9), Ok(()));
    // full queue hands the element back
    assert_eq!(q.enqueue(11), Err(11));
    assert_eq!(q.len(), 2);
    // first in, first out
    assert_eq!(q.dequeue(), Some(7));
    assert_eq!(q.dequeue(), Some(9));
    assert_eq!(q.dequeue(), None);
}

fn entry(ts: i32, task: u8, index: u8) -> NotReady {
    NotReady { instant: Instant::artificial(ts), task, index }
}

#[test]
fn timer_queue_pops_in_due_order() {
    let base = Instant::artificial(0);
    let mut tq = TimerQueue::new(4, base);
    assert_eq!(tq.enqueue(entry(300, 0, 0)), Ok(()));
    assert_eq!(tq.enqueue(entry(100, 1, 0)), Ok(()));
    assert_eq!(tq.enqueue(entry(200, 2, 0)), Ok(()));
    let far = Instant::artificial(1000);
    assert_eq!(tq.pop_due(far), Some(entry(100, 1, 0)));
    assert_eq!(tq.pop_due(far), Some(entry(200, 2, 0)));
    assert_eq!(tq.pop_due(far), Some(entry(300, 0, 0)));
    assert_eq!(tq.pop_due(far), None);
}

#[test]
fn timer_queue_keeps_ties_in_insertion_order() {
    let base = Instant::artificial(0);
    let mut tq = TimerQueue::new(4, base);
    assert_eq!(tq.enqueue(entry(100, 5, 0)), Ok(()));
    assert_eq!(tq.enqueue(entry(100, 6, 0)), Ok(()));
    let far = Instant::artificial(1000);
    assert_eq!(tq.pop_due(far), Some(entry(100, 5, 0)));
    assert_eq!(tq.pop_due(far), Some(entry(100, 6, 0)));
}

#[test]
fn timer_queue_orders_across_wrap() {
    let base = Instant::artificial(i32::MAX - 50);
    let before_wrap = base.add(10.cycles());
    let after_wrap = base.add(200.cycles());
    let mut tq = TimerQueue::new(4, base);
    assert_eq!(tq.enqueue(NotReady { instant: after_wrap, task: 1, index: 0 }), Ok(()));
    assert_eq!(tq.enqueue(NotReady { instant: before_wrap, task: 0, index: 0 }), Ok(()));
    let far = base.add(1000.cycles());
    assert_eq!(tq.pop_due(far).unwrap().task, 0);
    assert_eq!(tq.pop_due(far).unwrap().task, 1);
}

#[test]
fn timer_queue_respects_now_and_capacity() {
    let base = Instant::artificial(0);
    let mut tq = TimerQueue::new(1, base);
    assert_eq!(tq.enqueue(entry(500, 0, 0)), Ok(()));
    // full
    assert_eq!(tq.enqueue(entry(600, 1, 0)), Err(entry(600, 1, 0)));
    // not yet due
    assert_eq!(tq.pop_due(Instant::artificial(499)), None);
    assert_eq!(tq.pop_due(Instant::artificial(500)), Some(entry(500, 0, 0)));
}

#[test]
fn systick_reload_is_clamped() {
    let base = Instant::artificial(0);
    let mut tq = TimerQueue::new(2, base);
    assert_eq!(tq.reload_action(base), SysTickAction::Disable);
    assert_eq!(tq.enqueue(entry(100, 0, 0)), Ok(()));
    assert_eq!(tq.reload_action(Instant::artificial(40)), SysTickAction::Reload(60));
    // already due
    assert_eq!(tq.reload_action(Instant::artificial(150)), SysTickAction::Reload(0));
    let mut tq2 = TimerQueue::new(2, base);
    assert_eq!(tq2.enqueue(entry(0x7f00_0000, 0, 0)), Ok(()));
    assert_eq!(tq2.reload_action(base), SysTickAction::Reload(SYSTICK_MAX));
}

#[test]
fn logical_to_hardware_encoding() {
    // 4 priority bits: logical 1 -> (16 - 1) << 4
    assert_eq!(logical2hw(1, 4), 240);
    assert_eq!(logical2hw(16, 4), 0);
    // higher logical priority, lower hardware value
    assert!(logical2hw(3, 4) < logical2hw(2, 4));
    // logical 0 encodes to 0: nothing masked
    assert_eq!(logical2hw(0, 3), 0);
    // 8 priority bits
    assert_eq!(logical2hw(1, 8), 255);
}

#[test]
fn srp_lock_raises_and_restores() {
    let mut ctx = SrpContext { priority: 1, basepri: 0 };
    let (saved, action) = ctx.lock_enter(3, 4);
    assert_eq!(saved, 1);
    assert_eq!(action, MaskAction::WriteBasepri(logical2hw(3, 4)));
    assert_eq!(ctx.priority, 3);
    let restore = ctx.lock_exit(saved, 3, 4);
    assert_eq!(restore, MaskAction::WriteBasepri(logical2hw(1, 4)));
    // the priority cell equals its pre-lock value again
    assert_eq!(ctx.priority, 1);
}

#[test]
fn srp_lock_is_noop_at_or_above_ceiling() {
    let mut ctx = SrpContext { priority: 3, basepri: 0 };
    let (saved, action) = ctx.lock_enter(3, 4);
    assert_eq!(action, MaskAction::Keep);
    assert_eq!(ctx.priority, 3);
    assert_eq!(ctx.lock_exit(saved, 3, 4), MaskAction::Keep);
    assert_eq!(ctx.priority, 3);
}

#[test]
fn srp_lock_max_ceiling_disables_all() {
    let mut ctx = SrpContext { priority: 2, basepri: 0 };
    let (saved, action) = ctx.lock_enter(16, 4);
    assert_eq!(action, MaskAction::DisableAll);
    assert_eq!(ctx.priority, 255);
    assert_eq!(ctx.lock_exit(saved, 16, 4), MaskAction::Keep);
    assert_eq!(ctx.priority, 2);
}

#[test]
fn capacity_rounds_to_power_of_two() {
    assert_eq!(round_capacity(0), 1);
    assert_eq!(round_capacity(1), 1);
    assert_eq!(round_capacity(3), 4);
    assert_eq!(round_capacity(4), 4);
    assert_eq!(round_capacity(5), 8);
    assert_eq!(round_capacity(100), 128);
}

#[test]
fn minted_symbols_are_distinct_identifiers() {
    let a = cortex_m_rtfm::names::mint(0);
    let b = cortex_m_rtfm::names::mint(1);
    let c = cortex_m_rtfm::names::mint(0x10);
    assert_eq!(a.len(), 9);
    assert_ne!(a, b);
    assert_ne!(b, c);
    assert_ne!(a, c);
    for byte in a.iter().chain(b.iter()).chain(c.iter()) {
        assert!(byte.is_ascii_lowercase());
    }
    assert_eq!(cortex_m_rtfm::names::mint(7), cortex_m_rtfm::names::mint(7));
}
