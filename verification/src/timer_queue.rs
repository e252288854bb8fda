//! The timer queue: pending `schedule`d task activations ordered by their
//! due instant. Entries are kept sorted by their signed wrap-around offset
//! from a fixed baseline instant — under the live-window discipline (every
//! pending instant within half the counter range after the baseline) that
//! order is exactly the wrap-safe comparison of instants — with ties kept
//! in insertion order. The SysTick handler drains the due entries and
//! reprograms the timer from the next one.

use vstd::prelude::*;

use crate::time::{wrap_diff, Instant};

verus! {

/// The SysTick reload register holds 24 bits.
pub const SYSTICK_MAX: u32 = 0x00ff_ffff;

/// One pending activation: the instant it is due, the task's tag, and the
/// message slot its input occupies.
#[derive(Clone, Copy, Debug, PartialEq, Eq, Structural)]
pub struct NotReady {
    /// When the activation is due.
    pub instant: Instant,
    /// Tag of the scheduled task.
    pub task: u8,
    /// Slot index into the task's input array.
    pub index: u8,
}

/// What the SysTick exception should do after draining the due entries.
#[derive(Clone, Copy, Debug, PartialEq, Eq, Structural)]
pub enum SysTickAction {
    /// No pending entry: disable the SysTick interrupt.
    Disable,
    /// Reprogram SysTick with this reload value: the cycles until the next
    /// entry is due, clamped to the register's 24 bits.
    Reload(u32),
}

/// The signed cycle offset of an entry's due instant from the baseline.
pub open spec fn off(e: NotReady, base: Instant) -> i32 {
    wrap_diff(e.instant, base)
}

/// Whether a sequence of entries is ordered by offset from `base`,
/// earliest first.
pub open spec fn sorted(s: Seq<NotReady>, base: Instant) -> bool {
    forall|i: int, j: int| 0 <= i < j < s.len() ==> off(#[trigger] s[i], base) <= off(
        #[trigger] s[j],
        base,
    )
}

/// The priority-ordered queue of scheduled task activations.
pub struct TimerQueue {
    queue: Vec<NotReady>,
    baseline: Instant,
    cap: usize,
}

impl TimerQueue {
    /// The pending entries, next due first.
    pub closed spec fn contents(&self) -> Seq<NotReady> {
        self.queue@
    }

    /// The instant all offsets are measured from.
    pub closed spec fn base(&self) -> Instant {
        self.baseline
    }

    /// The greatest number of entries the queue accepts.
    pub closed spec fn cap_spec(&self) -> usize {
        self.cap
    }

    /// The queue is ordered and within capacity.
    pub open spec fn inv(&self) -> bool {
        sorted(self.contents(), self.base()) && self.contents().len() <= self.cap_spec()
    }

    /// An empty queue measuring offsets from `baseline`.
    pub fn new(capacity: usize, baseline: Instant) -> (r: TimerQueue)
        ensures
            r.contents() =~= Seq::<NotReady>::empty(),
            r.base() == baseline,
            r.cap_spec() == capacity,
            r.inv(),
    {
        TimerQueue { queue: Vec::new(), baseline, cap: capacity }
    }

    /// How many entries are pending.
    pub fn len(&self) -> (r: usize)
        ensures
            r == self.contents().len(),
    {
        self.queue.len()
    }

    /// Inserts an entry behind every entry due no later than it, so that
    /// equal instants dispatch in insertion order; a full queue returns
    /// the entry to the caller unchanged.
    #[verifier::loop_isolation(false)]
    pub fn enqueue(&mut self, e: NotReady) -> (r: Result<(), NotReady>)
        requires
            old(self).inv(),
        ensures
            final(self).inv(),
            final(self).base() == old(self).base(),
            final(self).cap_spec() == old(self).cap_spec(),
            old(self).contents().len() == old(self).cap_spec() ==> *final(self) == *old(self)
                && (r matches Err(y) && y == e),
            old(self).contents().len() < old(self).cap_spec() ==> r is Ok && exists|pos: int|
                {
                    &&& 0 <= pos <= old(self).contents().len()
                    &&& final(self).contents() == old(self).contents().insert(pos, e)
                    &&& forall|i: int|
                        0 <= i < pos ==> off(#[trigger] old(self).contents()[i], old(self).base())
                            <= off(e, old(self).base())
                    &&& forall|i: int|
                        pos <= i < old(self).contents().len() ==> off(
                            #[trigger] old(self).contents()[i],
                            old(self).base(),
                        ) > off(e, old(self).base())
                },
    {
        if self.queue.len() == self.cap {
            return Err(e);
        }
        let eo = e.instant.offset_from(self.baseline);
        let n = self.queue.len();
        let mut pos: usize = 0;
        while pos < n && self.queue[pos].instant.offset_from(self.baseline) <= eo
            invariant
                0 <= pos <= n,
                forall|i: int|
                    0 <= i < pos ==> off(#[trigger] self.queue@[i], self.baseline) <= off(
                        e,
                        self.baseline,
                    ),
            decreases n - pos,
        {
            pos = pos + 1;
        }
        proof {
            assert forall|i: int|
                pos <= i < self.queue@.len() implies off(#[trigger] self.queue@[i], self.baseline)
                > off(e, self.baseline) by {
                assert(off(self.queue@[pos as int], self.baseline) <= off(
                    self.queue@[i],
                    self.baseline,
                ));
            }
        }
        let ghost s0 = self.queue@;
        let ghost p = pos as int;
        self.queue.insert(pos, e);
        proof {
            let s1 = self.queue@;
            let base = self.baseline;
            assert forall|i: int, j: int| 0 <= i < j < s1.len() implies off(#[trigger] s1[i], base)
                <= off(#[trigger] s1[j], base) by {
                if i < p && j < p {
                    assert(s1[i] == s0[i] && s1[j] == s0[j]);
                } else if i < p && j == p {
                    assert(s1[i] == s0[i]);
                } else if i < p && j > p {
                    assert(s1[i] == s0[i] && s1[j] == s0[j - 1]);
                } else if i == p {
                    assert(s1[j] == s0[j - 1]);
                } else {
                    assert(s1[i] == s0[i - 1] && s1[j] == s0[j - 1]);
                }
            }
        }
        Ok(())
    }

    /// Takes the next due entry, when its instant lies at or before `now`
    /// measured from the baseline.
    pub fn pop_due(&mut self, now: Instant) -> (r: Option<NotReady>)
        requires
            old(self).inv(),
        ensures
            final(self).inv(),
            final(self).base() == old(self).base(),
            final(self).cap_spec() == old(self).cap_spec(),
            (old(self).contents().len() > 0 && off(old(self).contents()[0], old(self).base())
                <= wrap_diff(now, old(self).base())) ==> (r matches Some(e) && e
                == old(self).contents()[0]) && final(self).contents() == old(
                self,
            ).contents().drop_first(),
            !(old(self).contents().len() > 0 && off(old(self).contents()[0], old(self).base())
                <= wrap_diff(now, old(self).base())) ==> r is None && *final(self) == *old(self),
    {
        if self.queue.len() == 0 {
            return None;
        }
        let head_off = self.queue[0].instant.offset_from(self.baseline);
        if head_off <= now.offset_from(self.baseline) {
            let e = self.queue.remove(0);
            proof {
                assert(self.queue@ =~= old(self).queue@.drop_first());
            }
            Some(e)
        } else {
            None
        }
    }

    /// What SysTick should be programmed to after the due entries are
    /// drained: disabled when nothing is pending, else the cycles until
    /// the next entry, clamped to the register width.
    pub fn reload_action(&self, now: Instant) -> (r: SysTickAction)
        requires
            self.inv(),
        ensures
            self.contents().len() == 0 ==> r == SysTickAction::Disable,
            self.contents().len() > 0 ==> {
                let delta = off(self.contents()[0], self.base()) as int - wrap_diff(
                    now,
                    self.base(),
                ) as int;
                r == SysTickAction::Reload(
                    if delta <= 0 {
                        0u32
                    } else if delta > SYSTICK_MAX {
                        SYSTICK_MAX
                    } else {
                        delta as u32
                    },
                )
            },
    {
        if self.queue.len() == 0 {
            return SysTickAction::Disable;
        }
        let head_off = self.queue[0].instant.offset_from(self.baseline) as i64;
        let now_off = now.offset_from(self.baseline) as i64;
        if head_off <= now_off {
            SysTickAction::Reload(0)
        } else {
            let delta = head_off - now_off;
            if delta > SYSTICK_MAX as i64 {
                SysTickAction::Reload(SYSTICK_MAX)
            } else {
                SysTickAction::Reload(delta as u32)
            }
        }
    }
}

/// Heap order: the head of a sorted queue is due no later than every other
/// entry, and removing it keeps the rest sorted — so repeated pops yield a
/// sequence of instants that never decreases in offset from the baseline.
pub proof fn lemma_heap_order(s: Seq<NotReady>, base: Instant)
    requires
        sorted(s, base),
        s.len() > 0,
    ensures
        forall|i: int| 0 <= i < s.len() ==> off(s[0], base) <= off(#[trigger] s[i], base),
        sorted(s.drop_first(), base),
{
    assert forall|i: int, j: int| 0 <= i < j < s.drop_first().len() implies off(
        #[trigger] s.drop_first()[i],
        base,
    ) <= off(#[trigger] s.drop_first()[j], base) by {
        assert(s.drop_first()[i] == s[i + 1]);
        assert(s.drop_first()[j] == s[j + 1]);
    }
}

/// The offset order agrees with the wrap-safe comparison of instants: of
/// two instants in the live window (at or after the baseline), the one
/// with the smaller offset does not lie after the other.
pub proof fn lemma_offset_order_is_wrap_order(a: Instant, b: Instant, base: Instant)
    requires
        0 <= wrap_diff(a, base) <= wrap_diff(b, base),
    ensures
        wrap_diff(b, a) >= 0,
{
}

} // verus!
