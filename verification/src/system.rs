//! The runtime state the generated scaffold drives: per-task input and
//! scheduled-time slot arrays with a free queue of slot indices, one ready
//! queue and pend flag per dispatcher, and the timer queue. The operations
//! are the bodies the code generator emits for `spawn`, `schedule`, a
//! dispatcher iteration, and the SysTick exception. A conservation
//! invariant — every slot of a task is in its free queue, in flight in its
//! dispatcher's ready queue, or waiting in the timer queue — makes the
//! enqueues the generated code leaves unchecked provably unfailing.

use vstd::prelude::*;

use crate::fifo::Fifo;
use crate::time::{wrap_diff, Instant};
use crate::timer_queue::{NotReady, SysTickAction, TimerQueue};

verus! {

/// Message storage of one task: `capacity` slots of input payload and
/// scheduled time, and the queue of currently free slot indices.
pub struct TaskQueues {
    /// Slot indices not holding a pending message.
    pub free: Fifo<u8>,
    /// One input payload per slot.
    pub inputs: Vec<u32>,
    /// One scheduled-time mark per slot.
    pub scheduleds: Vec<Instant>,
}

/// The whole runtime state of an application instance.
pub struct System {
    /// Per-task slot storage, by task tag.
    pub tasks: Vec<TaskQueues>,
    /// Per-dispatcher ready queue of `(task tag, slot)` pairs.
    pub ready: Vec<Fifo<(u8, u8)>>,
    /// The dispatcher each task belongs to, by task tag.
    pub task_disp: Vec<u8>,
    /// Whether each dispatcher's interrupt is pended.
    pub pended: Vec<bool>,
    /// The timer queue of future activations.
    pub timer: TimerQueue,
}

/// How many entries of the ready sequence carry task tag `t`.
pub open spec fn ready_count(s: Seq<(u8, u8)>, t: u8) -> int
    decreases s.len(),
{
    if s.len() == 0 {
        0int
    } else {
        ready_count(s.drop_last(), t) + if s.last().0 == t {
            1int
        } else {
            0int
        }
    }
}

/// How many entries of the timer sequence carry task tag `t`.
pub open spec fn timer_count(s: Seq<NotReady>, t: u8) -> int
    decreases s.len(),
{
    if s.len() == 0 {
        0int
    } else {
        timer_count(s.drop_last(), t) + if s.last().task == t {
            1int
        } else {
            0int
        }
    }
}

impl System {
    /// The number of message slots of task `t`.
    pub open spec fn cap_of(&self, t: int) -> int {
        self.tasks@[t].inputs@.len() as int
    }

    /// The summed slot counts of the tasks of dispatcher `d` among the
    /// first `k` tasks.
    pub open spec fn disp_cap_sum(&self, d: u8, k: int) -> int
        decreases k,
    {
        if k <= 0 {
            0int
        } else {
            self.disp_cap_sum(d, k - 1) + if self.task_disp@[k - 1] == d {
                self.cap_of(k - 1)
            } else {
                0int
            }
        }
    }

    /// The summed ready counts over tasks of dispatcher `d` among the
    /// first `k` tasks.
    pub open spec fn sum_rc(&self, s: Seq<(u8, u8)>, d: u8, k: int) -> int
        decreases k,
    {
        if k <= 0 {
            0int
        } else {
            self.sum_rc(s, d, k - 1) + if self.task_disp@[k - 1] == d {
                ready_count(s, (k - 1) as u8)
            } else {
                0int
            }
        }
    }

    /// Slot storage of task `t` is consistent and all of its slots are
    /// accounted for.
    pub open spec fn task_ok(&self, t: int) -> bool {
        let tq = self.tasks@[t];
        let d = self.task_disp@[t];
        &&& tq.free.inv()
        &&& tq.free.cap_spec() == tq.inputs@.len()
        &&& tq.scheduleds@.len() == tq.inputs@.len()
        &&& tq.inputs@.len() <= 256
        &&& d < self.ready@.len()
        &&& forall|i: int|
            0 <= i < tq.free.contents().len() ==> (#[trigger] tq.free.contents()[i]) < self.cap_of(
                t,
            )
        &&& tq.free.contents().len() + ready_count(self.ready@[d as int].contents(), t as u8)
            + timer_count(self.timer.contents(), t as u8) == self.cap_of(t)
    }

    /// Dispatcher `d`'s ready queue is consistent: sized to its tasks'
    /// summed capacities, holding only in-range pairs of its own tasks.
    pub open spec fn disp_ok(&self, d: int) -> bool {
        let rq = self.ready@[d];
        &&& rq.inv()
        &&& rq.cap_spec() == self.disp_cap_sum(d as u8, self.tasks@.len() as int)
        &&& forall|i: int|
            0 <= i < rq.contents().len() ==> {
                let e = #[trigger] rq.contents()[i];
                &&& e.0 < self.tasks@.len()
                &&& self.task_disp@[e.0 as int] == d
                &&& e.1 < self.cap_of(e.0 as int)
            }
    }

    /// The whole runtime state is consistent.
    pub open spec fn inv(&self) -> bool {
        &&& self.task_disp@.len() == self.tasks@.len()
        &&& self.tasks@.len() <= 256
        &&& self.ready@.len() == self.pended@.len()
        &&& self.ready@.len() <= 256
        &&& forall|t: int| 0 <= t < self.tasks@.len() ==> self.task_ok(t)
        &&& forall|d: int| 0 <= d < self.ready@.len() ==> self.disp_ok(d)
        &&& self.timer.inv()
        &&& forall|i: int|
            0 <= i < self.timer.contents().len() ==> {
                let e = #[trigger] self.timer.contents()[i];
                &&& e.task < self.tasks@.len()
                &&& e.index < self.cap_of(e.task as int)
            }
    }
}

/// A tag count is at least zero and at most the sequence length.
proof fn lemma_ready_count_bounds(s: Seq<(u8, u8)>, t: u8)
    ensures
        0 <= ready_count(s, t) <= s.len(),
    decreases s.len(),
{
    if s.len() > 0 {
        lemma_ready_count_bounds(s.drop_last(), t);
    }
}

/// A tag count is at least zero and at most the sequence length.
proof fn lemma_timer_count_bounds(s: Seq<NotReady>, t: u8)
    ensures
        0 <= timer_count(s, t) <= s.len(),
    decreases s.len(),
{
    if s.len() > 0 {
        lemma_timer_count_bounds(s.drop_last(), t);
    }
}

/// Appending one entry raises exactly its own tag's count by one.
proof fn lemma_ready_count_push(s: Seq<(u8, u8)>, x: (u8, u8), t: u8)
    ensures
        ready_count(s.push(x), t) == ready_count(s, t) + if x.0 == t {
            1int
        } else {
            0int
        },
{
    assert(s.push(x).drop_last() =~= s);
}

/// Appending one entry raises exactly its own tag's count by one.
proof fn lemma_timer_count_push(s: Seq<NotReady>, x: NotReady, t: u8)
    ensures
        timer_count(s.push(x), t) == timer_count(s, t) + if x.task == t {
            1int
        } else {
            0int
        },
{
    assert(s.push(x).drop_last() =~= s);
}

/// Inserting one entry raises exactly its own tag's count by one.
proof fn lemma_timer_count_insert(s: Seq<NotReady>, x: NotReady, pos: int, t: u8)
    requires
        0 <= pos <= s.len(),
    ensures
        timer_count(s.insert(pos, x), t) == timer_count(s, t) + if x.task == t {
            1int
        } else {
            0int
        },
    decreases s.len(),
{
    if pos == s.len() {
        assert(s.insert(pos, x) =~= s.push(x));
        lemma_timer_count_push(s, x, t);
    } else {
        let s1 = s.insert(pos, x);
        assert(s1.last() == s.last());
        assert(s1.drop_last() =~= s.drop_last().insert(pos, x));
        lemma_timer_count_insert(s.drop_last(), x, pos, t);
    }
}

/// Dropping the front entry lowers exactly its own tag's count by one.
proof fn lemma_ready_count_drop_first(s: Seq<(u8, u8)>, t: u8)
    requires
        s.len() > 0,
    ensures
        ready_count(s, t) == ready_count(s.drop_first(), t) + if s[0].0 == t {
            1int
        } else {
            0int
        },
    decreases s.len(),
{
    if s.len() == 1 {
        assert(s.drop_first() =~= Seq::<(u8, u8)>::empty());
        assert(s.drop_last() =~= Seq::<(u8, u8)>::empty());
    } else {
        assert(s.drop_first().drop_last() =~= s.drop_last().drop_first());
        lemma_ready_count_drop_first(s.drop_last(), t);
        assert(s.drop_first().last() == s.last());
        assert(s.drop_last()[0] == s[0]);
    }
}

/// Dropping the front entry lowers exactly its own tag's count by one.
proof fn lemma_timer_count_drop_first(s: Seq<NotReady>, t: u8)
    requires
        s.len() > 0,
    ensures
        timer_count(s, t) == timer_count(s.drop_first(), t) + if s[0].task == t {
            1int
        } else {
            0int
        },
    decreases s.len(),
{
    if s.len() == 1 {
        assert(s.drop_first() =~= Seq::<NotReady>::empty());
        assert(s.drop_last() =~= Seq::<NotReady>::empty());
    } else {
        assert(s.drop_first().drop_last() =~= s.drop_last().drop_first());
        lemma_timer_count_drop_first(s.drop_last(), t);
        assert(s.drop_first().last() == s.last());
        assert(s.drop_last()[0] == s[0]);
    }
}

impl System {
    /// The length of a ready sequence holding only tags of dispatcher `d`
    /// is the sum of its per-task counts.
    proof fn lemma_len_is_sum(&self, s: Seq<(u8, u8)>, d: u8, nt: int)
        requires
            nt == self.tasks@.len(),
            nt <= 256,
            forall|i: int|
                0 <= i < s.len() ==> (#[trigger] s[i]).0 < nt && self.task_disp@[s[i].0 as int]
                    == d,
        ensures
            s.len() == self.sum_rc(s, d, nt),
        decreases s.len(),
    {
        if s.len() == 0 {
            self.lemma_sum_rc_empty(s, d, nt);
        } else {
            let s0 = s.drop_last();
            assert(forall|i: int| 0 <= i < s0.len() ==> s0[i] == s[i]);
            self.lemma_len_is_sum(s0, d, nt);
            self.lemma_sum_rc_push(s0, s.last(), d, nt);
            assert(s0.push(s.last()) =~= s);
        }
    }

    /// The partial sum of an all-zero count is zero.
    proof fn lemma_sum_rc_empty(&self, s: Seq<(u8, u8)>, d: u8, k: int)
        requires
            s.len() == 0,
        ensures
            self.sum_rc(s, d, k) == 0,
        decreases k,
    {
        if k > 0 {
            self.lemma_sum_rc_empty(s, d, k - 1);
        }
    }

    /// Appending an entry of dispatcher `d` raises its sum by one.
    proof fn lemma_sum_rc_push(&self, s: Seq<(u8, u8)>, x: (u8, u8), d: u8, k: int)
        requires
            x.0 < k <= 256,
            self.task_disp@[x.0 as int] == d,
        ensures
            self.sum_rc(s.push(x), d, k) == self.sum_rc(s, d, k) + 1,
        decreases k,
    {
        assert forall|t: u8|
            ready_count(s.push(x), t) == ready_count(s, t) + (if x.0 == t {
                1int
            } else {
                0int
            }) by {
            lemma_ready_count_push(s, x, t);
        }
        if x.0 == k - 1 {
            self.lemma_sum_rc_same_below(s, s.push(x), d, k - 1, x.0);
        } else {
            self.lemma_sum_rc_push(s, x, d, k - 1);
        }
    }

    /// Partial sums below a tag that is the only difference agree.
    proof fn lemma_sum_rc_same_below(
        &self,
        s0: Seq<(u8, u8)>,
        s1: Seq<(u8, u8)>,
        d: u8,
        k: int,
        t0: u8,
    )
        requires
            k <= t0,
            forall|t: u8| t != t0 ==> ready_count(s1, t) == ready_count(s0, t),
        ensures
            self.sum_rc(s1, d, k) == self.sum_rc(s0, d, k),
        decreases k,
    {
        if k > 0 {
            self.lemma_sum_rc_same_below(s0, s1, d, k - 1, t0);
        }
    }

    /// When every task of dispatcher `d` has its count within capacity and
    /// one task `t0` stays strictly below, the summed counts stay strictly
    /// below the summed capacities.
    proof fn lemma_sum_rc_lt(&self, s: Seq<(u8, u8)>, d: u8, k: int, t0: u8)
        requires
            k <= 256,
            t0 < k,
            self.task_disp@[t0 as int] == d,
            forall|t: int|
                0 <= t < k && self.task_disp@[t] == d ==> ready_count(s, t as u8) <= self.cap_of(
                    t,
                ),
            ready_count(s, t0) < self.cap_of(t0 as int),
        ensures
            self.sum_rc(s, d, k) < self.disp_cap_sum(d, k),
        decreases k,
    {
        if t0 == k - 1 {
            self.lemma_sum_rc_le(s, d, k - 1);
        } else {
            self.lemma_sum_rc_lt(s, d, k - 1, t0);
        }
    }

    /// Counts within capacity give sums within summed capacity.
    proof fn lemma_sum_rc_le(&self, s: Seq<(u8, u8)>, d: u8, k: int)
        requires
            k <= 256,
            forall|t: int|
                0 <= t < k && self.task_disp@[t] == d ==> ready_count(s, t as u8) <= self.cap_of(
                    t,
                ),
        ensures
            self.sum_rc(s, d, k) <= self.disp_cap_sum(d, k),
        decreases k,
    {
        if k > 0 {
            self.lemma_sum_rc_le(s, d, k - 1);
        }
    }
}


/// Whether two runtime states are observably identical.
pub open spec fn same_state(a: System, b: System) -> bool {
    &&& b.tasks@.len() == a.tasks@.len()
    &&& b.task_disp@ == a.task_disp@
    &&& forall|t: int|
        0 <= t < a.tasks@.len() ==> {
            &&& (#[trigger] b.tasks@[t]).free.contents() == a.tasks@[t].free.contents()
            &&& b.tasks@[t].free.cap_spec() == a.tasks@[t].free.cap_spec()
            &&& b.tasks@[t].inputs@ == a.tasks@[t].inputs@
            &&& b.tasks@[t].scheduleds@ == a.tasks@[t].scheduleds@
        }
    &&& b.ready@.len() == a.ready@.len()
    &&& forall|d: int|
        0 <= d < a.ready@.len() ==> (#[trigger] b.ready@[d]).contents() == a.ready@[d].contents()
            && b.ready@[d].cap_spec() == a.ready@[d].cap_spec()
    &&& b.pended@ == a.pended@
    &&& b.timer.contents() == a.timer.contents()
    &&& b.timer.base() == a.timer.base()
    &&& b.timer.cap_spec() == a.timer.cap_spec()
}

/// The summed capacities of the tasks of dispatcher `d` among the first
/// `k`, over plain capacity and dispatcher tables.
pub open spec fn caps_sum(caps: Seq<u8>, disp: Seq<u8>, d: u8, k: int) -> int
    decreases k,
{
    if k <= 0 {
        0int
    } else {
        caps_sum(caps, disp, d, k - 1) + if disp[k - 1] == d {
            caps[k - 1] as int
        } else {
            0int
        }
    }
}

/// A system whose tasks have the tabulated capacities has the tabulated
/// dispatcher sums.
proof fn lemma_caps_sum_eq(sys: System, caps: Seq<u8>, d: u8, k: int)
    requires
        sys.task_disp@.len() == caps.len(),
        forall|t: int| 0 <= t < caps.len() ==> sys.cap_of(t) == caps[t],
    ensures
        k <= caps.len() ==> sys.disp_cap_sum(d, k) == caps_sum(caps, sys.task_disp@, d, k),
    decreases k,
{
    if k > 0 {
        lemma_caps_sum_eq(sys, caps, d, k - 1);
    }
}

/// Two systems with the same capacities and dispatcher table have the same
/// dispatcher sums.
proof fn lemma_disp_cap_sum_congruent(a: System, b: System, d: u8, k: int)
    requires
        b.task_disp@ == a.task_disp@,
        forall|t: int| 0 <= t < k ==> b.cap_of(t) == a.cap_of(t),
    ensures
        b.disp_cap_sum(d, k) == a.disp_cap_sum(d, k),
    decreases k,
{
    if k > 0 {
        lemma_disp_cap_sum_congruent(a, b, d, k - 1);
    }
}

impl System {
    /// Pre-initialization: builds the whole runtime state with every slot
    /// index of every task in its free queue, empty ready queues sized to
    /// their tasks' summed capacities, cleared pend flags, and an empty
    /// timer queue measured from `baseline`.
    #[verifier::loop_isolation(false)]
    pub fn new(
        caps: &Vec<u8>,
        task_disp: &Vec<u8>,
        ready_caps: &Vec<u8>,
        timer_cap: u8,
        baseline: Instant,
    ) -> (r: System)
        requires
            task_disp@.len() == caps@.len(),
            caps@.len() <= 256,
            ready_caps@.len() <= 256,
            forall|t: int| 0 <= t < task_disp@.len() ==> (#[trigger] task_disp@[t]) < ready_caps@.len(),
            forall|d: int|
                0 <= d < ready_caps@.len() ==> ready_caps@[d] == caps_sum(
                    caps@,
                    task_disp@,
                    d as u8,
                    caps@.len() as int,
                ),
        ensures
            r.inv(),
            r.tasks@.len() == caps@.len(),
            r.task_disp@ == task_disp@,
            forall|t: int| 0 <= t < caps@.len() ==> r.cap_of(t) == caps@[t],
            forall|t: int|
                0 <= t < caps@.len() ==> (#[trigger] r.tasks@[t]).free.contents() =~= Seq::new(
                    caps@[t] as nat,
                    |i: int| i as u8,
                ),
            r.ready@.len() == ready_caps@.len(),
            forall|d: int| 0 <= d < ready_caps@.len() ==> (#[trigger] r.ready@[d]).contents().len() == 0,
            forall|d: int| 0 <= d < ready_caps@.len() ==> r.pended@[d] == false,
            r.timer.contents().len() == 0,
            r.timer.base() == baseline,
            r.timer.cap_spec() == timer_cap,
    {
        let nt = caps.len();
        let mut tasks: Vec<TaskQueues> = Vec::new();
        for t in 0..nt
            invariant
                tasks@.len() == t,
                forall|t2: int|
                    0 <= t2 < t ==> {
                        let tq = #[trigger] tasks@[t2];
                        &&& tq.free.inv()
                        &&& tq.free.cap_spec() == caps@[t2]
                        &&& tq.inputs@.len() == caps@[t2]
                        &&& tq.scheduleds@.len() == caps@[t2]
                        &&& tq.free.contents() =~= Seq::new(caps@[t2] as nat, |i: int| i as u8)
                    },
        {
            let cap = caps[t];
            let capu = cap as usize;
            let mut free: Fifo<u8> = Fifo::new(capu);
            let mut i: u8 = 0;
            while (i as usize) < capu
                invariant
                    i <= cap,
                    free.inv(),
                    free.cap_spec() == capu,
                    free.contents() =~= Seq::new(i as nat, |k: int| k as u8),
                decreases capu - i as usize,
            {
                let res = free.enqueue(i);
                proof {
                    assert(res is Ok);
                    assert(free.contents() =~= Seq::new(i as nat + 1, |k: int| k as u8));
                }
                i = i + 1;
            }
            let mut inputs: Vec<u32> = Vec::new();
            let mut scheduleds: Vec<Instant> = Vec::new();
            let mut j: usize = 0;
            while j < capu
                invariant
                    inputs@.len() == j,
                    scheduleds@.len() == j,
                    j <= capu,
                decreases capu - j,
            {
                inputs.push(0);
                scheduleds.push(baseline);
                j = j + 1;
            }
            tasks.push(TaskQueues { free, inputs, scheduleds });
        }
        let nd = ready_caps.len();
        let mut ready: Vec<Fifo<(u8, u8)>> = Vec::new();
        let mut pended: Vec<bool> = Vec::new();
        for d in 0..nd
            invariant
                ready@.len() == d,
                pended@.len() == d,
                forall|d2: int|
                    0 <= d2 < d ==> {
                        let rq = #[trigger] ready@[d2];
                        &&& rq.inv()
                        &&& rq.cap_spec() == ready_caps@[d2]
                        &&& rq.contents().len() == 0
                    },
                forall|d2: int| 0 <= d2 < d ==> pended@[d2] == false,
        {
            ready.push(Fifo::new(ready_caps[d] as usize));
            pended.push(false);
        }
        let timer = TimerQueue::new(timer_cap as usize, baseline);
        let sys = System { tasks, ready, task_disp: clone_u8_vec(task_disp), pended, timer };
        proof {
            assert forall|t: int| 0 <= t < sys.tasks@.len() implies sys.task_ok(t) by {
                let tg = t as u8;
                let d = sys.task_disp@[t];
                assert(ready_count(sys.ready@[d as int].contents(), tg) == 0);
                assert(timer_count(sys.timer.contents(), tg) == 0);
                assert(forall|i: int|
                    0 <= i < sys.tasks@[t].free.contents().len() ==> (
                    #[trigger] sys.tasks@[t].free.contents()[i]) < sys.cap_of(t));
            }
            assert forall|d: int| 0 <= d < sys.ready@.len() implies sys.disp_ok(d) by {
                lemma_caps_sum_eq(sys, caps@, d as u8, caps@.len() as int);
            }
        }
        sys
    }
}

/// Copies a table of dispatcher indices.
#[verifier::loop_isolation(false)]
fn clone_u8_vec(v: &Vec<u8>) -> (r: Vec<u8>)
    ensures
        r@ == v@,
{
    let mut out: Vec<u8> = Vec::new();
    let n = v.len();
    for i in 0..n
        invariant
            out@ =~= v@.take(i as int),
    {
        out.push(v[i]);
        proof {
            assert(out@ =~= v@.take(i as int + 1));
        }
    }
    proof {
        assert(v@.take(n as int) =~= v@);
    }
    out
}


impl System {
    /// The body `spawn.T(input)` expands to: take a free slot of the task,
    /// store the payload and the caller's baseline instant, put the pair on
    /// the task's dispatcher's ready queue — which the conservation
    /// invariant proves cannot be full — and pend that dispatcher. An empty
    /// free queue returns the payload to the caller.
    pub fn spawn(&mut self, task: u8, input: u32, now: Instant) -> (r: Result<(), u32>)
        requires
            old(self).inv(),
            (task as int) < old(self).tasks@.len(),
        ensures
            final(self).inv(),
            old(self).tasks@[task as int].free.contents().len() == 0 ==> r == Err::<(), u32>(
                input,
            ) && same_state(*old(self), *final(self)),
            old(self).tasks@[task as int].free.contents().len() > 0 ==> r is Ok && {
                let slot = old(self).tasks@[task as int].free.contents()[0];
                let d = old(self).task_disp@[task as int] as int;
                &&& final(self).tasks@[task as int].free.contents() == old(
                    self,
                ).tasks@[task as int].free.contents().drop_first()
                &&& final(self).tasks@[task as int].inputs@ == old(
                    self,
                ).tasks@[task as int].inputs@.update(slot as int, input)
                &&& final(self).tasks@[task as int].scheduleds@ == old(
                    self,
                ).tasks@[task as int].scheduleds@.update(slot as int, now)
                &&& final(self).ready@[d].contents() == old(self).ready@[d].contents().push(
                    (task, slot),
                )
                &&& final(self).pended@ == old(self).pended@.update(d, true)
                &&& forall|t: int|
                    0 <= t < old(self).tasks@.len() && t != task as int ==> (
                    #[trigger] final(self).tasks@[t]).free.contents() == old(
                        self,
                    ).tasks@[t].free.contents() && final(self).tasks@[t].inputs@ == old(
                        self,
                    ).tasks@[t].inputs@ && final(self).tasks@[t].scheduleds@ == old(
                        self,
                    ).tasks@[t].scheduleds@
                &&& forall|d2: int|
                    0 <= d2 < old(self).ready@.len() && d2 != d ==> (
                    #[trigger] final(self).ready@[d2]).contents() == old(
                        self,
                    ).ready@[d2].contents()
                &&& final(self).timer.contents() == old(self).timer.contents()
            },
            final(self).task_disp@ == old(self).task_disp@,
            final(self).tasks@.len() == old(self).tasks@.len(),
            final(self).ready@.len() == old(self).ready@.len(),
            final(self).timer.base() == old(self).timer.base(),
    {
        let ti = task as usize;
        let d = self.task_disp[ti];
        let di = d as usize;
        proof {
            assert(old(self).task_ok(task as int));
        }
        let slot_opt = vstd::std_specs::vec::vec_index_mut(&mut self.tasks, ti).free.dequeue();
        match slot_opt {
            None => {
                proof {
                    assert(self.tasks@ =~= old(self).tasks@);
                    assert(same_state(*old(self), *self));
                    assert forall|t: int| 0 <= t < self.tasks@.len() implies self.task_ok(t) by {
                        assert(old(self).task_ok(t));
                    }
                    assert forall|d2: int| 0 <= d2 < self.ready@.len() implies self.disp_ok(
                        d2,
                    ) by {
                        assert(old(self).disp_ok(d2));
                        lemma_disp_cap_sum_congruent(
                            *old(self),
                            *self,
                            d2 as u8,
                            self.tasks@.len() as int,
                        );
                    }
                }
                Err(input)
            },
            Some(slot) => {
                let si = slot as usize;
                proof {
                    assert(old(self).task_ok(task as int));
                    assert(old(self).tasks@[task as int].free.contents()[0] == slot);
                    assert(slot < old(self).cap_of(task as int));
                }
                let tq = vstd::std_specs::vec::vec_index_mut(&mut self.tasks, ti);
                tq.inputs[si] = input;
                tq.scheduleds[si] = now;
                proof {
                    let sys1 = *self;
                    let rs = sys1.ready@[di as int].contents();
                    let nt = sys1.tasks@.len() as int;
                    assert(old(self).disp_ok(di as int));
                    assert(rs == old(self).ready@[di as int].contents());
                    assert(sys1.tasks@[task as int].free.contents() == old(
                        self,
                    ).tasks@[task as int].free.contents().drop_first());
                    assert forall|t: int| 0 <= t < nt implies #[trigger] sys1.cap_of(t) == old(
                        self,
                    ).cap_of(t) by {
                        if t != task as int {
                            assert(sys1.tasks@[t] == old(self).tasks@[t]);
                        }
                    }
                    lemma_timer_count_bounds(sys1.timer.contents(), task);
                    lemma_ready_count_bounds(rs, task);
                    assert(ready_count(rs, task) < sys1.cap_of(task as int));
                    assert forall|t: int|
                        0 <= t < nt && sys1.task_disp@[t] == d implies ready_count(
                        rs,
                        t as u8,
                    ) <= sys1.cap_of(t) by {
                        assert(old(self).task_ok(t));
                        lemma_timer_count_bounds(sys1.timer.contents(), t as u8);
                        lemma_ready_count_bounds(rs, t as u8);
                    }
                    assert forall|i: int| 0 <= i < rs.len() implies ((#[trigger] rs[i]).0
                        < sys1.tasks@.len() && sys1.task_disp@[rs[i].0 as int] == d) by {
                        assert(rs[i] == old(self).ready@[di as int].contents()[i]);
                    }
                    sys1.lemma_len_is_sum(rs, d, nt);
                    sys1.lemma_sum_rc_lt(rs, d, nt, task);
                    lemma_disp_cap_sum_congruent(*old(self), sys1, d, nt);
                    assert(sys1.ready@[di as int].contents().len() < old(
                        self,
                    ).ready@[di as int].cap_spec());
                }
                let rq = vstd::std_specs::vec::vec_index_mut(&mut self.ready, di);
                let enq = rq.enqueue((task, slot));
                proof {
                    assert(enq is Ok);
                }
                self.pended[di] = true;
                proof {
                    let sys2 = *self;
                    assert forall|t: int| 0 <= t < sys2.tasks@.len() implies sys2.task_ok(t) by {
                        assert(old(self).task_ok(t));
                        lemma_ready_count_push(
                            old(self).ready@[di as int].contents(),
                            (task, slot),
                            t as u8,
                        );
                    }
                    assert forall|d2: int| 0 <= d2 < sys2.ready@.len() implies sys2.disp_ok(
                        d2,
                    ) by {
                        assert(old(self).disp_ok(d2));
                        lemma_disp_cap_sum_congruent(
                            *old(self),
                            sys2,
                            d2 as u8,
                            sys2.tasks@.len() as int,
                        );
                        if d2 == di as int {
                            assert forall|i: int|
                                0 <= i < sys2.ready@[d2].contents().len() implies {
                                let e = #[trigger] sys2.ready@[d2].contents()[i];
                                &&& e.0 < sys2.tasks@.len()
                                &&& sys2.task_disp@[e.0 as int] == d2
                                &&& e.1 < sys2.cap_of(e.0 as int)
                            } by {
                                if i < old(self).ready@[d2].contents().len() {
                                    assert(sys2.ready@[d2].contents()[i] == old(
                                        self,
                                    ).ready@[d2].contents()[i]);
                                }
                            }
                        }
                    }
                }
                Ok(())
            },
        }
    }
}


impl System {
    /// The body `schedule.T(instant, input)` expands to: take a free slot,
    /// store the payload and the due instant, and put the entry on the
    /// timer queue under its ceiling lock. An empty free queue — or a
    /// timer queue at capacity, which capacity analysis makes unreachable
    /// for schedulable tasks — returns the payload to the caller.
    pub fn schedule(&mut self, task: u8, instant: Instant, input: u32) -> (r: Result<(), u32>)
        requires
            old(self).inv(),
            (task as int) < old(self).tasks@.len(),
        ensures
            final(self).inv(),
            final(self).task_disp@ == old(self).task_disp@,
            final(self).tasks@.len() == old(self).tasks@.len(),
            final(self).ready@.len() == old(self).ready@.len(),
            final(self).timer.base() == old(self).timer.base(),
            forall|d2: int|
                0 <= d2 < old(self).ready@.len() ==> (#[trigger] final(self).ready@[d2]).contents()
                    == old(self).ready@[d2].contents(),
            final(self).pended@ == old(self).pended@,
            old(self).tasks@[task as int].free.contents().len() == 0 ==> r == Err::<(), u32>(
                input,
            ) && same_state(*old(self), *final(self)),
            old(self).tasks@[task as int].free.contents().len() > 0 ==> {
                let slot = old(self).tasks@[task as int].free.contents()[0];
                &&& final(self).tasks@[task as int].inputs@ == old(
                    self,
                ).tasks@[task as int].inputs@.update(slot as int, input)
                &&& final(self).tasks@[task as int].scheduleds@ == old(
                    self,
                ).tasks@[task as int].scheduleds@.update(slot as int, instant)
                &&& forall|t: int|
                    0 <= t < old(self).tasks@.len() && t != task as int ==> (
                    #[trigger] final(self).tasks@[t]).free.contents() == old(
                        self,
                    ).tasks@[t].free.contents() && final(self).tasks@[t].inputs@ == old(
                        self,
                    ).tasks@[t].inputs@ && final(self).tasks@[t].scheduleds@ == old(
                        self,
                    ).tasks@[t].scheduleds@
                &&& (old(self).timer.contents().len() < old(self).timer.cap_spec() ==> r is Ok
                    && final(self).tasks@[task as int].free.contents() == old(
                    self,
                ).tasks@[task as int].free.contents().drop_first() && exists|pos: int|
                    {
                        &&& 0 <= pos <= old(self).timer.contents().len()
                        &&& final(self).timer.contents() == old(self).timer.contents().insert(
                            pos,
                            crate::timer_queue::NotReady { instant, task, index: slot },
                        )
                    })
                &&& (old(self).timer.contents().len() == old(self).timer.cap_spec() ==> r
                    == Err::<(), u32>(input) && final(self).timer.contents() == old(
                    self,
                ).timer.contents() && final(self).tasks@[task as int].free.contents() == old(
                    self,
                ).tasks@[task as int].free.contents().drop_first().push(slot))
            },
    {
        let ti = task as usize;
        proof {
            assert(old(self).task_ok(task as int));
        }
        let slot_opt = vstd::std_specs::vec::vec_index_mut(&mut self.tasks, ti).free.dequeue();
        match slot_opt {
            None => {
                proof {
                    assert(self.tasks@ =~= old(self).tasks@);
                    assert(same_state(*old(self), *self));
                    assert forall|t: int| 0 <= t < self.tasks@.len() implies self.task_ok(t) by {
                        assert(old(self).task_ok(t));
                    }
                    assert forall|d2: int| 0 <= d2 < self.ready@.len() implies self.disp_ok(
                        d2,
                    ) by {
                        assert(old(self).disp_ok(d2));
                        lemma_disp_cap_sum_congruent(
                            *old(self),
                            *self,
                            d2 as u8,
                            self.tasks@.len() as int,
                        );
                    }
                }
                Err(input)
            },
            Some(slot) => {
                let si = slot as usize;
                proof {
                    assert(old(self).tasks@[task as int].free.contents()[0] == slot);
                    assert(slot < old(self).cap_of(task as int));
                }
                let tq = vstd::std_specs::vec::vec_index_mut(&mut self.tasks, ti);
                tq.inputs[si] = input;
                tq.scheduleds[si] = instant;
                let entry = crate::timer_queue::NotReady { instant, task, index: slot };
                let enq = self.timer.enqueue(entry);
                match enq {
                    Ok(()) => {
                        proof {
                            let sys2 = *self;
                            let nt = sys2.tasks@.len() as int;
                            let pos = choose|pos: int|
                                {
                                    &&& 0 <= pos <= old(self).timer.contents().len()
                                    &&& sys2.timer.contents() == old(
                                        self,
                                    ).timer.contents().insert(pos, entry)
                                    &&& forall|i: int|
                                        0 <= i < pos ==> crate::timer_queue::off(
                                            #[trigger] old(self).timer.contents()[i],
                                            old(self).timer.base(),
                                        ) <= crate::timer_queue::off(entry, old(self).timer.base())
                                    &&& forall|i: int|
                                        pos <= i < old(self).timer.contents().len()
                                            ==> crate::timer_queue::off(
                                            #[trigger] old(self).timer.contents()[i],
                                            old(self).timer.base(),
                                        ) > crate::timer_queue::off(entry, old(self).timer.base())
                                };
                            assert forall|t: int| 0 <= t < nt implies sys2.task_ok(t) by {
                                assert(old(self).task_ok(t));
                                lemma_timer_count_insert(
                                    old(self).timer.contents(),
                                    entry,
                                    pos,
                                    t as u8,
                                );
                            }
                            assert forall|d2: int| 0 <= d2 < sys2.ready@.len() implies sys2.disp_ok(
                                d2,
                            ) by {
                                assert(old(self).disp_ok(d2));
                                lemma_disp_cap_sum_congruent(*old(self), sys2, d2 as u8, nt);
                            }
                            assert forall|i: int|
                                0 <= i < sys2.timer.contents().len() implies {
                                let e = #[trigger] sys2.timer.contents()[i];
                                &&& e.task < sys2.tasks@.len()
                                &&& e.index < sys2.cap_of(e.task as int)
                            } by {
                                if i < pos {
                                    assert(sys2.timer.contents()[i] == old(
                                        self,
                                    ).timer.contents()[i]);
                                } else if i > pos {
                                    assert(sys2.timer.contents()[i] == old(
                                        self,
                                    ).timer.contents()[i - 1]);
                                }
                            }
                        }
                        Ok(())
                    },
                    Err(back) => {
                        proof {
                            assert(old(self).tasks@[task as int].free.inv());
                            assert(self.tasks@[ti as int].free.contents() == old(
                                self,
                            ).tasks@[task as int].free.contents().drop_first());
                            assert(self.tasks@[ti as int].free.cap_spec() == old(
                                self,
                            ).tasks@[task as int].free.cap_spec());
                            assert(self.tasks@[ti as int].free.contents().len()
                                < self.tasks@[ti as int].free.cap_spec());
                        }
                        let res = vstd::std_specs::vec::vec_index_mut(
                            &mut self.tasks,
                            ti,
                        ).free.enqueue(back.index);
                        proof {
                            assert(res is Ok);
                            let sys2 = *self;
                            let nt = sys2.tasks@.len() as int;
                            assert forall|t: int| 0 <= t < nt implies sys2.task_ok(t) by {
                                assert(old(self).task_ok(t));
                            }
                            assert forall|d2: int| 0 <= d2 < sys2.ready@.len() implies sys2.disp_ok(
                                d2,
                            ) by {
                                assert(old(self).disp_ok(d2));
                                lemma_disp_cap_sum_congruent(*old(self), sys2, d2 as u8, nt);
                            }
                        }
                        Err(input)
                    },
                }
            },
        }
    }

    /// One iteration of a dispatcher body: take the next `(task, slot)`
    /// pair from the level's ready queue, read the payload and scheduled
    /// time out of the slot, and hand the slot back to the task's free
    /// queue — which conservation proves cannot be full. The caller then
    /// runs the task with the returned values.
    pub fn dispatch_next(&mut self, d: u8) -> (r: Option<(u8, u8, u32, Instant)>)
        requires
            old(self).inv(),
            (d as int) < old(self).ready@.len(),
        ensures
            final(self).inv(),
            final(self).task_disp@ == old(self).task_disp@,
            final(self).tasks@.len() == old(self).tasks@.len(),
            final(self).ready@.len() == old(self).ready@.len(),
            final(self).pended@ == old(self).pended@,
            final(self).timer.contents() == old(self).timer.contents(),
            final(self).timer.base() == old(self).timer.base(),
            old(self).ready@[d as int].contents().len() == 0 ==> r is None && same_state(
                *old(self),
                *final(self),
            ),
            old(self).ready@[d as int].contents().len() > 0 ==> {
                let e = old(self).ready@[d as int].contents()[0];
                &&& r == Some(
                    (
                        e.0,
                        e.1,
                        old(self).tasks@[e.0 as int].inputs@[e.1 as int],
                        old(self).tasks@[e.0 as int].scheduleds@[e.1 as int],
                    ),
                )
                &&& final(self).ready@[d as int].contents() == old(
                    self,
                ).ready@[d as int].contents().drop_first()
                &&& final(self).tasks@[e.0 as int].free.contents() == old(
                    self,
                ).tasks@[e.0 as int].free.contents().push(e.1)
                &&& forall|t: int|
                    0 <= t < old(self).tasks@.len() && t != e.0 as int ==> (
                    #[trigger] final(self).tasks@[t]).free.contents() == old(
                        self,
                    ).tasks@[t].free.contents()
                &&& forall|t: int|
                    0 <= t < old(self).tasks@.len() ==> (#[trigger] final(self).tasks@[t]).inputs@
                        == old(self).tasks@[t].inputs@ && final(self).tasks@[t].scheduleds@ == old(
                        self,
                    ).tasks@[t].scheduleds@
                &&& forall|d2: int|
                    0 <= d2 < old(self).ready@.len() && d2 != d as int ==> (
                    #[trigger] final(self).ready@[d2]).contents() == old(
                        self,
                    ).ready@[d2].contents()
            },
    {
        let di = d as usize;
        proof {
            assert(old(self).disp_ok(d as int));
        }
        let got = vstd::std_specs::vec::vec_index_mut(&mut self.ready, di).dequeue();
        match got {
            None => {
                proof {
                    assert(self.ready@ =~= old(self).ready@);
                    assert(same_state(*old(self), *self));
                    assert forall|t: int| 0 <= t < self.tasks@.len() implies self.task_ok(t) by {
                        assert(old(self).task_ok(t));
                    }
                    assert forall|d2: int| 0 <= d2 < self.ready@.len() implies self.disp_ok(
                        d2,
                    ) by {
                        assert(old(self).disp_ok(d2));
                        lemma_disp_cap_sum_congruent(
                            *old(self),
                            *self,
                            d2 as u8,
                            self.tasks@.len() as int,
                        );
                    }
                }
                None
            },
            Some((tg, ix)) => {
                proof {
                    assert(old(self).ready@[d as int].contents()[0] == (tg, ix));
                    assert(old(self).task_ok(tg as int));
                    lemma_ready_count_drop_first(old(self).ready@[d as int].contents(), tg);
                    lemma_ready_count_bounds(
                        old(self).ready@[d as int].contents().drop_first(),
                        tg,
                    );
                    lemma_timer_count_bounds(old(self).timer.contents(), tg);
                    assert(old(self).tasks@[tg as int].free.contents().len() < old(
                        self,
                    ).tasks@[tg as int].free.cap_spec());
                }
                let tgi = tg as usize;
                let ixi = ix as usize;
                let input = self.tasks[tgi].inputs[ixi];
                let scheduled = self.tasks[tgi].scheduleds[ixi];
                let res = vstd::std_specs::vec::vec_index_mut(&mut self.tasks, tgi).free.enqueue(
                    ix,
                );
                proof {
                    assert(res is Ok);
                    let sys2 = *self;
                    let nt = sys2.tasks@.len() as int;
                    assert forall|t: int| 0 <= t < nt implies sys2.task_ok(t) by {
                        assert(old(self).task_ok(t));
                        lemma_ready_count_drop_first(
                            old(self).ready@[d as int].contents(),
                            t as u8,
                        );
                    }
                    assert forall|d2: int| 0 <= d2 < sys2.ready@.len() implies sys2.disp_ok(
                        d2,
                    ) by {
                        assert(old(self).disp_ok(d2));
                        lemma_disp_cap_sum_congruent(*old(self), sys2, d2 as u8, nt);
                        if d2 == d as int {
                            assert forall|i: int|
                                0 <= i < sys2.ready@[d2].contents().len() implies {
                                let e = #[trigger] sys2.ready@[d2].contents()[i];
                                &&& e.0 < sys2.tasks@.len()
                                &&& sys2.task_disp@[e.0 as int] == d2
                                &&& e.1 < sys2.cap_of(e.0 as int)
                            } by {
                                assert(sys2.ready@[d2].contents()[i] == old(
                                    self,
                                ).ready@[d2].contents()[i + 1]);
                            }
                        }
                    }
                }
                Some((tg, ix, input, scheduled))
            },
        }
    }

    /// One step of the SysTick body: when the queue's head is due at or
    /// before `now`, move it to its dispatcher's ready queue — provably
    /// not full — and pend that dispatcher. Returns the routed pair, or
    /// `None` once nothing further is due; the caller then reprograms the
    /// timer from `reload`.
    pub fn systick_step(&mut self, now: Instant) -> (r: Option<(u8, u8)>)
        requires
            old(self).inv(),
        ensures
            final(self).inv(),
            final(self).task_disp@ == old(self).task_disp@,
            final(self).tasks@.len() == old(self).tasks@.len(),
            final(self).ready@.len() == old(self).ready@.len(),
            final(self).timer.base() == old(self).timer.base(),
            forall|t: int|
                0 <= t < old(self).tasks@.len() ==> (#[trigger] final(self).tasks@[t]).free.contents()
                    == old(self).tasks@[t].free.contents() && final(self).tasks@[t].inputs@ == old(
                    self,
                ).tasks@[t].inputs@ && final(self).tasks@[t].scheduleds@ == old(
                    self,
                ).tasks@[t].scheduleds@,
            !(old(self).timer.contents().len() > 0 && crate::timer_queue::off(
                old(self).timer.contents()[0],
                old(self).timer.base(),
            ) <= wrap_diff(now, old(self).timer.base())) ==> r is None && same_state(
                *old(self),
                *final(self),
            ),
            (old(self).timer.contents().len() > 0 && crate::timer_queue::off(
                old(self).timer.contents()[0],
                old(self).timer.base(),
            ) <= wrap_diff(now, old(self).timer.base())) ==> {
                let e = old(self).timer.contents()[0];
                let d = old(self).task_disp@[e.task as int] as int;
                &&& r == Some((e.task, e.index))
                &&& final(self).timer.contents() == old(self).timer.contents().drop_first()
                &&& final(self).ready@[d].contents() == old(self).ready@[d].contents().push(
                    (e.task, e.index),
                )
                &&& forall|d2: int|
                    0 <= d2 < old(self).ready@.len() && d2 != d ==> (
                    #[trigger] final(self).ready@[d2]).contents() == old(
                        self,
                    ).ready@[d2].contents()
                &&& final(self).pended@ == old(self).pended@.update(d, true)
            },
    {
        let popped = self.timer.pop_due(now);
        match popped {
            None => {
                proof {
                    assert(same_state(*old(self), *self));
                    assert forall|t: int| 0 <= t < self.tasks@.len() implies self.task_ok(t) by {
                        assert(old(self).task_ok(t));
                    }
                    assert forall|d2: int| 0 <= d2 < self.ready@.len() implies self.disp_ok(
                        d2,
                    ) by {
                        assert(old(self).disp_ok(d2));
                        lemma_disp_cap_sum_congruent(
                            *old(self),
                            *self,
                            d2 as u8,
                            self.tasks@.len() as int,
                        );
                    }
                }
                None
            },
            Some(e) => {
                let tg = e.task;
                let tgi = tg as usize;
                let di = self.task_disp[tgi] as usize;
                proof {
                    let sys1 = *self;
                    let rs = sys1.ready@[di as int].contents();
                    let nt = sys1.tasks@.len() as int;
                    let d = old(self).task_disp@[tg as int];
                    assert(old(self).task_ok(tg as int));
                    assert(old(self).disp_ok(di as int));
                    lemma_timer_count_drop_first(old(self).timer.contents(), tg);
                    lemma_timer_count_bounds(sys1.timer.contents(), tg);
                    lemma_ready_count_bounds(rs, tg);
                    assert(ready_count(rs, tg) < sys1.cap_of(tg as int));
                    assert forall|t: int| 0 <= t < nt implies #[trigger] sys1.cap_of(t) == old(
                        self,
                    ).cap_of(t) by {}
                    assert forall|t: int|
                        0 <= t < nt && sys1.task_disp@[t] == d implies ready_count(
                        rs,
                        t as u8,
                    ) <= sys1.cap_of(t) by {
                        assert(old(self).task_ok(t));
                        lemma_timer_count_bounds(old(self).timer.contents(), t as u8);
                    }
                    assert forall|i: int| 0 <= i < rs.len() implies ((#[trigger] rs[i]).0
                        < sys1.tasks@.len() && sys1.task_disp@[rs[i].0 as int] == d) by {
                        assert(rs[i] == old(self).ready@[di as int].contents()[i]);
                    }
                    sys1.lemma_len_is_sum(rs, d, nt);
                    sys1.lemma_sum_rc_lt(rs, d, nt, tg);
                    lemma_disp_cap_sum_congruent(*old(self), sys1, d, nt);
                    assert(sys1.ready@[di as int].contents().len() < old(
                        self,
                    ).ready@[di as int].cap_spec());
                }
                let rq = vstd::std_specs::vec::vec_index_mut(&mut self.ready, di);
                let enq = rq.enqueue((tg, e.index));
                proof {
                    assert(enq is Ok);
                }
                self.pended[di] = true;
                proof {
                    let sys2 = *self;
                    let nt = sys2.tasks@.len() as int;
                    assert forall|t: int| 0 <= t < nt implies sys2.task_ok(t) by {
                        assert(old(self).task_ok(t));
                        lemma_timer_count_drop_first(old(self).timer.contents(), t as u8);
                        lemma_ready_count_push(
                            old(self).ready@[di as int].contents(),
                            (tg, e.index),
                            t as u8,
                        );
                    }
                    assert forall|d2: int| 0 <= d2 < sys2.ready@.len() implies sys2.disp_ok(
                        d2,
                    ) by {
                        assert(old(self).disp_ok(d2));
                        lemma_disp_cap_sum_congruent(*old(self), sys2, d2 as u8, nt);
                        if d2 == di as int {
                            assert forall|i: int|
                                0 <= i < sys2.ready@[d2].contents().len() implies {
                                let en = #[trigger] sys2.ready@[d2].contents()[i];
                                &&& en.0 < sys2.tasks@.len()
                                &&& sys2.task_disp@[en.0 as int] == d2
                                &&& en.1 < sys2.cap_of(en.0 as int)
                            } by {
                                if i < old(self).ready@[d2].contents().len() {
                                    assert(sys2.ready@[d2].contents()[i] == old(
                                        self,
                                    ).ready@[d2].contents()[i]);
                                }
                            }
                        }
                    }
                    assert forall|i: int|
                        0 <= i < sys2.timer.contents().len() implies {
                        let en = #[trigger] sys2.timer.contents()[i];
                        &&& en.task < sys2.tasks@.len()
                        &&& en.index < sys2.cap_of(en.task as int)
                    } by {
                        assert(sys2.timer.contents()[i] == old(self).timer.contents()[i + 1]);
                    }
                }
                Some((tg, e.index))
            },
        }
    }

    /// What SysTick should be programmed to, given the current instant.
    pub fn reload(&self, now: Instant) -> (r: SysTickAction)
        requires
            self.inv(),
        ensures
            self.timer.contents().len() == 0 ==> r == SysTickAction::Disable,
            self.timer.contents().len() > 0 ==> {
                let delta = crate::timer_queue::off(self.timer.contents()[0], self.timer.base())
                    as int - wrap_diff(now, self.timer.base()) as int;
                r == SysTickAction::Reload(
                    if delta <= 0 {
                        0u32
                    } else if delta > crate::timer_queue::SYSTICK_MAX {
                        crate::timer_queue::SYSTICK_MAX
                    } else {
                        delta as u32
                    },
                )
            },
    {
        self.timer.reload_action(now)
    }

    /// Takes and clears one dispatcher's pend flag; the hardware does this
    /// when it vectors into the dispatcher.
    pub fn claim_pend(&mut self, d: u8) -> (r: bool)
        requires
            old(self).inv(),
            (d as int) < old(self).pended@.len(),
        ensures
            final(self).inv(),
            r == old(self).pended@[d as int],
            final(self).pended@ == old(self).pended@.update(d as int, false),
            final(self).task_disp@ == old(self).task_disp@,
            final(self).tasks@ == old(self).tasks@,
            final(self).ready@ == old(self).ready@,
            final(self).timer.contents() == old(self).timer.contents(),
            final(self).timer.base() == old(self).timer.base(),
    {
        let di = d as usize;
        let was = self.pended[di];
        self.pended[di] = false;
        proof {
            assert forall|t: int| 0 <= t < self.tasks@.len() implies self.task_ok(t) by {
                assert(old(self).task_ok(t));
            }
            assert forall|d2: int| 0 <= d2 < self.ready@.len() implies self.disp_ok(d2) by {
                assert(old(self).disp_ok(d2));
                lemma_disp_cap_sum_congruent(
                    *old(self),
                    *self,
                    d2 as u8,
                    self.tasks@.len() as int,
                );
            }
        }
        was
    }
}

/// The number of slots the generated queue storage reserves for a
/// capacity: the least power of two at or above it (one slot at least),
/// as the lock-free index arithmetic of the single-producer queues
/// requires.
pub fn round_capacity(cap: u8) -> (r: u8)
    requires
        cap <= 128,
    ensures
        cap <= 1 ==> r == 1,
        1 < cap <= 2 ==> r == 2,
        2 < cap <= 4 ==> r == 4,
        4 < cap <= 8 ==> r == 8,
        8 < cap <= 16 ==> r == 16,
        16 < cap <= 32 ==> r == 32,
        32 < cap <= 64 ==> r == 64,
        64 < cap <= 128 ==> r == 128,
        r >= cap,
        r < 2 * (if cap <= 1 { 1 } else { cap as int }),
{
    if cap <= 1 {
        1
    } else if cap <= 2 {
        2
    } else if cap <= 4 {
        4
    } else if cap <= 8 {
        8
    } else if cap <= 16 {
        16
    } else if cap <= 32 {
        32
    } else if cap <= 64 {
        64
    } else {
        128
    }
}


/// The slot indices of the entries of task `t` in a ready sequence, in
/// queue order.
pub open spec fn slots_of(s: Seq<(u8, u8)>, t: u8) -> Seq<u8>
    decreases s.len(),
{
    if s.len() == 0 {
        Seq::empty()
    } else {
        let pre = slots_of(s.drop_last(), t);
        if s.last().0 == t {
            pre.push(s.last().1)
        } else {
            pre
        }
    }
}

impl System {
    /// A whole dispatcher body: drains the level's ready queue and returns
    /// every invocation in FIFO order — exactly the enqueued `(task,
    /// slot)` pairs, each with exactly the payload and scheduled time its
    /// slot holds, from any queue state. Every drained slot returns to its
    /// task's free queue in the same order.
    #[verifier::loop_isolation(false)]
    pub fn drain_level(&mut self, d: u8) -> (r: Vec<(u8, u8, u32, Instant)>)
        requires
            old(self).inv(),
            (d as int) < old(self).ready@.len(),
        ensures
            final(self).inv(),
            r@.len() == old(self).ready@[d as int].contents().len(),
            forall|i: int|
                0 <= i < r@.len() ==> {
                    let e = old(self).ready@[d as int].contents()[i];
                    #[trigger] r@[i] == (
                        e.0,
                        e.1,
                        old(self).tasks@[e.0 as int].inputs@[e.1 as int],
                        old(self).tasks@[e.0 as int].scheduleds@[e.1 as int],
                    )
                },
            final(self).ready@[d as int].contents().len() == 0,
            forall|t: int|
                0 <= t < old(self).tasks@.len() ==> (#[trigger] final(self).tasks@[t]).free.contents()
                    == old(self).tasks@[t].free.contents() + slots_of(
                    old(self).ready@[d as int].contents(),
                    t as u8,
                ),
            forall|t: int|
                0 <= t < old(self).tasks@.len() ==> (#[trigger] final(self).tasks@[t]).inputs@
                    == old(self).tasks@[t].inputs@ && final(self).tasks@[t].scheduleds@ == old(
                    self,
                ).tasks@[t].scheduleds@,
            forall|d2: int|
                0 <= d2 < old(self).ready@.len() && d2 != d as int ==> (
                #[trigger] final(self).ready@[d2]).contents() == old(self).ready@[d2].contents(),
            final(self).pended@ == old(self).pended@,
            final(self).timer.contents() == old(self).timer.contents(),
            final(self).timer.base() == old(self).timer.base(),
            final(self).task_disp@ == old(self).task_disp@,
            final(self).tasks@.len() == old(self).tasks@.len(),
            final(self).ready@.len() == old(self).ready@.len(),
    {
        let di = d as usize;
        let ghost s0 = old(self).ready@[di as int].contents();
        let n = self.ready[di].len();
        let mut out: Vec<(u8, u8, u32, Instant)> = Vec::new();
        let mut k: usize = 0;
        while k < n
            invariant
                self.inv(),
                k <= n,
                n == s0.len(),
                self.tasks@.len() == old(self).tasks@.len(),
                self.ready@.len() == old(self).ready@.len(),
                self.task_disp@ == old(self).task_disp@,
                (di as int) < self.ready@.len(),
                self.ready@[di as int].contents() == s0.skip(k as int),
                out@.len() == k,
                forall|i: int|
                    0 <= i < k ==> #[trigger] out@[i] == (
                        s0[i].0,
                        s0[i].1,
                        old(self).tasks@[s0[i].0 as int].inputs@[s0[i].1 as int],
                        old(self).tasks@[s0[i].0 as int].scheduleds@[s0[i].1 as int],
                    ),
                forall|t: int|
                    0 <= t < old(self).tasks@.len() ==> (#[trigger] self.tasks@[t]).free.contents()
                        == old(self).tasks@[t].free.contents() + slots_of(
                        s0.take(k as int),
                        t as u8,
                    ),
                forall|t: int|
                    0 <= t < old(self).tasks@.len() ==> (#[trigger] self.tasks@[t]).inputs@ == old(
                        self,
                    ).tasks@[t].inputs@ && self.tasks@[t].scheduleds@ == old(
                        self,
                    ).tasks@[t].scheduleds@,
                forall|d2: int|
                    0 <= d2 < old(self).ready@.len() && d2 != di as int ==> (
                    #[trigger] self.ready@[d2]).contents() == old(self).ready@[d2].contents(),
                self.pended@ == old(self).pended@,
                self.timer.contents() == old(self).timer.contents(),
                self.timer.base() == old(self).timer.base(),
            decreases n - k,
        {
            proof {
                assert(s0.skip(k as int)[0] == s0[k as int]);
            }
            let ghost pre = *self;
            let got = self.dispatch_next(d);
            match got {
                Some((tg, ix, inp, sch)) => {
                    out.push((tg, ix, inp, sch));
                    proof {
                        assert(pre.disp_ok(di as int));
                        assert(pre.ready@[di as int].contents()[0] == s0[k as int]);
                        assert((tg, ix) == s0[k as int]);
                        assert(inp == pre.tasks@[tg as int].inputs@[ix as int]);
                        assert(sch == pre.tasks@[tg as int].scheduleds@[ix as int]);
                        assert(pre.tasks@[tg as int].inputs@ == old(
                            self,
                        ).tasks@[tg as int].inputs@);
                        assert(pre.tasks@[tg as int].scheduleds@ == old(
                            self,
                        ).tasks@[tg as int].scheduleds@);
                        assert(out@[k as int] == (
                            s0[k as int].0,
                            s0[k as int].1,
                            old(self).tasks@[s0[k as int].0 as int].inputs@[s0[k as int].1 as int],
                            old(self).tasks@[s0[k as int].0 as int].scheduleds@[s0[k as int].1
                                as int],
                        ));
                        assert(pre.ready@[di as int].contents().drop_first() =~= s0.skip(
                            k as int + 1,
                        ));
                        assert(s0.take(k as int + 1).drop_last() =~= s0.take(k as int));
                        assert(s0.take(k as int + 1).last() == s0[k as int]);
                        assert forall|t: int|
                            0 <= t < old(self).tasks@.len() implies (
                        #[trigger] self.tasks@[t]).free.contents() == old(
                            self,
                        ).tasks@[t].free.contents() + slots_of(s0.take(k as int + 1), t as u8) by {
                            if t == tg as int {
                                assert(slots_of(s0.take(k as int + 1), t as u8) =~= slots_of(
                                    s0.take(k as int),
                                    t as u8,
                                ).push(ix));
                            } else {
                                assert(slots_of(s0.take(k as int + 1), t as u8) =~= slots_of(
                                    s0.take(k as int),
                                    t as u8,
                                ));
                            }
                        }
                    }
                    k = k + 1;
                },
                None => {
                    proof {
                        assert(false);
                    }
                    return out;
                },
            }
        }
        proof {
            assert(s0.skip(n as int) =~= Seq::<(u8, u8)>::empty());
            assert(s0.take(n as int) =~= s0);
        }
        out
    }
}

} // verus!
