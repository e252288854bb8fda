//! Ceiling and capacity analysis: computes per-resource ownership under the
//! Stack Resource Policy, per-task FIFO capacities, dispatcher assignments
//! from the free-interrupt pool, queue ceilings, the timer queue shape, and
//! the thread-safety obligations of message payloads and read-only
//! resources.

use vstd::prelude::*;

use crate::model::{
    accesses, ctx_accesses, ctx_calls, handlers_accesses, handlers_schedules, handlers_spawns,
    idle_accesses, idle_schedules, idle_spawns, schedule_calls, spawn_calls, tasks_accesses,
    tasks_schedules, tasks_spawns, wf, App, IDLE_PRIORITY, INIT_PRIORITY,
};

verus! {

/// How a resource is held once every access is accounted for.
#[derive(Clone, Copy, Debug, PartialEq, Eq, Structural)]
pub enum Ownership {
    /// Accessed only from contexts at one priority; no lock is ever needed.
    Owned {
        /// The single accessing priority.
        priority: u8,
    },
    /// Accessed from several priorities; guarded by a ceiling lock.
    Shared {
        /// The maximum priority of any accessor.
        ceiling: u8,
    },
}

impl Ownership {
    /// Whether a context at `priority` must take a lock to touch the
    /// resource: only a shared resource, and only from strictly below its
    /// ceiling. A context above the ceiling never holds the resource.
    pub fn needs_lock(&self, priority: u8) -> (r: bool)
        requires
            *self matches Ownership::Shared { ceiling } ==> priority <= ceiling,
        ensures
            r == (*self matches Ownership::Shared { ceiling } && priority < ceiling),
    {
        match *self {
            Ownership::Owned { .. } => false,
            Ownership::Shared { ceiling } => priority < ceiling,
        }
    }
}

/// The larger of two priorities.
pub open spec fn max2(a: u8, b: u8) -> u8 {
    if a < b {
        b
    } else {
        a
    }
}

/// One step of the ownership fold: how the record for a resource changes
/// when an access at priority `p` is seen.
pub open spec fn own_step(prev: Option<Ownership>, p: u8) -> Option<Ownership> {
    match prev {
        None => Some(Ownership::Owned { priority: p }),
        Some(Ownership::Owned { priority: c }) => if p != c {
            Some(Ownership::Shared { ceiling: max2(c, p) })
        } else {
            prev
        },
        Some(Ownership::Shared { ceiling: c }) => if p != c {
            Some(Ownership::Shared { ceiling: max2(c, p) })
        } else {
            prev
        },
    }
}

/// The ownership of resource `r` after folding the access sequence `s` in
/// order: first sight records `Owned`, any later sight from a different
/// priority promotes to `Shared` with the running maximum as ceiling.
pub open spec fn own_of(s: Seq<(u8, u32)>, r: u32) -> Option<Ownership>
    decreases s.len(),
{
    if s.len() == 0 {
        None
    } else {
        let prev = own_of(s.drop_last(), r);
        if s.last().1 == r {
            own_step(prev, s.last().0)
        } else {
            prev
        }
    }
}

/// The priorities of the accesses to resource `r`, in order.
pub open spec fn prios_of(s: Seq<(u8, u32)>, r: u32) -> Seq<u8>
    decreases s.len(),
{
    if s.len() == 0 {
        Seq::empty()
    } else {
        let prev = prios_of(s.drop_last(), r);
        if s.last().1 == r {
            prev.push(s.last().0)
        } else {
            prev
        }
    }
}

/// Whether every element of a priority sequence equals its first.
pub open spec fn uniform(q: Seq<u8>) -> bool {
    forall|i: int| 0 <= i < q.len() ==> #[trigger] q[i] == q[0]
}

/// The maximum of a priority sequence, 0 when empty.
pub open spec fn max_prio_of(q: Seq<u8>) -> u8
    decreases q.len(),
{
    if q.len() == 0 {
        0
    } else {
        max2(max_prio_of(q.drop_last()), q.last())
    }
}

/// Whether an ownership record is `Shared`.
pub open spec fn is_shared(o: Option<Ownership>) -> bool {
    match o {
        Some(Ownership::Shared { .. }) => true,
        _ => false,
    }
}

/// Whether type `t` belongs to the needs-shareable set: some read-only
/// resource of that type is shared across priorities in `s`.
pub open spec fn needs_sync_ty(app: App, s: Seq<(u8, u32)>, t: u32) -> bool {
    exists|res: u32|
        res < app.resources@.len() && !app.resources@[res as int].mutable && is_shared(
            #[trigger] own_of(s, res),
        ) && app.resources@[res as int].ty == t
}

/// Appends one context's `(priority, resource)` pairs.
#[verifier::loop_isolation(false)]
fn push_accesses(out: &mut Vec<(u8, u32)>, priority: u8, resources: &Vec<u32>)
    ensures
        final(out)@ == old(out)@ + ctx_accesses(priority, resources@),
{
    let n = resources.len();
    for j in 0..n
        invariant
            out@ == old(out)@ + ctx_accesses(priority, resources@.take(j as int)),
    {
        out.push((priority, resources[j]));
        proof {
            let pre = resources@.take(j as int);
            assert(resources@.take(j as int + 1) =~= pre.push(resources@[j as int]));
            assert(ctx_accesses(priority, pre.push(resources@[j as int])) =~= ctx_accesses(
                priority,
                pre,
            ).push((priority, resources@[j as int])));
        }
    }
    proof {
        assert(resources@.take(n as int) =~= resources@);
    }
}

/// Collects every resource access of the application, in the order the
/// model enumerates them.
#[verifier::loop_isolation(false)]
pub fn collect_accesses(app: &App) -> (r: Vec<(u8, u32)>)
    requires
        wf(*app),
    ensures
        r@ == accesses(*app),
        forall|k: int| 0 <= k < r@.len() ==> (#[trigger] r@[k]).1 < app.resources@.len(),
{
    let mut out: Vec<(u8, u32)> = Vec::new();
    push_accesses(&mut out, INIT_PRIORITY, &app.init.resources);
    match &app.idle {
        Some(i) => push_accesses(&mut out, IDLE_PRIORITY, &i.resources),
        None => {},
    }
    let ni = app.interrupts.len();
    for h in 0..ni
        invariant
            wf(*app),
            out@ == ctx_accesses(INIT_PRIORITY, app.init.resources@) + idle_accesses(app.idle)
                + handlers_accesses(app.interrupts@.take(h as int)),
    {
        push_accesses(&mut out, app.interrupts[h].priority, &app.interrupts[h].resources);
        proof {
            let pre = app.interrupts@.take(h as int);
            let post = app.interrupts@.take(h as int + 1);
            assert(post.drop_last() =~= pre);
            assert(post.last() == app.interrupts@[h as int]);
        }
    }
    proof {
        assert(app.interrupts@.take(ni as int) =~= app.interrupts@);
    }
    let ne = app.exceptions.len();
    for h in 0..ne
        invariant
            wf(*app),
            out@ == ctx_accesses(INIT_PRIORITY, app.init.resources@) + idle_accesses(app.idle)
                + handlers_accesses(app.interrupts@) + handlers_accesses(
                app.exceptions@.take(h as int),
            ),
    {
        push_accesses(&mut out, app.exceptions[h].priority, &app.exceptions[h].resources);
        proof {
            let pre = app.exceptions@.take(h as int);
            let post = app.exceptions@.take(h as int + 1);
            assert(post.drop_last() =~= pre);
            assert(post.last() == app.exceptions@[h as int]);
        }
    }
    proof {
        assert(app.exceptions@.take(ne as int) =~= app.exceptions@);
    }
    let nt = app.tasks.len();
    for k in 0..nt
        invariant
            wf(*app),
            out@ == ctx_accesses(INIT_PRIORITY, app.init.resources@) + idle_accesses(app.idle)
                + handlers_accesses(app.interrupts@) + handlers_accesses(app.exceptions@)
                + tasks_accesses(app.tasks@.take(k as int)),
    {
        push_accesses(&mut out, app.tasks[k].priority, &app.tasks[k].resources);
        proof {
            let pre = app.tasks@.take(k as int);
            let post = app.tasks@.take(k as int + 1);
            assert(post.drop_last() =~= pre);
            assert(post.last() == app.tasks@[k as int]);
        }
    }
    proof {
        assert(app.tasks@.take(nt as int) =~= app.tasks@);
        assert(forall|k: int|
            0 <= k < accesses(*app).len() ==> (#[trigger] accesses(*app)[k]).1
                < app.resources@.len()) by {
            lemma_accesses_bounded(*app);
        }
    }
    out
}

/// Every access of a well-formed application names a declared resource.
proof fn lemma_ctx_accesses_bounded(priority: u8, resources: Seq<u32>, bound: int)
    requires
        forall|i: int| 0 <= i < resources.len() ==> resources[i] < bound,
    ensures
        forall|k: int|
            0 <= k < ctx_accesses(priority, resources).len() ==> (#[trigger] ctx_accesses(
                priority,
                resources,
            )[k]).1 < bound,
{
}

/// Every access of a well-formed handler sequence names a declared resource.
proof fn lemma_handlers_accesses_bounded(hs: Seq<crate::model::Handler>, bound: int)
    requires
        forall|i: int|
            0 <= i < hs.len() ==> forall|j: int|
                0 <= j < (#[trigger] hs[i]).resources@.len() ==> hs[i].resources@[j] < bound,
    ensures
        forall|k: int|
            0 <= k < handlers_accesses(hs).len() ==> (#[trigger] handlers_accesses(hs)[k]).1
                < bound,
    decreases hs.len(),
{
    if hs.len() > 0 {
        assert(forall|i: int|
            0 <= i < hs.drop_last().len() ==> #[trigger] hs.drop_last()[i] == hs[i]);
        lemma_handlers_accesses_bounded(hs.drop_last(), bound);
        lemma_ctx_accesses_bounded(hs.last().priority, hs.last().resources@, bound);
        let pre = handlers_accesses(hs.drop_last());
        let tail = ctx_accesses(hs.last().priority, hs.last().resources@);
        assert forall|k: int| 0 <= k < handlers_accesses(hs).len() implies (
        #[trigger] handlers_accesses(hs)[k]).1 < bound by {
            if k < pre.len() {
                assert(handlers_accesses(hs)[k] == pre[k]);
            } else {
                assert(handlers_accesses(hs)[k] == tail[k - pre.len()]);
            }
        }
    }
}

/// Every access of a well-formed task sequence names a declared resource.
proof fn lemma_tasks_accesses_bounded(ts: Seq<crate::model::Task>, bound: int)
    requires
        forall|i: int|
            0 <= i < ts.len() ==> forall|j: int|
                0 <= j < (#[trigger] ts[i]).resources@.len() ==> ts[i].resources@[j] < bound,
    ensures
        forall|k: int|
            0 <= k < tasks_accesses(ts).len() ==> (#[trigger] tasks_accesses(ts)[k]).1 < bound,
    decreases ts.len(),
{
    if ts.len() > 0 {
        assert(forall|i: int|
            0 <= i < ts.drop_last().len() ==> #[trigger] ts.drop_last()[i] == ts[i]);
        lemma_tasks_accesses_bounded(ts.drop_last(), bound);
        lemma_ctx_accesses_bounded(ts.last().priority, ts.last().resources@, bound);
        let pre = tasks_accesses(ts.drop_last());
        let tail = ctx_accesses(ts.last().priority, ts.last().resources@);
        assert forall|k: int| 0 <= k < tasks_accesses(ts).len() implies (
        #[trigger] tasks_accesses(ts)[k]).1 < bound by {
            if k < pre.len() {
                assert(tasks_accesses(ts)[k] == pre[k]);
            } else {
                assert(tasks_accesses(ts)[k] == tail[k - pre.len()]);
            }
        }
    }
}

/// Every access of a well-formed application names a declared resource.
proof fn lemma_accesses_bounded(app: App)
    requires
        wf(app),
    ensures
        forall|k: int|
            0 <= k < accesses(app).len() ==> (#[trigger] accesses(app)[k]).1
                < app.resources@.len(),
{
    let bound = app.resources@.len() as int;
    lemma_ctx_accesses_bounded(INIT_PRIORITY, app.init.resources@, bound);
    match app.idle {
        Some(i) => lemma_ctx_accesses_bounded(IDLE_PRIORITY, i.resources@, bound),
        None => {},
    }
    lemma_handlers_accesses_bounded(app.interrupts@, bound);
    lemma_handlers_accesses_bounded(app.exceptions@, bound);
    lemma_tasks_accesses_bounded(app.tasks@, bound);
}

/// Whether a `u32` occurs in a vector.
#[verifier::loop_isolation(false)]
fn contains_u32(v: &Vec<u32>, x: u32) -> (r: bool)
    ensures
        r == v@.contains(x),
{
    let n = v.len();
    for i in 0..n
        invariant
            forall|k: int| 0 <= k < i ==> v@[k] != x,
    {
        if v[i] == x {
            proof {
                assert(v@.contains(x));
            }
            return true;
        }
    }
    proof {
        assert(!v@.contains(x));
    }
    false
}

/// Exchanging the access sequence for one with identical shared records
/// leaves the needs-shareable set unchanged.
proof fn lemma_sync_same_shared(app: App, s0: Seq<(u8, u32)>, s1: Seq<(u8, u32)>, rr: u32)
    requires
        forall|x: u32| x != rr ==> own_of(s1, x) == own_of(s0, x),
        is_shared(own_of(s1, rr)) == is_shared(own_of(s0, rr)),
    ensures
        forall|t: u32| needs_sync_ty(app, s1, t) == needs_sync_ty(app, s0, t),
{
    assert forall|t: u32| needs_sync_ty(app, s1, t) == needs_sync_ty(app, s0, t) by {
        assert forall|res: u32|
            is_shared(#[trigger] own_of(s1, res)) == is_shared(own_of(s0, res)) by {
            if res != rr {
                assert(own_of(s1, res) == own_of(s0, res));
            }
        }
    }
}

/// A step that can only promote records keeps every needs-shareable type.
proof fn lemma_sync_monotone(app: App, s0: Seq<(u8, u32)>, s1: Seq<(u8, u32)>, t: u32)
    requires
        forall|x: u32| is_shared(#[trigger] own_of(s0, x)) ==> is_shared(own_of(s1, x)),
        needs_sync_ty(app, s0, t),
    ensures
        needs_sync_ty(app, s1, t),
{
    let res = choose|res: u32|
        res < app.resources@.len() && !app.resources@[res as int].mutable && is_shared(
            #[trigger] own_of(s0, res),
        ) && app.resources@[res as int].ty == t;
    assert(is_shared(own_of(s1, res)));
}

/// A step that touches only a mutable resource leaves the needs-shareable
/// set unchanged.
proof fn lemma_sync_mutable_step(app: App, s0: Seq<(u8, u32)>, s1: Seq<(u8, u32)>, rr: u32)
    requires
        forall|x: u32| x != rr ==> own_of(s1, x) == own_of(s0, x),
        rr < app.resources@.len(),
        app.resources@[rr as int].mutable,
    ensures
        forall|t: u32| needs_sync_ty(app, s1, t) == needs_sync_ty(app, s0, t),
{
    assert forall|t: u32| needs_sync_ty(app, s1, t) == needs_sync_ty(app, s0, t) by {
        if needs_sync_ty(app, s1, t) {
            let res = choose|res: u32|
                res < app.resources@.len() && !app.resources@[res as int].mutable && is_shared(
                    #[trigger] own_of(s1, res),
                ) && app.resources@[res as int].ty == t;
            assert(res != rr);
            assert(is_shared(own_of(s0, res)));
        }
        if needs_sync_ty(app, s0, t) {
            let res = choose|res: u32|
                res < app.resources@.len() && !app.resources@[res as int].mutable && is_shared(
                    #[trigger] own_of(s0, res),
                ) && app.resources@[res as int].ty == t;
            assert(res != rr);
            assert(is_shared(own_of(s1, res)));
        }
    }
}

/// The ceiling analysis proper: folds every access in order, recording
/// `Owned` on first sight and promoting to `Shared` with the running
/// maximum priority on any later sight from a different priority; the type
/// of a read-only resource joins the needs-shareable set at promotion.
#[verifier::loop_isolation(false)]
pub fn compute_ownerships(app: &App, acc: &Vec<(u8, u32)>) -> (r: (
    Vec<Option<Ownership>>,
    Vec<u32>,
))
    requires
        wf(*app),
        acc@ == accesses(*app),
        forall|k: int| 0 <= k < acc@.len() ==> (#[trigger] acc@[k]).1 < app.resources@.len(),
    ensures
        r.0@.len() == app.resources@.len(),
        forall|res: int|
            0 <= res < app.resources@.len() ==> r.0@[res] == own_of(accesses(*app), res as u32),
        forall|t: u32| r.1@.contains(t) <==> needs_sync_ty(*app, accesses(*app), t),
        forall|i: int, j: int| 0 <= i < j < r.1@.len() ==> r.1@[i] != r.1@[j],
{
    let nr = app.resources.len();
    let mut own: Vec<Option<Ownership>> = Vec::new();
    for i in 0..nr
        invariant
            own@.len() == i,
            forall|res: int| 0 <= res < i ==> own@[res] is None,
    {
        own.push(None);
    }
    let mut sync: Vec<u32> = Vec::new();
    let total = acc.len();
    proof {
        assert(forall|res: int|
            0 <= res < nr ==> own@[res] == own_of(accesses(*app).take(0), res as u32));
    }
    for k in 0..total
        invariant
            own@.len() == nr,
            forall|res: int|
                0 <= res < nr ==> own@[res] == own_of(accesses(*app).take(k as int), res as u32),
            forall|t: u32|
                sync@.contains(t) <==> needs_sync_ty(*app, accesses(*app).take(k as int), t),
            forall|i: int, j: int| 0 <= i < j < sync@.len() ==> sync@[i] != sync@[j],
    {
        let (p, rr) = acc[k];
        let idx = rr as usize;
        let ghost s0 = accesses(*app).take(k as int);
        let ghost s1 = accesses(*app).take(k as int + 1);
        proof {
            assert(s1.drop_last() =~= s0);
            assert(s1.last() == accesses(*app)[k as int]);
            assert forall|x: u32| #[trigger] own_of(s1, x) == (if x == rr {
                own_step(own_of(s0, x), p)
            } else {
                own_of(s0, x)
            }) by {
                assert(own_of(s1.drop_last(), x) == own_of(s0, x));
            }
            assert(forall|x: u32|
                is_shared(#[trigger] own_of(s0, x)) ==> is_shared(own_of(s1, x)));
            assert(own_of(s0, rr) == own@[idx as int]);
        }
        let cur = own[idx];
        match cur {
            None => {
                own[idx] = Some(Ownership::Owned { priority: p });
                proof {
                    assert(!is_shared(own_of(s1, rr)));
                    lemma_sync_same_shared(*app, s0, s1, rr);
                }
            },
            Some(Ownership::Owned { priority: c }) | Some(Ownership::Shared { ceiling: c }) => {
                if p != c {
                    let ceiling = if c < p {
                        p
                    } else {
                        c
                    };
                    own[idx] = Some(Ownership::Shared { ceiling });
                    if !app.resources[idx].mutable {
                        let ty = app.resources[idx].ty;
                        let ghost sync0 = sync@;
                        let already = contains_u32(&sync, ty);
                        if !already {
                            sync.push(ty);
                        }
                        proof {
                            if !already {
                                assert(sync@ == sync0.push(ty));
                                assert(sync@[sync0.len() as int] == ty);
                            }
                            assert(sync@.contains(ty));
                            assert forall|t: u32| #[trigger] sync@.contains(t) implies (t == ty
                                || sync0.contains(t)) by {
                                let i = choose|i: int| 0 <= i < sync@.len() && sync@[i] == t;
                                if i < sync0.len() {
                                    assert(sync0[i] == t);
                                }
                            }
                            assert forall|t: u32| sync0.contains(t) implies sync@.contains(t) by {
                                let i = choose|i: int| 0 <= i < sync0.len() && sync0[i] == t;
                                assert(sync@[i] == t);
                            }
                            assert(is_shared(own_of(s1, rr)));
                            assert(needs_sync_ty(*app, s1, ty)) by {
                                assert(rr < app.resources@.len()
                                    && !app.resources@[rr as int].mutable && is_shared(
                                    own_of(s1, rr),
                                ) && app.resources@[rr as int].ty == ty);
                            }
                            assert forall|t: u32| sync@.contains(t) implies needs_sync_ty(
                                *app,
                                s1,
                                t,
                            ) by {
                                if t != ty {
                                    assert(sync0.contains(t));
                                    lemma_sync_monotone(*app, s0, s1, t);
                                }
                            }
                            assert forall|t: u32| needs_sync_ty(*app, s1, t) implies sync@.contains(
                                t,
                            ) by {
                                let res = choose|res: u32|
                                    res < app.resources@.len()
                                        && !app.resources@[res as int].mutable && is_shared(
                                        #[trigger] own_of(s1, res),
                                    ) && app.resources@[res as int].ty == t;
                                if res == rr {
                                    assert(t == ty);
                                } else {
                                    assert(is_shared(own_of(s0, res)));
                                    assert(needs_sync_ty(*app, s0, t));
                                    assert(sync0.contains(t));
                                }
                            }
                            assert forall|i: int, j: int|
                                0 <= i < j < sync@.len() implies sync@[i] != sync@[j] by {
                                if !already && j == sync0.len() {
                                    assert(sync@[i] == sync0[i]);
                                    if sync0[i] == ty {
                                        assert(sync0.contains(ty));
                                    }
                                }
                            }
                        }
                    } else {
                        proof {
                            lemma_sync_mutable_step(*app, s0, s1, rr);
                        }
                    }
                } else {
                    proof {
                        assert(own_of(s1, rr) == own_of(s0, rr));
                        lemma_sync_same_shared(*app, s0, s1, rr);
                    }
                }
            },
        }
    }
    proof {
        assert(accesses(*app).take(total as int) =~= accesses(*app));
    }
    (own, sync)
}


/// The number of call sites in `calls` that reference task `t`.
pub open spec fn ref_count(calls: Seq<(Option<u8>, u32)>, t: u32) -> int
    decreases calls.len(),
{
    if calls.len() == 0 {
        0int
    } else {
        ref_count(calls.drop_last(), t) + if calls.last().1 == t {
            1int
        } else {
            0int
        }
    }
}

/// Every spawn and schedule call site of the application, in order.
pub open spec fn all_calls(app: App) -> Seq<(Option<u8>, u32)> {
    spawn_calls(app) + schedule_calls(app)
}

/// The effective capacity of task `t`: the number of `spawn`/`schedule`
/// references to it, or a larger declared capacity. A declared capacity
/// below the statically visible demand is ignored: the demand wins.
pub open spec fn eff_cap(app: App, t: int) -> int {
    let counted = ref_count(all_calls(app), t as u32);
    match app.tasks@[t].capacity {
        Some(c) => if c as int >= counted {
            c as int
        } else {
            counted
        },
        None => counted,
    }
}

/// The machine limits of the generated `u8` bookkeeping: each task's
/// reference count, each priority level's summed capacity, and the timer
/// queue's summed capacity must fit one byte. The original stored all
/// three in `u8` fields.
pub open spec fn capacity_limits_ok(app: App) -> bool {
    &&& forall|t: u32| t < app.tasks@.len() ==> ref_count(all_calls(app), t) <= 255
    &&& forall|p: u8| 1 <= p ==> level_cap_upto(app, p, app.tasks@.len() as int) <= 255
    &&& tq_cap_upto(app, app.tasks@.len() as int) <= 255
}

/// A call count never exceeds the number of call sites.
proof fn lemma_ref_count_bounds(calls: Seq<(Option<u8>, u32)>, t: u32)
    ensures
        0 <= ref_count(calls, t) <= calls.len(),
    decreases calls.len(),
{
    if calls.len() > 0 {
        lemma_ref_count_bounds(calls.drop_last(), t);
    }
}

/// Every effective capacity is at least zero.
proof fn lemma_eff_cap_nonneg(app: App, t: int)
    ensures
        eff_cap(app, t) >= 0,
{
    lemma_ref_count_bounds(all_calls(app), t as u32);
}

/// A prefix of the call sites references a task at most as often as the
/// whole sequence does.
proof fn lemma_ref_count_take_le(s: Seq<(Option<u8>, u32)>, k: int, t: u32)
    requires
        0 <= k <= s.len(),
    ensures
        ref_count(s.take(k), t) <= ref_count(s, t),
    decreases s.len(),
{
    if k == s.len() {
        assert(s.take(k) =~= s);
    } else {
        assert(s.take(k) =~= s.drop_last().take(k));
        lemma_ref_count_take_le(s.drop_last(), k, t);
    }
}

/// Appends one context's `(caller priority, task)` pairs.
#[verifier::loop_isolation(false)]
fn push_calls(out: &mut Vec<(Option<u8>, u32)>, priority: Option<u8>, tasks: &Vec<u32>)
    ensures
        final(out)@ == old(out)@ + ctx_calls(priority, tasks@),
{
    let n = tasks.len();
    for j in 0..n
        invariant
            out@ == old(out)@ + ctx_calls(priority, tasks@.take(j as int)),
    {
        out.push((priority, tasks[j]));
        proof {
            let pre = tasks@.take(j as int);
            assert(tasks@.take(j as int + 1) =~= pre.push(tasks@[j as int]));
            assert(ctx_calls(priority, pre.push(tasks@[j as int])) =~= ctx_calls(
                priority,
                pre,
            ).push((priority, tasks@[j as int])));
        }
    }
    proof {
        assert(tasks@.take(n as int) =~= tasks@);
    }
}

/// Every call site of a well-formed context names a declared task.
proof fn lemma_ctx_calls_bounded(priority: Option<u8>, tasks: Seq<u32>, bound: int)
    requires
        forall|i: int| 0 <= i < tasks.len() ==> tasks[i] < bound,
    ensures
        forall|k: int|
            0 <= k < ctx_calls(priority, tasks).len() ==> (#[trigger] ctx_calls(
                priority,
                tasks,
            )[k]).1 < bound,
{
}

/// Every spawn call site of a well-formed handler sequence names a declared
/// task.
proof fn lemma_handlers_spawns_bounded(hs: Seq<crate::model::Handler>, bound: int)
    requires
        forall|i: int|
            0 <= i < hs.len() ==> forall|j: int|
                0 <= j < (#[trigger] hs[i]).spawn@.len() ==> hs[i].spawn@[j] < bound,
    ensures
        forall|k: int|
            0 <= k < handlers_spawns(hs).len() ==> (#[trigger] handlers_spawns(hs)[k]).1 < bound,
    decreases hs.len(),
{
    if hs.len() > 0 {
        assert(forall|i: int|
            0 <= i < hs.drop_last().len() ==> #[trigger] hs.drop_last()[i] == hs[i]);
        lemma_handlers_spawns_bounded(hs.drop_last(), bound);
        lemma_ctx_calls_bounded(Some(hs.last().priority), hs.last().spawn@, bound);
        let pre = handlers_spawns(hs.drop_last());
        let tail = ctx_calls(Some(hs.last().priority), hs.last().spawn@);
        assert forall|k: int| 0 <= k < handlers_spawns(hs).len() implies (
        #[trigger] handlers_spawns(hs)[k]).1 < bound by {
            if k < pre.len() {
                assert(handlers_spawns(hs)[k] == pre[k]);
            } else {
                assert(handlers_spawns(hs)[k] == tail[k - pre.len()]);
            }
        }
    }
}

/// Every schedule call site of a well-formed handler sequence names a
/// declared task.
proof fn lemma_handlers_schedules_bounded(hs: Seq<crate::model::Handler>, bound: int)
    requires
        forall|i: int|
            0 <= i < hs.len() ==> forall|j: int|
                0 <= j < (#[trigger] hs[i]).schedule@.len() ==> hs[i].schedule@[j] < bound,
    ensures
        forall|k: int|
            0 <= k < handlers_schedules(hs).len() ==> (#[trigger] handlers_schedules(hs)[k]).1
                < bound,
    decreases hs.len(),
{
    if hs.len() > 0 {
        assert(forall|i: int|
            0 <= i < hs.drop_last().len() ==> #[trigger] hs.drop_last()[i] == hs[i]);
        lemma_handlers_schedules_bounded(hs.drop_last(), bound);
        lemma_ctx_calls_bounded(Some(hs.last().priority), hs.last().schedule@, bound);
        let pre = handlers_schedules(hs.drop_last());
        let tail = ctx_calls(Some(hs.last().priority), hs.last().schedule@);
        assert forall|k: int| 0 <= k < handlers_schedules(hs).len() implies (
        #[trigger] handlers_schedules(hs)[k]).1 < bound by {
            if k < pre.len() {
                assert(handlers_schedules(hs)[k] == pre[k]);
            } else {
                assert(handlers_schedules(hs)[k] == tail[k - pre.len()]);
            }
        }
    }
}

/// Every spawn call site of a well-formed task sequence names a declared
/// task.
proof fn lemma_tasks_spawns_bounded(ts: Seq<crate::model::Task>, bound: int)
    requires
        forall|i: int|
            0 <= i < ts.len() ==> forall|j: int|
                0 <= j < (#[trigger] ts[i]).spawn@.len() ==> ts[i].spawn@[j] < bound,
    ensures
        forall|k: int|
            0 <= k < tasks_spawns(ts).len() ==> (#[trigger] tasks_spawns(ts)[k]).1 < bound,
    decreases ts.len(),
{
    if ts.len() > 0 {
        assert(forall|i: int|
            0 <= i < ts.drop_last().len() ==> #[trigger] ts.drop_last()[i] == ts[i]);
        lemma_tasks_spawns_bounded(ts.drop_last(), bound);
        lemma_ctx_calls_bounded(Some(ts.last().priority), ts.last().spawn@, bound);
        let pre = tasks_spawns(ts.drop_last());
        let tail = ctx_calls(Some(ts.last().priority), ts.last().spawn@);
        assert forall|k: int| 0 <= k < tasks_spawns(ts).len() implies (
        #[trigger] tasks_spawns(ts)[k]).1 < bound by {
            if k < pre.len() {
                assert(tasks_spawns(ts)[k] == pre[k]);
            } else {
                assert(tasks_spawns(ts)[k] == tail[k - pre.len()]);
            }
        }
    }
}

/// Every schedule call site of a well-formed task sequence names a declared
/// task.
proof fn lemma_tasks_schedules_bounded(ts: Seq<crate::model::Task>, bound: int)
    requires
        forall|i: int|
            0 <= i < ts.len() ==> forall|j: int|
                0 <= j < (#[trigger] ts[i]).schedule@.len() ==> ts[i].schedule@[j] < bound,
    ensures
        forall|k: int|
            0 <= k < tasks_schedules(ts).len() ==> (#[trigger] tasks_schedules(ts)[k]).1 < bound,
    decreases ts.len(),
{
    if ts.len() > 0 {
        assert(forall|i: int|
            0 <= i < ts.drop_last().len() ==> #[trigger] ts.drop_last()[i] == ts[i]);
        lemma_tasks_schedules_bounded(ts.drop_last(), bound);
        lemma_ctx_calls_bounded(Some(ts.last().priority), ts.last().schedule@, bound);
        let pre = tasks_schedules(ts.drop_last());
        let tail = ctx_calls(Some(ts.last().priority), ts.last().schedule@);
        assert forall|k: int| 0 <= k < tasks_schedules(ts).len() implies (
        #[trigger] tasks_schedules(ts)[k]).1 < bound by {
            if k < pre.len() {
                assert(tasks_schedules(ts)[k] == pre[k]);
            } else {
                assert(tasks_schedules(ts)[k] == tail[k - pre.len()]);
            }
        }
    }
}

/// Collects every spawn call site of the application.
#[verifier::loop_isolation(false)]
pub fn collect_spawn_calls(app: &App) -> (r: Vec<(Option<u8>, u32)>)
    requires
        wf(*app),
    ensures
        r@ == spawn_calls(*app),
        forall|k: int| 0 <= k < r@.len() ==> (#[trigger] r@[k]).1 < app.tasks@.len(),
{
    let mut out: Vec<(Option<u8>, u32)> = Vec::new();
    push_calls(&mut out, None, &app.init.spawn);
    match &app.idle {
        Some(i) => push_calls(&mut out, Some(IDLE_PRIORITY), &i.spawn),
        None => {},
    }
    let ni = app.interrupts.len();
    for h in 0..ni
        invariant
            out@ == ctx_calls(None, app.init.spawn@) + idle_spawns(app.idle) + handlers_spawns(
                app.interrupts@.take(h as int),
            ),
    {
        push_calls(&mut out, Some(app.interrupts[h].priority), &app.interrupts[h].spawn);
        proof {
            let pre = app.interrupts@.take(h as int);
            let post = app.interrupts@.take(h as int + 1);
            assert(post.drop_last() =~= pre);
            assert(post.last() == app.interrupts@[h as int]);
        }
    }
    proof {
        assert(app.interrupts@.take(ni as int) =~= app.interrupts@);
    }
    let ne = app.exceptions.len();
    for h in 0..ne
        invariant
            out@ == ctx_calls(None, app.init.spawn@) + idle_spawns(app.idle) + handlers_spawns(
                app.interrupts@,
            ) + handlers_spawns(app.exceptions@.take(h as int)),
    {
        push_calls(&mut out, Some(app.exceptions[h].priority), &app.exceptions[h].spawn);
        proof {
            let pre = app.exceptions@.take(h as int);
            let post = app.exceptions@.take(h as int + 1);
            assert(post.drop_last() =~= pre);
            assert(post.last() == app.exceptions@[h as int]);
        }
    }
    proof {
        assert(app.exceptions@.take(ne as int) =~= app.exceptions@);
    }
    let nt = app.tasks.len();
    for k in 0..nt
        invariant
            out@ == ctx_calls(None, app.init.spawn@) + idle_spawns(app.idle) + handlers_spawns(
                app.interrupts@,
            ) + handlers_spawns(app.exceptions@) + tasks_spawns(app.tasks@.take(k as int)),
    {
        push_calls(&mut out, Some(app.tasks[k].priority), &app.tasks[k].spawn);
        proof {
            let pre = app.tasks@.take(k as int);
            let post = app.tasks@.take(k as int + 1);
            assert(post.drop_last() =~= pre);
            assert(post.last() == app.tasks@[k as int]);
        }
    }
    proof {
        assert(app.tasks@.take(nt as int) =~= app.tasks@);
        let bound = app.tasks@.len() as int;
        lemma_ctx_calls_bounded(None, app.init.spawn@, bound);
        match &app.idle {
            Some(i) => lemma_ctx_calls_bounded(Some(IDLE_PRIORITY), i.spawn@, bound),
            None => {},
        }
        lemma_handlers_spawns_bounded(app.interrupts@, bound);
        lemma_handlers_spawns_bounded(app.exceptions@, bound);
        lemma_tasks_spawns_bounded(app.tasks@, bound);
    }
    out
}

/// Collects every schedule call site of the application.
#[verifier::loop_isolation(false)]
pub fn collect_schedule_calls(app: &App) -> (r: Vec<(Option<u8>, u32)>)
    requires
        wf(*app),
    ensures
        r@ == schedule_calls(*app),
        forall|k: int| 0 <= k < r@.len() ==> (#[trigger] r@[k]).1 < app.tasks@.len(),
{
    let mut out: Vec<(Option<u8>, u32)> = Vec::new();
    push_calls(&mut out, None, &app.init.schedule);
    match &app.idle {
        Some(i) => push_calls(&mut out, Some(IDLE_PRIORITY), &i.schedule),
        None => {},
    }
    let ni = app.interrupts.len();
    for h in 0..ni
        invariant
            out@ == ctx_calls(None, app.init.schedule@) + idle_schedules(app.idle)
                + handlers_schedules(app.interrupts@.take(h as int)),
    {
        push_calls(&mut out, Some(app.interrupts[h].priority), &app.interrupts[h].schedule);
        proof {
            let pre = app.interrupts@.take(h as int);
            let post = app.interrupts@.take(h as int + 1);
            assert(post.drop_last() =~= pre);
            assert(post.last() == app.interrupts@[h as int]);
        }
    }
    proof {
        assert(app.interrupts@.take(ni as int) =~= app.interrupts@);
    }
    let ne = app.exceptions.len();
    for h in 0..ne
        invariant
            out@ == ctx_calls(None, app.init.schedule@) + idle_schedules(app.idle)
                + handlers_schedules(app.interrupts@) + handlers_schedules(
                app.exceptions@.take(h as int),
            ),
    {
        push_calls(&mut out, Some(app.exceptions[h].priority), &app.exceptions[h].schedule);
        proof {
            let pre = app.exceptions@.take(h as int);
            let post = app.exceptions@.take(h as int + 1);
            assert(post.drop_last() =~= pre);
            assert(post.last() == app.exceptions@[h as int]);
        }
    }
    proof {
        assert(app.exceptions@.take(ne as int) =~= app.exceptions@);
    }
    let nt = app.tasks.len();
    for k in 0..nt
        invariant
            out@ == ctx_calls(None, app.init.schedule@) + idle_schedules(app.idle)
                + handlers_schedules(app.interrupts@) + handlers_schedules(app.exceptions@)
                + tasks_schedules(app.tasks@.take(k as int)),
    {
        push_calls(&mut out, Some(app.tasks[k].priority), &app.tasks[k].schedule);
        proof {
            let pre = app.tasks@.take(k as int);
            let post = app.tasks@.take(k as int + 1);
            assert(post.drop_last() =~= pre);
            assert(post.last() == app.tasks@[k as int]);
        }
    }
    proof {
        assert(app.tasks@.take(nt as int) =~= app.tasks@);
        let bound = app.tasks@.len() as int;
        lemma_ctx_calls_bounded(None, app.init.schedule@, bound);
        match &app.idle {
            Some(i) => lemma_ctx_calls_bounded(Some(IDLE_PRIORITY), i.schedule@, bound),
            None => {},
        }
        lemma_handlers_schedules_bounded(app.interrupts@, bound);
        lemma_handlers_schedules_bounded(app.exceptions@, bound);
        lemma_tasks_schedules_bounded(app.tasks@, bound);
    }
    out
}

/// Computes every task's effective capacity: one message slot per
/// `spawn`/`schedule` reference, or the declared capacity when that is
/// larger.
#[verifier::loop_isolation(false)]
pub fn compute_capacities(
    app: &App,
    spawns: &Vec<(Option<u8>, u32)>,
    schedules: &Vec<(Option<u8>, u32)>,
) -> (r: Vec<u8>)
    requires
        wf(*app),
        spawns@ == spawn_calls(*app),
        schedules@ == schedule_calls(*app),
        forall|k: int| 0 <= k < spawns@.len() ==> (#[trigger] spawns@[k]).1 < app.tasks@.len(),
        forall|k: int|
            0 <= k < schedules@.len() ==> (#[trigger] schedules@[k]).1 < app.tasks@.len(),
        forall|t: u32| t < app.tasks@.len() ==> ref_count(all_calls(*app), t) <= 255,
    ensures
        r@.len() == app.tasks@.len(),
        forall|t: int| 0 <= t < app.tasks@.len() ==> r@[t] == eff_cap(*app, t),
{
    let nt = app.tasks.len();
    let mut counts: Vec<u8> = Vec::new();
    for i in 0..nt
        invariant
            counts@.len() == i,
            forall|t: int| 0 <= t < i ==> counts@[t] == 0,
    {
        counts.push(0);
    }
    let ghost all = all_calls(*app);
    proof {
        assert(all.take(0) =~= Seq::empty());
        assert forall|t: int| 0 <= t < nt implies counts@[t] == ref_count(all.take(0), t as u32) by {
        }
    }
    let ns = spawns.len();
    for k in 0..ns
        invariant
            counts@.len() == nt,
            forall|t: int|
                0 <= t < nt ==> counts@[t] == ref_count(all.take(k as int), t as u32),
    {
        let (_, t) = spawns[k];
        proof {
            assert(all.take(k as int + 1).drop_last() =~= all.take(k as int));
            assert(all[k as int] == spawns@[k as int]);
            assert(all.take(k as int + 1).last() == all[k as int]);
            lemma_ref_count_take_le(all, k as int + 1, t);
        }
        let ti = t as usize;
        let c = counts[ti];
        counts[ti] = c + 1;
    }
    let nsc = schedules.len();
    for k in 0..nsc
        invariant
            counts@.len() == nt,
            forall|t: int|
                0 <= t < nt ==> counts@[t] == ref_count(all.take(ns + k as int), t as u32),
    {
        let (_, t) = schedules[k];
        proof {
            assert(all.take(ns + k as int + 1).drop_last() =~= all.take(ns + k as int));
            assert(all[ns + k as int] == schedules@[k as int]);
            assert(all.take(ns + k as int + 1).last() == all[ns + k as int]);
            lemma_ref_count_take_le(all, ns + k as int + 1, t);
        }
        let ti = t as usize;
        let c = counts[ti];
        counts[ti] = c + 1;
    }
    proof {
        assert(all.take(ns + nsc as int) =~= all);
    }
    let mut caps: Vec<u8> = Vec::new();
    for t in 0..nt
        invariant
            counts@.len() == nt,
            forall|t2: int| 0 <= t2 < nt ==> counts@[t2] == ref_count(all, t2 as u32),
            caps@.len() == t,
            forall|t2: int| 0 <= t2 < t ==> caps@[t2] == eff_cap(*app, t2),
    {
        let counted = counts[t];
        let c = match app.tasks[t].capacity {
            Some(d) => if d >= counted {
                d
            } else {
                counted
            },
            None => counted,
        };
        caps.push(c);
    }
    caps
}


/// The shape of the single timer queue: capacity, ceiling, priority, and
/// the set of schedulable tasks.
pub struct TimerQueue {
    /// Sum of the capacities of every schedulable task.
    pub capacity: u8,
    /// Priority ceiling of the queue: its own priority raised to that of
    /// every `schedule` caller.
    pub ceiling: u8,
    /// Priority the SysTick handler runs at: the maximum priority of any
    /// schedulable task, at least 1.
    pub priority: u8,
    /// The schedulable tasks, first `schedule` reference first.
    pub tasks: Vec<u32>,
}

/// Whether some `schedule` call site references task `t`.
pub open spec fn is_scheduled(app: App, t: u32) -> bool {
    exists|i: int|
        0 <= i < schedule_calls(app).len() && (#[trigger] schedule_calls(app)[i]).1 == t
}

/// The running maximum of the priorities of the scheduled tasks, from 1.
pub open spec fn tq_priority_fold(app: App, s: Seq<(Option<u8>, u32)>) -> u8
    decreases s.len(),
{
    if s.len() == 0 {
        1u8
    } else {
        max2(tq_priority_fold(app, s.drop_last()), app.tasks@[s.last().1 as int].priority)
    }
}

/// The running maximum of the priorities of the `schedule` callers over
/// `base`; `init` call sites are excluded.
pub open spec fn tq_ceiling_fold(s: Seq<(Option<u8>, u32)>, base: u8) -> u8
    decreases s.len(),
{
    if s.len() == 0 {
        base
    } else {
        match s.last().0 {
            Some(p) => max2(tq_ceiling_fold(s.drop_last(), base), p),
            None => tq_ceiling_fold(s.drop_last(), base),
        }
    }
}

/// The summed capacities of the schedulable tasks among the first `k`.
pub open spec fn tq_cap_upto(app: App, k: int) -> int
    decreases k,
{
    if k <= 0 {
        0int
    } else {
        tq_cap_upto(app, k - 1) + if is_scheduled(app, (k - 1) as u32) {
            eff_cap(app, k - 1)
        } else {
            0int
        }
    }
}

/// A prefix of the scheduled-capacity sum is bounded by any longer one.
proof fn lemma_tq_cap_monotone(app: App, a: int, b: int)
    requires
        0 <= a <= b,
    ensures
        tq_cap_upto(app, a) <= tq_cap_upto(app, b),
    decreases b - a,
{
    if a < b {
        lemma_tq_cap_monotone(app, a, b - 1);
        lemma_eff_cap_nonneg(app, b - 1);
    }
}

/// Computes the timer queue: which tasks can be scheduled, the priority it
/// runs at, its ceiling, and its capacity.
#[verifier::loop_isolation(false)]
pub fn compute_timer_queue(
    app: &App,
    schedules: &Vec<(Option<u8>, u32)>,
    caps: &Vec<u8>,
) -> (r: TimerQueue)
    requires
        wf(*app),
        schedules@ == schedule_calls(*app),
        forall|k: int|
            0 <= k < schedules@.len() ==> (#[trigger] schedules@[k]).1 < app.tasks@.len(),
        caps@.len() == app.tasks@.len(),
        forall|t: int| 0 <= t < app.tasks@.len() ==> caps@[t] == eff_cap(*app, t),
        tq_cap_upto(*app, app.tasks@.len() as int) <= 255,
    ensures
        forall|t: u32| r.tasks@.contains(t) <==> is_scheduled(*app, t),
        forall|i: int, j: int| 0 <= i < j < r.tasks@.len() ==> r.tasks@[i] != r.tasks@[j],
        r.priority == tq_priority_fold(*app, schedule_calls(*app)),
        r.ceiling == tq_ceiling_fold(schedule_calls(*app), tq_priority_fold(*app, schedule_calls(*app))),
        r.capacity == tq_cap_upto(*app, app.tasks@.len() as int),
{
    let nsc = schedules.len();
    let mut tqt: Vec<u32> = Vec::new();
    let mut pr: u8 = 1;
    for k in 0..nsc
        invariant
            forall|x: u32|
                tqt@.contains(x) <==> exists|i: int|
                    0 <= i < k && (#[trigger] schedules@[i]).1 == x,
            forall|i: int, j: int| 0 <= i < j < tqt@.len() ==> tqt@[i] != tqt@[j],
            pr == tq_priority_fold(*app, schedules@.take(k as int)),
    {
        let (_, t) = schedules[k];
        proof {
            assert(schedules@.take(k as int + 1).drop_last() =~= schedules@.take(k as int));
            assert(schedules@.take(k as int + 1).last() == schedules@[k as int]);
        }
        let ghost pre = tqt@;
        let already = contains_u32(&tqt, t);
        if !already {
            tqt.push(t);
        }
        let tp = app.tasks[t as usize].priority;
        if tp > pr {
            pr = tp;
        }
        proof {
            if !already {
                assert(tqt@ == pre.push(t));
                assert(tqt@[pre.len() as int] == t);
            }
            assert(tqt@.contains(t));
            assert forall|x: u32| #[trigger] tqt@.contains(x) implies (x == t || pre.contains(
                x,
            )) by {
                let i = choose|i: int| 0 <= i < tqt@.len() && tqt@[i] == x;
                if i < pre.len() {
                    assert(pre[i] == x);
                }
            }
            assert forall|x: u32| pre.contains(x) implies tqt@.contains(x) by {
                let i = choose|i: int| 0 <= i < pre.len() && pre[i] == x;
                assert(tqt@[i] == x);
            }
            assert forall|x: u32| #[trigger] tqt@.contains(x) implies exists|i: int|
                0 <= i < k + 1 && (#[trigger] schedules@[i]).1 == x by {
                if x == t {
                    assert(schedules@[k as int].1 == x);
                } else {
                    assert(pre.contains(x));
                }
            }
            assert forall|x: u32| (exists|i: int|
                0 <= i < k + 1 && (#[trigger] schedules@[i]).1 == x) implies tqt@.contains(x) by {
                let i = choose|i: int| 0 <= i < k + 1 && (#[trigger] schedules@[i]).1 == x;
                if i == k {
                    assert(x == t);
                } else {
                    assert(pre.contains(x));
                }
            }
            assert forall|i: int, j: int|
                0 <= i < j < tqt@.len() implies tqt@[i] != tqt@[j] by {
                if !already && j == pre.len() {
                    assert(tqt@[i] == pre[i]);
                    if pre[i] == t {
                        assert(pre.contains(t));
                    }
                }
            }
        }
    }
    proof {
        assert(schedules@.take(nsc as int) =~= schedules@);
    }
    let mut ce: u8 = pr;
    for k in 0..nsc
        invariant
            ce == tq_ceiling_fold(schedules@.take(k as int), pr),
    {
        proof {
            assert(schedules@.take(k as int + 1).drop_last() =~= schedules@.take(k as int));
            assert(schedules@.take(k as int + 1).last() == schedules@[k as int]);
        }
        match schedules[k].0 {
            Some(p) => {
                if p > ce {
                    ce = p;
                }
            },
            None => {},
        }
    }
    proof {
        assert(schedules@.take(nsc as int) =~= schedules@);
    }
    let nt = app.tasks.len();
    let mut cap: u8 = 0;
    for t in 0..nt
        invariant
            cap == tq_cap_upto(*app, t as int),
            forall|x: u32|
                tqt@.contains(x) <==> is_scheduled(*app, x),
    {
        proof {
            lemma_tq_cap_monotone(*app, 0, t as int);
            lemma_tq_cap_monotone(*app, t as int + 1, app.tasks@.len() as int);
            lemma_eff_cap_nonneg(*app, t as int);
        }
        if contains_u32(&tqt, t as u32) {
            let c = caps[t];
            cap = cap + c;
        }
    }
    TimerQueue { capacity: cap, ceiling: ce, priority: pr, tasks: tqt }
}

/// Timer-queue priority, classified: the fold is the maximum priority of
/// any scheduled task, floored at 1.
pub proof fn lemma_tq_priority_is_max(app: App, s: Seq<(Option<u8>, u32)>)
    ensures
        tq_priority_fold(app, s) >= 1,
        forall|i: int|
            0 <= i < s.len() ==> app.tasks@[(#[trigger] s[i]).1 as int].priority
                <= tq_priority_fold(app, s),
        tq_priority_fold(app, s) == 1 || exists|i: int|
            0 <= i < s.len() && app.tasks@[(#[trigger] s[i]).1 as int].priority
                == tq_priority_fold(app, s),
    decreases s.len(),
{
    if s.len() > 0 {
        lemma_tq_priority_is_max(app, s.drop_last());
        assert(forall|i: int|
            0 <= i < s.len() - 1 ==> #[trigger] s.drop_last()[i] == s[i]);
        let m = tq_priority_fold(app, s);
        let mp = tq_priority_fold(app, s.drop_last());
        assert forall|i: int| 0 <= i < s.len() implies app.tasks@[(#[trigger] s[i]).1
            as int].priority <= m by {
            if i < s.len() - 1 {
                assert(s.drop_last()[i] == s[i]);
                assert(app.tasks@[(s.drop_last()[i]).1 as int].priority <= mp);
            } else {
                assert(s[i] == s.last());
            }
        }
        if m != 1 {
            if m == app.tasks@[s.last().1 as int].priority {
                assert(app.tasks@[(s[s.len() - 1]).1 as int].priority == m);
            } else {
                assert(m == mp);
                let i = choose|i: int|
                    0 <= i < s.drop_last().len() && app.tasks@[(#[trigger] s.drop_last()[i]).1
                        as int].priority == mp;
                assert(app.tasks@[(s[i]).1 as int].priority == m);
            }
        }
    }
}

/// Timer-queue ceiling, classified: the fold is the maximum of `base` and
/// every non-`init` caller priority.
pub proof fn lemma_tq_ceiling_is_max(s: Seq<(Option<u8>, u32)>, base: u8)
    ensures
        tq_ceiling_fold(s, base) >= base,
        forall|i: int|
            0 <= i < s.len() ==> ((#[trigger] s[i]).0 matches Some(p) ==> p <= tq_ceiling_fold(
                s,
                base,
            )),
        tq_ceiling_fold(s, base) == base || exists|i: int|
            0 <= i < s.len() && (#[trigger] s[i]).0 == Some(tq_ceiling_fold(s, base)),
    decreases s.len(),
{
    if s.len() > 0 {
        lemma_tq_ceiling_is_max(s.drop_last(), base);
        assert(forall|i: int|
            0 <= i < s.len() - 1 ==> #[trigger] s.drop_last()[i] == s[i]);
        let m = tq_ceiling_fold(s, base);
        let mp = tq_ceiling_fold(s.drop_last(), base);
        assert forall|i: int| 0 <= i < s.len() implies ((#[trigger] s[i]).0 matches Some(p)
            ==> p <= m) by {
            if i < s.len() - 1 {
                assert(s.drop_last()[i] == s[i]);
                assert((s.drop_last()[i]).0 matches Some(p) ==> p <= mp);
            } else {
                assert(s[i] == s.last());
            }
        }
        if m != base {
            if s.last().0 == Some(m) {
                assert(s[s.len() - 1].0 == Some(m));
            } else {
                assert(m == mp);
                let i = choose|i: int|
                    0 <= i < s.drop_last().len() && (#[trigger] s.drop_last()[i]).0 == Some(mp);
                assert(s[i].0 == Some(m));
            }
        }
    }
}

/// Resource ownership, classified: a resource never accessed has no record;
/// one accessed from exactly one priority is `Owned` at it; one accessed
/// from two or more distinct priorities is `Shared` with ceiling the
/// maximum accessing priority.
pub proof fn lemma_ownership_classifies(s: Seq<(u8, u32)>, r: u32)
    ensures
        prios_of(s, r).len() == 0 ==> own_of(s, r) is None,
        prios_of(s, r).len() > 0 && uniform(prios_of(s, r)) ==> own_of(s, r) == Some(
            Ownership::Owned { priority: prios_of(s, r)[0] },
        ),
        prios_of(s, r).len() > 0 && !uniform(prios_of(s, r)) ==> own_of(s, r) == Some(
            Ownership::Shared { ceiling: max_prio_of(prios_of(s, r)) },
        ),
    decreases s.len(),
{
    if s.len() > 0 {
        lemma_ownership_classifies(s.drop_last(), r);
        let prev = prios_of(s.drop_last(), r);
        let q = prios_of(s, r);
        let p = s.last().0;
        if s.last().1 == r {
            assert(q == prev.push(p));
            assert(q[q.len() - 1] == p);
            if prev.len() > 0 {
                assert(q[0] == prev[0]);
                assert(forall|i: int| 0 <= i < prev.len() ==> #[trigger] q[i] == prev[i]);
                assert(max_prio_of(q) == max2(max_prio_of(prev), p)) by {
                    assert(q.drop_last() =~= prev);
                    assert(q.last() == p);
                    assert(max_prio_of(q) == max2(max_prio_of(q.drop_last()), q.last()));
                }
                if uniform(q) {
                    assert forall|i: int| 0 <= i < prev.len() implies #[trigger] prev[i]
                        == prev[0] by {
                        assert(q[i] == q[0]);
                    }
                    assert(uniform(prev));
                    assert(q[q.len() - 1] == q[0]);
                    lemma_uniform_max(prev);
                    assert(own_of(s, r) == own_step(own_of(s.drop_last(), r), p));
                } else {
                    if uniform(prev) {
                        lemma_uniform_max(prev);
                        if p == prev[0] {
                            assert forall|i: int| 0 <= i < q.len() implies #[trigger] q[i]
                                == q[0] by {
                                if i < prev.len() {
                                    assert(prev[i] == prev[0]);
                                } else {
                                    assert(q[i] == p);
                                }
                            }
                            assert(false);
                        }
                        assert(own_of(s.drop_last(), r) == Some(
                            Ownership::Owned { priority: prev[0] },
                        ));
                        assert(own_of(s, r) == Some(
                            Ownership::Shared { ceiling: max2(prev[0], p) },
                        ));
                    } else {
                        assert(own_of(s.drop_last(), r) == Some(
                            Ownership::Shared { ceiling: max_prio_of(prev) },
                        ));
                    }
                }
            } else {
                assert(q.len() == 1);
                assert(q[0] == p);
                assert(uniform(q));
                assert(max_prio_of(q) == p) by {
                    assert(q.drop_last() =~= prev);
                    assert(prev.len() == 0);
                    assert(max_prio_of(prev) == 0);
                    assert(q.last() == p);
                    assert(max_prio_of(q) == max2(max_prio_of(q.drop_last()), q.last()));
                }
                assert(own_of(s, r) == Some(Ownership::Owned { priority: p }));
            }
        } else {
            assert(q == prev);
            assert(own_of(s, r) == own_of(s.drop_last(), r));
        }
    }
}

/// A uniform nonempty priority sequence has its first element as maximum.
proof fn lemma_uniform_max(q: Seq<u8>)
    requires
        q.len() > 0,
        uniform(q),
    ensures
        max_prio_of(q) == q[0],
    decreases q.len(),
{
    let d = q.drop_last();
    if q.len() > 1 {
        assert(forall|i: int| 0 <= i < d.len() ==> #[trigger] d[i] == q[i]);
        assert forall|i: int| 0 <= i < d.len() implies #[trigger] d[i] == d[0] by {
            assert(q[i] == q[0]);
        }
        lemma_uniform_max(d);
        assert(d[0] == q[0]);
        assert(q.last() == q[q.len() - 1]);
        assert(q[q.len() - 1] == q[0]);
        assert(max_prio_of(q) == max2(max_prio_of(d), q.last()));
    } else {
        assert(d.len() == 0);
        assert(max_prio_of(d) == 0);
        assert(q.last() == q[0]);
        assert(max_prio_of(q) == max2(max_prio_of(d), q.last()));
    }
}


/// The maximum of a priority sequence dominates every element.
proof fn lemma_max_prio_dominates(q: Seq<u8>)
    ensures
        forall|i: int| 0 <= i < q.len() ==> #[trigger] q[i] <= max_prio_of(q),
    decreases q.len(),
{
    if q.len() > 0 {
        lemma_max_prio_dominates(q.drop_last());
        assert(forall|i: int|
            0 <= i < q.len() - 1 ==> #[trigger] q.drop_last()[i] == q[i]);
        assert forall|i: int| 0 <= i < q.len() implies #[trigger] q[i] <= max_prio_of(q) by {
            if i < q.len() - 1 {
                assert(q.drop_last()[i] == q[i]);
                assert(q.drop_last()[i] <= max_prio_of(q.drop_last()));
            }
        }
    }
}

/// Stack Resource Policy ceilings: every access to a resource happens at
/// or below the priority its ownership record carries, so raising to that
/// ceiling inside a lock masks every other accessor.
pub proof fn lemma_ceiling_dominates_accessors(s: Seq<(u8, u32)>, r: u32)
    ensures
        forall|i: int|
            0 <= i < prios_of(s, r).len() ==> #[trigger] prios_of(s, r)[i] <= (match own_of(
                s,
                r,
            ) {
                Some(Ownership::Owned { priority }) => priority,
                Some(Ownership::Shared { ceiling }) => ceiling,
                None => 0,
            }),
{
    lemma_ownership_classifies(s, r);
    lemma_max_prio_dominates(prios_of(s, r));
    let q = prios_of(s, r);
    if q.len() > 0 && uniform(q) {
        assert(forall|i: int| 0 <= i < q.len() ==> #[trigger] q[i] == q[0]);
    }
}

/// Needs-shareable, classified: a type joins the set exactly when some
/// read-only resource of that type is accessed from two or more distinct
/// priorities.
pub proof fn lemma_needs_sync_classifies(app: App, t: u32)
    ensures
        needs_sync_ty(app, accesses(app), t) <==> exists|res: u32|
            res < app.resources@.len() && !app.resources@[res as int].mutable
                && app.resources@[res as int].ty == t && (#[trigger] prios_of(
                accesses(app),
                res,
            )).len() > 0 && !uniform(prios_of(accesses(app), res)),
{
    let s = accesses(app);
    assert forall|res: u32| res < app.resources@.len() implies (#[trigger] is_shared(
        own_of(s, res),
    )) == ((#[trigger] prios_of(s, res)).len() > 0 && !uniform(prios_of(s, res))) by {
        lemma_ownership_classifies(s, res);
    }
    if needs_sync_ty(app, s, t) {
        let res = choose|res: u32|
            res < app.resources@.len() && !app.resources@[res as int].mutable && is_shared(
                #[trigger] own_of(s, res),
            ) && app.resources@[res as int].ty == t;
        assert(prios_of(s, res).len() > 0 && !uniform(prios_of(s, res)));
    }
    if exists|res: u32|
        res < app.resources@.len() && !app.resources@[res as int].mutable
            && app.resources@[res as int].ty == t && (#[trigger] prios_of(s, res)).len() > 0
            && !uniform(prios_of(s, res)) {
        let res = choose|res: u32|
            res < app.resources@.len() && !app.resources@[res as int].mutable
                && app.resources@[res as int].ty == t && (#[trigger] prios_of(s, res)).len() > 0
                && !uniform(prios_of(s, res));
        assert(is_shared(own_of(s, res)));
        assert(needs_sync_ty(app, s, t));
    }
}


/// A fatal condition the analysis itself detects.
#[derive(Clone, Copy, Debug, PartialEq, Eq, Structural)]
pub enum AnalysisError {
    /// More distinct task priority levels than free interrupt vectors.
    NotEnoughFreeInterrupts,
}

/// One priority level's dispatcher: a borrowed free interrupt vector and
/// the tasks it drains.
pub struct Dispatcher {
    /// The logical priority level this dispatcher serves.
    pub priority: u8,
    /// The free interrupt vector assigned to it.
    pub interrupt: u32,
    /// Indices of the tasks dispatched at this level, declaration order.
    pub tasks: Vec<u32>,
    /// Ready-queue capacity: the summed capacities of those tasks.
    pub capacity: u8,
}

/// The indices of the tasks at priority `p` among the first `k` declared.
pub open spec fn level_tasks_upto(app: App, p: u8, k: int) -> Seq<u32>
    decreases k,
{
    if k <= 0 {
        Seq::empty()
    } else {
        let pre = level_tasks_upto(app, p, k - 1);
        if app.tasks@[k - 1].priority == p {
            pre.push((k - 1) as u32)
        } else {
            pre
        }
    }
}

/// The indices of the tasks at priority `p`, declaration order.
pub open spec fn level_tasks(app: App, p: u8) -> Seq<u32> {
    level_tasks_upto(app, p, app.tasks@.len() as int)
}

/// The summed capacities of the tasks at priority `p` among the first `k`.
pub open spec fn level_cap_upto(app: App, p: u8, k: int) -> int
    decreases k,
{
    if k <= 0 {
        0int
    } else {
        level_cap_upto(app, p, k - 1) + if app.tasks@[k - 1].priority == p {
            eff_cap(app, k - 1)
        } else {
            0int
        }
    }
}

/// A prefix of a level's capacity sum is bounded by any longer one.
proof fn lemma_level_cap_monotone(app: App, p: u8, a: int, b: int)
    requires
        0 <= a <= b,
    ensures
        level_cap_upto(app, p, a) <= level_cap_upto(app, p, b),
    decreases b - a,
{
    if a < b {
        lemma_level_cap_monotone(app, p, a, b - 1);
        lemma_eff_cap_nonneg(app, b - 1);
    }
}

/// The number of distinct priority levels in `1..=p` that hold a task.
pub open spec fn n_levels_upto(app: App, p: int) -> int
    decreases p,
{
    if p <= 0 {
        0int
    } else {
        n_levels_upto(app, p - 1) + if level_tasks(app, p as u8).len() > 0 {
            1int
        } else {
            0int
        }
    }
}

/// The level count is monotone in the priority bound.
proof fn lemma_n_levels_monotone(app: App, a: int, b: int)
    requires
        0 <= a <= b,
    ensures
        n_levels_upto(app, a) <= n_levels_upto(app, b),
    decreases b - a,
{
    if a < b {
        lemma_n_levels_monotone(app, a, b - 1);
    }
}

/// Assigns one dispatcher per distinct task priority level, ascending, each
/// consuming the next interrupt of the free pool; fails when the pool is
/// too small.
#[verifier::loop_isolation(false)]
pub fn assign_dispatchers(app: &App, caps: &Vec<u8>) -> (r: Result<
    Vec<Dispatcher>,
    AnalysisError,
>)
    requires
        wf(*app),
        caps@.len() == app.tasks@.len(),
        forall|t: int| 0 <= t < app.tasks@.len() ==> caps@[t] == eff_cap(*app, t),
        forall|p: u8| 1 <= p ==> level_cap_upto(*app, p, app.tasks@.len() as int) <= 255,
    ensures
        r matches Ok(ds) ==> {
            &&& ds@.len() == n_levels_upto(*app, 255)
            &&& ds@.len() <= app.free_interrupts@.len()
            &&& forall|i: int|
                0 <= i < ds@.len() ==> (#[trigger] ds@[i]).interrupt == app.free_interrupts@[i]
            &&& forall|i: int|
                0 <= i < ds@.len() ==> (#[trigger] ds@[i]).tasks@ == level_tasks(
                    *app,
                    ds@[i].priority,
                )
            &&& forall|i: int| 0 <= i < ds@.len() ==> (#[trigger] ds@[i]).tasks@.len() > 0
            &&& forall|i: int|
                0 <= i < ds@.len() ==> (#[trigger] ds@[i]).capacity == level_cap_upto(
                    *app,
                    ds@[i].priority,
                    app.tasks@.len() as int,
                )
            &&& forall|i: int, j: int|
                0 <= i < j < ds@.len() ==> ds@[i].priority < ds@[j].priority
            &&& forall|q: u8|
                level_tasks(*app, q).len() > 0 <==> exists|i: int|
                    0 <= i < ds@.len() && (#[trigger] ds@[i]).priority == q
        },
        r is Err <==> n_levels_upto(*app, 255) > app.free_interrupts@.len(),
{
    let nt = app.tasks.len();
    let mut ds: Vec<Dispatcher> = Vec::new();
    proof {
        assert(level_tasks(*app, 0u8).len() == 0) by {
            lemma_level_zero_empty(*app, nt as int);
        }
    }
    for p16 in 1u16..256u16
        invariant
            ds@.len() == n_levels_upto(*app, p16 as int - 1),
            ds@.len() <= app.free_interrupts@.len(),
            forall|i: int|
                0 <= i < ds@.len() ==> (#[trigger] ds@[i]).interrupt == app.free_interrupts@[i],
            forall|i: int|
                0 <= i < ds@.len() ==> (#[trigger] ds@[i]).tasks@ == level_tasks(
                    *app,
                    ds@[i].priority,
                ),
            forall|i: int| 0 <= i < ds@.len() ==> (#[trigger] ds@[i]).tasks@.len() > 0,
            forall|i: int|
                0 <= i < ds@.len() ==> (#[trigger] ds@[i]).capacity == level_cap_upto(
                    *app,
                    ds@[i].priority,
                    app.tasks@.len() as int,
                ),
            forall|i: int| 0 <= i < ds@.len() ==> (#[trigger] ds@[i]).priority < p16,
            forall|i: int, j: int| 0 <= i < j < ds@.len() ==> ds@[i].priority < ds@[j].priority,
            forall|q: u8|
                q < p16 ==> (level_tasks(*app, q).len() > 0 <==> exists|i: int|
                    0 <= i < ds@.len() && (#[trigger] ds@[i]).priority == q),
    {
        let p = p16 as u8;
        let mut at: Vec<u32> = Vec::new();
        for t in 0..nt
            invariant
                at@ == level_tasks_upto(*app, p, t as int),
        {
            if app.tasks[t].priority == p {
                at.push(t as u32);
            }
        }
        let ghost ds0 = ds@;
        if at.len() > 0 {
            if ds.len() == app.free_interrupts.len() {
                proof {
                    assert(n_levels_upto(*app, p16 as int) == n_levels_upto(*app, p16 as int - 1)
                        + 1);
                    lemma_n_levels_monotone(*app, p16 as int, 255);
                }
                return Err(AnalysisError::NotEnoughFreeInterrupts);
            }
            let mut dcap: u8 = 0;
            for t in 0..nt
                invariant
                    dcap == level_cap_upto(*app, p, t as int),
            {
                proof {
                    lemma_level_cap_monotone(*app, p, 0, t as int);
                    lemma_level_cap_monotone(*app, p, t as int + 1, app.tasks@.len() as int);
                    lemma_eff_cap_nonneg(*app, t as int);
                }
                if app.tasks[t].priority == p {
                    let c = caps[t];
                    dcap = dcap + c;
                }
            }
            let interrupt = app.free_interrupts[ds.len()];
            ds.push(Dispatcher { priority: p, interrupt, tasks: at, capacity: dcap });
            proof {
                assert(ds@ == ds0.push(ds@[ds0.len() as int]));
                assert(forall|i: int| 0 <= i < ds0.len() ==> #[trigger] ds@[i] == ds0[i]);
                assert(ds@[ds0.len() as int].priority == p);
                assert(n_levels_upto(*app, p16 as int) == n_levels_upto(*app, p16 as int - 1)
                    + 1);
                assert forall|q: u8|
                    q < p16 + 1 implies (level_tasks(*app, q).len() > 0 <==> exists|i: int|
                        0 <= i < ds@.len() && (#[trigger] ds@[i]).priority == q) by {
                    if q == p {
                        assert(ds@[ds0.len() as int].priority == q);
                    } else {
                        if level_tasks(*app, q).len() > 0 && q < p16 {
                            let i = choose|i: int|
                                0 <= i < ds0.len() && (#[trigger] ds0[i]).priority == q;
                            assert(ds@[i].priority == q);
                        }
                        if exists|i: int|
                            0 <= i < ds@.len() && (#[trigger] ds@[i]).priority == q {
                            let i = choose|i: int|
                                0 <= i < ds@.len() && (#[trigger] ds@[i]).priority == q;
                            assert(i < ds0.len());
                            assert(ds0[i].priority == q);
                        }
                    }
                }
            }
        } else {
            proof {
                assert(n_levels_upto(*app, p16 as int) == n_levels_upto(*app, p16 as int - 1));
                assert forall|q: u8|
                    q < p16 + 1 implies (level_tasks(*app, q).len() > 0 <==> exists|i: int|
                        0 <= i < ds@.len() && (#[trigger] ds@[i]).priority == q) by {
                    if q == p {
                        assert(level_tasks(*app, q).len() == 0);
                        if exists|i: int|
                            0 <= i < ds@.len() && (#[trigger] ds@[i]).priority == q {
                            let i = choose|i: int|
                                0 <= i < ds@.len() && (#[trigger] ds@[i]).priority == q;
                            assert(ds@[i].priority < p16);
                            assert(false);
                        }
                    }
                }
            }
        }
    }
    proof {
        assert forall|q: u8|
            level_tasks(*app, q).len() > 0 implies exists|i: int|
                0 <= i < ds@.len() && (#[trigger] ds@[i]).priority == q by {
            assert(q < 256);
        }
    }
    Ok(ds)
}

/// No task sits at priority zero in a well-formed application.
proof fn lemma_level_zero_empty(app: App, k: int)
    requires
        wf(app),
        k <= app.tasks@.len(),
    ensures
        level_tasks_upto(app, 0u8, k).len() == 0,
    decreases k,
{
    if k > 0 {
        lemma_level_zero_empty(app, k - 1);
    }
}

/// The running free-queue ceiling of task `t`: the maximum priority of any
/// non-`init` `spawn` or `schedule` caller that references it.
pub open spec fn fq_ceiling_fold(s: Seq<(Option<u8>, u32)>, t: u32) -> u8
    decreases s.len(),
{
    if s.len() == 0 {
        0u8
    } else {
        let prev = fq_ceiling_fold(s.drop_last(), t);
        if s.last().1 == t {
            match s.last().0 {
                Some(p) => max2(prev, p),
                None => prev,
            }
        } else {
            prev
        }
    }
}

/// Computes every task's free-queue ceiling from the spawn and schedule
/// call sites; `spawn`s and `schedule`s from `init` are excluded.
#[verifier::loop_isolation(false)]
pub fn compute_free_queues(
    app: &App,
    spawns: &Vec<(Option<u8>, u32)>,
    schedules: &Vec<(Option<u8>, u32)>,
) -> (r: Vec<u8>)
    requires
        wf(*app),
        spawns@ == spawn_calls(*app),
        schedules@ == schedule_calls(*app),
        forall|k: int| 0 <= k < spawns@.len() ==> (#[trigger] spawns@[k]).1 < app.tasks@.len(),
        forall|k: int|
            0 <= k < schedules@.len() ==> (#[trigger] schedules@[k]).1 < app.tasks@.len(),
    ensures
        r@.len() == app.tasks@.len(),
        forall|t: int|
            0 <= t < app.tasks@.len() ==> r@[t] == fq_ceiling_fold(all_calls(*app), t as u32),
{
    let nt = app.tasks.len();
    let mut fq: Vec<u8> = Vec::new();
    for i in 0..nt
        invariant
            fq@.len() == i,
            forall|t: int| 0 <= t < i ==> fq@[t] == 0,
    {
        fq.push(0);
    }
    let ghost all = all_calls(*app);
    proof {
        assert(all.take(0) =~= Seq::empty());
    }
    let ns = spawns.len();
    for k in 0..ns
        invariant
            fq@.len() == nt,
            forall|t: int| 0 <= t < nt ==> fq@[t] == fq_ceiling_fold(all.take(k as int), t as u32),
    {
        proof {
            assert(all.take(k as int + 1).drop_last() =~= all.take(k as int));
            assert(all[k as int] == spawns@[k as int]);
            assert(all.take(k as int + 1).last() == all[k as int]);
        }
        let (po, t) = spawns[k];
        match po {
            Some(p) => {
                let ti = t as usize;
                if p > fq[ti] {
                    fq[ti] = p;
                }
            },
            None => {},
        }
    }
    let nsc = schedules.len();
    for k in 0..nsc
        invariant
            fq@.len() == nt,
            forall|t: int|
                0 <= t < nt ==> fq@[t] == fq_ceiling_fold(all.take(ns + k as int), t as u32),
    {
        proof {
            assert(all.take(ns + k as int + 1).drop_last() =~= all.take(ns + k as int));
            assert(all[ns + k as int] == schedules@[k as int]);
            assert(all.take(ns + k as int + 1).last() == all[ns + k as int]);
        }
        let (po, t) = schedules[k];
        match po {
            Some(p) => {
                let ti = t as usize;
                if p > fq[ti] {
                    fq[ti] = p;
                }
            },
            None => {},
        }
    }
    proof {
        assert(all.take(ns + nsc as int) =~= all);
    }
    fq
}

/// The running ready-queue ceiling of a priority level: the maximum
/// priority of any non-`init` `spawn` caller that targets a task of that
/// level.
pub open spec fn rq_ceiling_fold(app: App, s: Seq<(Option<u8>, u32)>, level: u8) -> u8
    decreases s.len(),
{
    if s.len() == 0 {
        0u8
    } else {
        let prev = rq_ceiling_fold(app, s.drop_last(), level);
        match s.last().0 {
            Some(p) => if app.tasks@[s.last().1 as int].priority == level {
                max2(prev, p)
            } else {
                prev
            },
            None => prev,
        }
    }
}

/// Computes each dispatcher's ready-queue ceiling from the spawn call
/// sites.
#[verifier::loop_isolation(false)]
pub fn compute_ready_queues(
    app: &App,
    spawns: &Vec<(Option<u8>, u32)>,
    ds: &Vec<Dispatcher>,
) -> (r: Vec<u8>)
    requires
        wf(*app),
        spawns@ == spawn_calls(*app),
        forall|k: int| 0 <= k < spawns@.len() ==> (#[trigger] spawns@[k]).1 < app.tasks@.len(),
    ensures
        r@.len() == ds@.len(),
        forall|i: int|
            0 <= i < ds@.len() ==> r@[i] == rq_ceiling_fold(
                *app,
                spawn_calls(*app),
                ds@[i].priority,
            ),
{
    let nd = ds.len();
    let ns = spawns.len();
    let mut rq: Vec<u8> = Vec::new();
    for i in 0..nd
        invariant
            rq@.len() == i,
            forall|i2: int|
                0 <= i2 < i ==> rq@[i2] == rq_ceiling_fold(
                    *app,
                    spawn_calls(*app),
                    ds@[i2].priority,
                ),
    {
        let level = ds[i].priority;
        let mut ce: u8 = 0;
        for k in 0..ns
            invariant
                ce == rq_ceiling_fold(*app, spawns@.take(k as int), level),
        {
            proof {
                assert(spawns@.take(k as int + 1).drop_last() =~= spawns@.take(k as int));
                assert(spawns@.take(k as int + 1).last() == spawns@[k as int]);
            }
            let (po, t) = spawns[k];
            match po {
                Some(p) => {
                    if app.tasks[t as usize].priority == level {
                        if p > ce {
                            ce = p;
                        }
                    }
                },
                None => {},
            }
        }
        proof {
            assert(spawns@.take(ns as int) =~= spawns@);
        }
        rq.push(ce);
    }
    rq
}

/// Whether one spawn call site makes task `t`'s payload cross priorities:
/// a non-`init` caller whose priority differs from the task's.
pub open spec fn spawn_mismatch(app: App, c: (Option<u8>, u32), t: u32) -> bool {
    c.1 == t && match c.0 {
        Some(p) => p != app.tasks@[t as int].priority,
        None => false,
    }
}

/// Whether task `t`'s message payload must be transferable across
/// contexts: it is spawned or scheduled from `init`, or spawned from a
/// priority other than its own.
pub open spec fn needs_send_spec(app: App, t: u32) -> bool {
    app.init.spawn@.contains(t) || app.init.schedule@.contains(t) || exists|i: int|
        0 <= i < spawn_calls(app).len() && spawn_mismatch(app, #[trigger] spawn_calls(app)[i], t)
}

/// Computes which tasks' payloads must be transferable across contexts.
#[verifier::loop_isolation(false)]
pub fn compute_needs_send(app: &App, spawns: &Vec<(Option<u8>, u32)>) -> (r: Vec<bool>)
    requires
        wf(*app),
        spawns@ == spawn_calls(*app),
        forall|k: int| 0 <= k < spawns@.len() ==> (#[trigger] spawns@[k]).1 < app.tasks@.len(),
    ensures
        r@.len() == app.tasks@.len(),
        forall|t: u32| t < app.tasks@.len() ==> (r@[t as int] <==> needs_send_spec(*app, t)),
{
    let nt = app.tasks.len();
    let mut send: Vec<bool> = Vec::new();
    for i in 0..nt
        invariant
            send@.len() == i,
            forall|t: int| 0 <= t < i ==> send@[t] == false,
    {
        send.push(false);
    }
    let nis = app.init.spawn.len();
    for k in 0..nis
        invariant
            send@.len() == nt,
            forall|t: u32|
                t < nt ==> (send@[t as int] <==> exists|i: int|
                    0 <= i < k && app.init.spawn@[i] == t),
    {
        let t = app.init.spawn[k];
        let ti = t as usize;
        send[ti] = true;
        proof {
            assert forall|x: u32| x < nt implies (send@[x as int] <==> exists|i: int|
                0 <= i < k + 1 && app.init.spawn@[i] == x) by {
                if x == t {
                    assert(app.init.spawn@[k as int] == x);
                } else {
                    if exists|i: int| 0 <= i < k + 1 && app.init.spawn@[i] == x {
                        let i = choose|i: int| 0 <= i < k + 1 && app.init.spawn@[i] == x;
                        assert(i < k);
                    }
                }
            }
        }
    }
    proof {
        assert forall|t: u32| t < nt implies ((exists|i: int|
            0 <= i < nis && app.init.spawn@[i] == t) <==> app.init.spawn@.contains(t)) by {}
    }
    let nic = app.init.schedule.len();
    for k in 0..nic
        invariant
            send@.len() == nt,
            forall|t: u32|
                t < nt ==> (send@[t as int] <==> app.init.spawn@.contains(t) || exists|i: int|
                    0 <= i < k && app.init.schedule@[i] == t),
    {
        let t = app.init.schedule[k];
        let ti = t as usize;
        send[ti] = true;
        proof {
            assert forall|x: u32| x < nt implies (send@[x as int]
                <==> app.init.spawn@.contains(x) || exists|i: int|
                0 <= i < k + 1 && app.init.schedule@[i] == x) by {
                if x == t {
                    assert(app.init.schedule@[k as int] == x);
                } else {
                    if exists|i: int| 0 <= i < k + 1 && app.init.schedule@[i] == x {
                        let i = choose|i: int| 0 <= i < k + 1 && app.init.schedule@[i] == x;
                        assert(i < k);
                    }
                }
            }
        }
    }
    proof {
        assert forall|t: u32| t < nt implies ((exists|i: int|
            0 <= i < nic && app.init.schedule@[i] == t) <==> app.init.schedule@.contains(t)) by {}
    }
    let ns = spawns.len();
    for k in 0..ns
        invariant
            send@.len() == nt,
            forall|t: u32|
                t < nt ==> (send@[t as int] <==> app.init.spawn@.contains(t)
                    || app.init.schedule@.contains(t) || exists|i: int|
                    0 <= i < k && spawn_mismatch(*app, #[trigger] spawns@[i], t)),
    {
        let (po, t) = spawns[k];
        let ti = t as usize;
        let mut hit = false;
        match po {
            Some(p) => {
                if p != app.tasks[ti].priority {
                    send[ti] = true;
                    hit = true;
                }
            },
            None => {},
        }
        proof {
            assert forall|x: u32| x < nt implies (send@[x as int]
                <==> app.init.spawn@.contains(x) || app.init.schedule@.contains(x)
                || exists|i: int|
                0 <= i < k + 1 && spawn_mismatch(*app, #[trigger] spawns@[i], x)) by {
                if x == t && hit {
                    assert(spawn_mismatch(*app, spawns@[k as int], x));
                } else {
                    if exists|i: int|
                        0 <= i < k + 1 && spawn_mismatch(*app, #[trigger] spawns@[i], x) {
                        let i = choose|i: int|
                            0 <= i < k + 1 && spawn_mismatch(*app, #[trigger] spawns@[i], x);
                        if i == k {
                            assert(x == t);
                            assert(hit);
                        }
                    }
                }
            }
        }
    }
    send
}

/// Everything the analysis derives from a well-formed application.
pub struct Analysis {
    /// Effective capacity of each task, by task index.
    pub capacities: Vec<u8>,
    /// One dispatcher per distinct task priority level, ascending.
    pub dispatchers: Vec<Dispatcher>,
    /// Free-queue ceiling of each task, by task index.
    pub free_queues: Vec<u8>,
    /// Whether each task's payload must be transferable across contexts.
    pub needs_send: Vec<bool>,
    /// Types of read-only resources that must be shareable across
    /// priorities, without duplicates.
    pub needs_sync: Vec<u32>,
    /// Ownership of each resource, by resource index; `None` when nothing
    /// accesses it.
    pub ownerships: Vec<Option<Ownership>>,
    /// Ready-queue ceiling of each dispatcher, parallel to `dispatchers`.
    pub ready_queues: Vec<u8>,
    /// The single timer queue.
    pub timer_queue: TimerQueue,
}

/// The ownership map the analysis computes, at the spec level: one record
/// per declared resource, folded from the full access sequence.
pub open spec fn spec_ownerships(app: App) -> Seq<Option<Ownership>> {
    Seq::new(app.resources@.len() as nat, |r: int| own_of(accesses(app), r as u32))
}

/// What the analysis promises of its output, clause by clause.
pub open spec fn analysis_valid(app: App, a: Analysis) -> bool {
    &&& a.ownerships@.len() == app.resources@.len()
    &&& forall|res: int|
        0 <= res < app.resources@.len() ==> a.ownerships@[res] == own_of(
            accesses(app),
            res as u32,
        )
    &&& forall|t: u32| a.needs_sync@.contains(t) <==> needs_sync_ty(app, accesses(app), t)
    &&& forall|i: int, j: int|
        0 <= i < j < a.needs_sync@.len() ==> a.needs_sync@[i] != a.needs_sync@[j]
    &&& a.capacities@.len() == app.tasks@.len()
    &&& forall|t: int| 0 <= t < app.tasks@.len() ==> a.capacities@[t] == eff_cap(app, t)
    &&& forall|t: u32| a.timer_queue.tasks@.contains(t) <==> is_scheduled(app, t)
    &&& forall|i: int, j: int|
        0 <= i < j < a.timer_queue.tasks@.len() ==> a.timer_queue.tasks@[i]
            != a.timer_queue.tasks@[j]
    &&& a.timer_queue.priority == tq_priority_fold(app, schedule_calls(app))
    &&& a.timer_queue.ceiling == tq_ceiling_fold(
        schedule_calls(app),
        tq_priority_fold(app, schedule_calls(app)),
    )
    &&& a.timer_queue.capacity == tq_cap_upto(app, app.tasks@.len() as int)
    &&& a.dispatchers@.len() == n_levels_upto(app, 255)
    &&& a.dispatchers@.len() <= app.free_interrupts@.len()
    &&& forall|i: int|
        0 <= i < a.dispatchers@.len() ==> (#[trigger] a.dispatchers@[i]).interrupt
            == app.free_interrupts@[i]
    &&& forall|i: int|
        0 <= i < a.dispatchers@.len() ==> (#[trigger] a.dispatchers@[i]).tasks@ == level_tasks(
            app,
            a.dispatchers@[i].priority,
        )
    &&& forall|i: int| 0 <= i < a.dispatchers@.len() ==> (#[trigger] a.dispatchers@[i]).tasks@.len() > 0
    &&& forall|i: int|
        0 <= i < a.dispatchers@.len() ==> (#[trigger] a.dispatchers@[i]).capacity
            == level_cap_upto(app, a.dispatchers@[i].priority, app.tasks@.len() as int)
    &&& forall|i: int, j: int|
        0 <= i < j < a.dispatchers@.len() ==> a.dispatchers@[i].priority
            < a.dispatchers@[j].priority
    &&& forall|q: u8|
        level_tasks(app, q).len() > 0 <==> exists|i: int|
            0 <= i < a.dispatchers@.len() && (#[trigger] a.dispatchers@[i]).priority == q
    &&& a.ready_queues@.len() == a.dispatchers@.len()
    &&& forall|i: int|
        0 <= i < a.dispatchers@.len() ==> a.ready_queues@[i] == rq_ceiling_fold(
            app,
            spawn_calls(app),
            a.dispatchers@[i].priority,
        )
    &&& a.free_queues@.len() == app.tasks@.len()
    &&& forall|t: int|
        0 <= t < app.tasks@.len() ==> a.free_queues@[t] == fq_ceiling_fold(
            all_calls(app),
            t as u32,
        )
    &&& a.needs_send@.len() == app.tasks@.len()
    &&& forall|t: u32| t < app.tasks@.len() ==> (a.needs_send@[t as int] <==> needs_send_spec(app, t))
}

/// Analyzes a checked application: resource ownership and ceilings, task
/// capacities, dispatcher assignment, queue ceilings, the timer queue, and
/// the thread-safety obligations. Fails exactly when the free-interrupt
/// pool has fewer vectors than the application has distinct task priority
/// levels.
pub fn app(model: &App) -> (r: Result<Analysis, AnalysisError>)
    requires
        wf(*model),
        capacity_limits_ok(*model),
    ensures
        r matches Ok(a) ==> analysis_valid(*model, a),
        r is Err <==> n_levels_upto(*model, 255) > model.free_interrupts@.len(),
{
    let acc = collect_accesses(model);
    let (ownerships, needs_sync) = compute_ownerships(model, &acc);
    let spawns = collect_spawn_calls(model);
    let schedules = collect_schedule_calls(model);
    let capacities = compute_capacities(model, &spawns, &schedules);
    let timer_queue = compute_timer_queue(model, &schedules, &capacities);
    let dispatchers = match assign_dispatchers(model, &capacities) {
        Ok(ds) => ds,
        Err(e) => {
            return Err(e);
        },
    };
    let ready_queues = compute_ready_queues(model, &spawns, &dispatchers);
    let free_queues = compute_free_queues(model, &spawns, &schedules);
    let needs_send = compute_needs_send(model, &spawns);
    Ok(
        Analysis {
            capacities,
            dispatchers,
            free_queues,
            needs_send,
            needs_sync,
            ownerships,
            ready_queues,
            timer_queue,
        },
    )
}

/// Task capacity, classified: every task's capacity covers the number of
/// `spawn`/`schedule` references to it, and any declared capacity.
pub proof fn lemma_capacity_covers_demand(app: App, t: int)
    requires
        0 <= t < app.tasks@.len(),
    ensures
        eff_cap(app, t) >= ref_count(all_calls(app), t as u32),
        app.tasks@[t].capacity matches Some(c) ==> eff_cap(app, t) >= c,
{
}

/// Dispatcher assignment, classified: when the free-interrupt pool has no
/// repeated vector, dispatchers of distinct priority levels hold distinct
/// interrupts.
pub proof fn lemma_dispatchers_distinct(app: App, a: Analysis)
    requires
        analysis_valid(app, a),
        forall|i: int, j: int|
            0 <= i < j < app.free_interrupts@.len() ==> app.free_interrupts@[i]
                != app.free_interrupts@[j],
    ensures
        forall|i: int, j: int|
            0 <= i < j < a.dispatchers@.len() ==> (#[trigger] a.dispatchers@[i]).priority != (
            #[trigger] a.dispatchers@[j]).priority,
        forall|i: int, j: int|
            0 <= i < j < a.dispatchers@.len() ==> (#[trigger] a.dispatchers@[i]).interrupt != (
            #[trigger] a.dispatchers@[j]).interrupt,
{
}

} // verus!
