//! Structural validation of the application description, independent of
//! priorities: every reference names a declaration, handler names are
//! unique, the free-interrupt pool is sound, priorities fit the device, and
//! no referenced task declares a zero capacity. A model that passes is
//! well-formed in the sense the analysis requires.

use vstd::prelude::*;

use crate::model::{wf, wf_handler, wf_task, App, Handler};

verus! {

/// A structural fault in the application description, carrying what a
/// source span would carry: the offending reference, name, priority or
/// declaration index. Within one kind of fault the first offender is
/// reported.
#[derive(Clone, Copy, Debug, PartialEq, Eq, Structural)]
pub enum CheckError {
    /// More declarations than references can address.
    TooManyDeclarations,
    /// The device's priority-bit count is outside `1..=8`.
    BadPriorityBits,
    /// Some context references an undeclared resource index, carried here.
    UndeclaredResource(u32),
    /// Some context references an undeclared task index, carried here.
    UndeclaredTask(u32),
    /// Some handler or task carries this priority, which is 0 or above
    /// `1 << nvic_prio_bits`.
    PriorityOutOfRange(u8),
    /// Two interrupt handlers share this vector.
    DuplicateInterrupt(u32),
    /// Two exception handlers share this name.
    DuplicateException(u32),
    /// The free-interrupt pool lists this vector twice.
    DuplicateFreeInterrupt(u32),
    /// This vector of the free-interrupt pool is also an interrupt handler.
    FreeInterruptUsedAsHandler(u32),
    /// The task at this index declares capacity 0 but is referenced by
    /// `spawn`/`schedule`.
    ZeroCapacityReferenced(u32),
}

/// Whether declaration counts fit the reference width.
pub open spec fn sizes_ok(app: App) -> bool {
    app.resources@.len() <= u32::MAX as int && app.tasks@.len() <= u32::MAX as int
}

/// Whether every resource and task reference of every context names a
/// declaration, ignoring priorities.
pub open spec fn refs_ok(app: App) -> bool {
    let nr = app.resources@.len() as int;
    let nt = app.tasks@.len() as int;
    &&& crate::model::ctx_refs_ok(
        app.init.resources@,
        app.init.spawn@,
        app.init.schedule@,
        nr,
        nt,
    )
    &&& match app.idle {
        Some(i) => crate::model::ctx_refs_ok(i.resources@, i.spawn@, i.schedule@, nr, nt),
        None => true,
    }
    &&& forall|i: int|
        0 <= i < app.interrupts@.len() ==> {
            let h = #[trigger] app.interrupts@[i];
            crate::model::ctx_refs_ok(h.resources@, h.spawn@, h.schedule@, nr, nt)
        }
    &&& forall|i: int|
        0 <= i < app.exceptions@.len() ==> {
            let h = #[trigger] app.exceptions@[i];
            crate::model::ctx_refs_ok(h.resources@, h.spawn@, h.schedule@, nr, nt)
        }
    &&& forall|i: int|
        0 <= i < app.tasks@.len() ==> {
            let t = #[trigger] app.tasks@[i];
            crate::model::ctx_refs_ok(t.resources@, t.spawn@, t.schedule@, nr, nt)
        }
}

/// Whether every handler and task priority lies in `1..=(1 << bits)`.
pub open spec fn prios_ok(app: App) -> bool {
    let b = app.nvic_prio_bits;
    &&& forall|i: int|
        0 <= i < app.interrupts@.len() ==> {
            let h = #[trigger] app.interrupts@[i];
            1 <= h.priority && h.priority as u16 <= (1u16 << b)
        }
    &&& forall|i: int|
        0 <= i < app.exceptions@.len() ==> {
            let h = #[trigger] app.exceptions@[i];
            1 <= h.priority && h.priority as u16 <= (1u16 << b)
        }
    &&& forall|i: int|
        0 <= i < app.tasks@.len() ==> {
            let t = #[trigger] app.tasks@[i];
            1 <= t.priority && t.priority as u16 <= (1u16 << b)
        }
}

/// Whether a handler sequence has pairwise distinct names.
pub open spec fn handlers_distinct(hs: Seq<Handler>) -> bool {
    forall|i: int, j: int| 0 <= i < j < hs.len() ==> hs[i].name != hs[j].name
}

/// Whether the free-interrupt pool is pairwise distinct.
pub open spec fn free_distinct(app: App) -> bool {
    forall|i: int, j: int|
        0 <= i < j < app.free_interrupts@.len() ==> app.free_interrupts@[i]
            != app.free_interrupts@[j]
}

/// Whether no vector of the free pool is also an interrupt handler.
pub open spec fn free_not_handler(app: App) -> bool {
    forall|i: int, j: int|
        0 <= i < app.free_interrupts@.len() && 0 <= j < app.interrupts@.len()
            ==> #[trigger] app.free_interrupts@[i] != (#[trigger] app.interrupts@[j]).name
}

/// Whether some context's resource list contains the reference `x`.
pub open spec fn lists_resource(app: App, x: u32) -> bool {
    ||| app.init.resources@.contains(x)
    ||| match app.idle {
        Some(i) => i.resources@.contains(x),
        None => false,
    }
    ||| exists|h: int|
        0 <= h < app.interrupts@.len() && (#[trigger] app.interrupts@[h]).resources@.contains(x)
    ||| exists|h: int|
        0 <= h < app.exceptions@.len() && (#[trigger] app.exceptions@[h]).resources@.contains(x)
    ||| exists|t: int|
        0 <= t < app.tasks@.len() && (#[trigger] app.tasks@[t]).resources@.contains(x)
}

/// Whether some context's spawn or schedule list contains the reference
/// `x`.
pub open spec fn lists_task_ref(app: App, x: u32) -> bool {
    ||| app.init.spawn@.contains(x)
    ||| app.init.schedule@.contains(x)
    ||| match app.idle {
        Some(i) => i.spawn@.contains(x) || i.schedule@.contains(x),
        None => false,
    }
    ||| exists|h: int|
        0 <= h < app.interrupts@.len() && ((#[trigger] app.interrupts@[h]).spawn@.contains(x)
            || app.interrupts@[h].schedule@.contains(x))
    ||| exists|h: int|
        0 <= h < app.exceptions@.len() && ((#[trigger] app.exceptions@[h]).spawn@.contains(x)
            || app.exceptions@[h].schedule@.contains(x))
    ||| exists|t: int|
        0 <= t < app.tasks@.len() && ((#[trigger] app.tasks@[t]).spawn@.contains(x)
            || app.tasks@[t].schedule@.contains(x))
}

/// Whether some handler or task is declared at priority `p`.
pub open spec fn has_priority(app: App, p: u8) -> bool {
    ||| exists|h: int|
        0 <= h < app.interrupts@.len() && (#[trigger] app.interrupts@[h]).priority == p
    ||| exists|h: int|
        0 <= h < app.exceptions@.len() && (#[trigger] app.exceptions@[h]).priority == p
    ||| exists|t: int| 0 <= t < app.tasks@.len() && (#[trigger] app.tasks@[t]).priority == p
}

/// Whether some `spawn` or `schedule` list of any context references task
/// index `t`.
pub open spec fn task_referenced(app: App, t: u32) -> bool {
    exists|i: int|
        0 <= i < crate::analyze::all_calls(app).len() && (#[trigger] crate::analyze::all_calls(
            app,
        )[i]).1 == t
}

/// Whether no referenced task declares capacity 0.
pub open spec fn caps_ok(app: App) -> bool {
    forall|t: int|
        0 <= t < app.tasks@.len() ==> ((#[trigger] app.tasks@[t]).capacity == Some(0u8)
            ==> !task_referenced(app, t as u32))
}

/// Everything the structural check demands.
pub open spec fn check_ok(app: App) -> bool {
    &&& sizes_ok(app)
    &&& 1 <= app.nvic_prio_bits <= 8
    &&& refs_ok(app)
    &&& prios_ok(app)
    &&& handlers_distinct(app.interrupts@)
    &&& handlers_distinct(app.exceptions@)
    &&& free_distinct(app)
    &&& free_not_handler(app)
    &&& caps_ok(app)
}

/// A checked application is well-formed in the analysis's sense.
pub proof fn lemma_check_ok_wf(app: App)
    requires
        check_ok(app),
    ensures
        wf(app),
{
    let nr = app.resources@.len() as int;
    let nt = app.tasks@.len() as int;
    assert forall|i: int| 0 <= i < app.interrupts@.len() implies wf_handler(
        #[trigger] app.interrupts@[i],
        nr,
        nt,
        app.nvic_prio_bits,
    ) by {
        assert(app.interrupts@[i] == app.interrupts@[i]);
    }
    assert forall|i: int| 0 <= i < app.exceptions@.len() implies wf_handler(
        #[trigger] app.exceptions@[i],
        nr,
        nt,
        app.nvic_prio_bits,
    ) by {
        assert(app.exceptions@[i] == app.exceptions@[i]);
    }
    assert forall|i: int| 0 <= i < app.tasks@.len() implies wf_task(
        #[trigger] app.tasks@[i],
        nr,
        nt,
        app.nvic_prio_bits,
    ) by {
        assert(app.tasks@[i] == app.tasks@[i]);
    }
}

/// The first reference of a list that lies outside the declaration count.
#[verifier::loop_isolation(false)]
fn first_out_of_range(list: &Vec<u32>, bound: usize) -> (r: Option<u32>)
    ensures
        r is None <==> (forall|i: int| 0 <= i < list@.len() ==> #[trigger] list@[i] < bound),
        r matches Some(x) ==> list@.contains(x) && x as int >= bound,
{
    let n = list.len();
    for i in 0..n
        invariant
            forall|k: int| 0 <= k < i ==> #[trigger] list@[k] < bound,
    {
        if list[i] as usize >= bound {
            proof {
                assert(list@.contains(list@[i as int]));
            }
            return Some(list[i]);
        }
    }
    None
}

/// Checks one context's reference lists against the declaration counts,
/// reporting the first out-of-range resource and task reference.
#[verifier::loop_isolation(false)]
fn ctx_refs_valid(resources: &Vec<u32>, spawn: &Vec<u32>, schedule: &Vec<u32>, nr: usize, nt: usize) -> (r: (
    Option<u32>,
    Option<u32>,
))
    ensures
        r.0 is None <==> (forall|i: int| 0 <= i < resources@.len() ==> #[trigger] resources@[i]
            < nr),
        r.0 matches Some(x) ==> resources@.contains(x) && x as int >= nr,
        r.1 is None <==> ((forall|i: int| 0 <= i < spawn@.len() ==> #[trigger] spawn@[i] < nt) && (
        forall|i: int| 0 <= i < schedule@.len() ==> #[trigger] schedule@[i] < nt)),
        r.1 matches Some(x) ==> (spawn@.contains(x) || schedule@.contains(x)) && x as int >= nt,
{
    let rf = first_out_of_range(resources, nr);
    let sf = match first_out_of_range(spawn, nt) {
        Some(x) => Some(x),
        None => first_out_of_range(schedule, nt),
    };
    (rf, sf)
}

/// Walks every context and reports the first out-of-bounds reference.
#[verifier::loop_isolation(false)]
fn check_refs(model: &App) -> (r: Option<CheckError>)
    ensures
        r is None <==> refs_ok(*model),
        r matches Some(e) ==> (e is UndeclaredResource || e is UndeclaredTask),
        r matches Some(e) ==> (e matches CheckError::UndeclaredResource(x) ==> lists_resource(
            *model,
            x,
        ) && x as int >= model.resources@.len()),
        r matches Some(e) ==> (e matches CheckError::UndeclaredTask(x) ==> lists_task_ref(
            *model,
            x,
        ) && x as int >= model.tasks@.len()),
{
    let nr = model.resources.len();
    let nt = model.tasks.len();
    let (a, b) = ctx_refs_valid(
        &model.init.resources,
        &model.init.spawn,
        &model.init.schedule,
        nr,
        nt,
    );
    match a {
        Some(x) => {
            return Some(CheckError::UndeclaredResource(x));
        },
        None => {},
    }
    match b {
        Some(x) => {
            return Some(CheckError::UndeclaredTask(x));
        },
        None => {},
    }
    match &model.idle {
        Some(i) => {
            let (a, b) = ctx_refs_valid(&i.resources, &i.spawn, &i.schedule, nr, nt);
            match a {
                Some(x) => {
                    return Some(CheckError::UndeclaredResource(x));
                },
                None => {},
            }
            match b {
                Some(x) => {
                    return Some(CheckError::UndeclaredTask(x));
                },
                None => {},
            }
        },
        None => {},
    }
    let ni = model.interrupts.len();
    for h in 0..ni
        invariant
            forall|i: int|
                0 <= i < h ==> {
                    let hh = #[trigger] model.interrupts@[i];
                    crate::model::ctx_refs_ok(
                        hh.resources@,
                        hh.spawn@,
                        hh.schedule@,
                        nr as int,
                        nt as int,
                    )
                },
    {
        let hh = &model.interrupts[h];
        let (a, b) = ctx_refs_valid(&hh.resources, &hh.spawn, &hh.schedule, nr, nt);
        match a {
            Some(x) => {
                proof {
                    assert(model.interrupts@[h as int].resources@.contains(x));
                }
                return Some(CheckError::UndeclaredResource(x));
            },
            None => {},
        }
        match b {
            Some(x) => {
                proof {
                    assert(model.interrupts@[h as int].spawn@.contains(x)
                        || model.interrupts@[h as int].schedule@.contains(x));
                }
                return Some(CheckError::UndeclaredTask(x));
            },
            None => {},
        }
    }
    let ne = model.exceptions.len();
    for h in 0..ne
        invariant
            forall|i: int|
                0 <= i < h ==> {
                    let hh = #[trigger] model.exceptions@[i];
                    crate::model::ctx_refs_ok(
                        hh.resources@,
                        hh.spawn@,
                        hh.schedule@,
                        nr as int,
                        nt as int,
                    )
                },
    {
        let hh = &model.exceptions[h];
        let (a, b) = ctx_refs_valid(&hh.resources, &hh.spawn, &hh.schedule, nr, nt);
        match a {
            Some(x) => {
                proof {
                    assert(model.exceptions@[h as int].resources@.contains(x));
                }
                return Some(CheckError::UndeclaredResource(x));
            },
            None => {},
        }
        match b {
            Some(x) => {
                proof {
                    assert(model.exceptions@[h as int].spawn@.contains(x)
                        || model.exceptions@[h as int].schedule@.contains(x));
                }
                return Some(CheckError::UndeclaredTask(x));
            },
            None => {},
        }
    }
    for t in 0..nt
        invariant
            forall|i: int|
                0 <= i < t ==> {
                    let tt = #[trigger] model.tasks@[i];
                    crate::model::ctx_refs_ok(
                        tt.resources@,
                        tt.spawn@,
                        tt.schedule@,
                        nr as int,
                        nt as int,
                    )
                },
    {
        let tt = &model.tasks[t];
        let (a, b) = ctx_refs_valid(&tt.resources, &tt.spawn, &tt.schedule, nr, nt);
        match a {
            Some(x) => {
                proof {
                    assert(model.tasks@[t as int].resources@.contains(x));
                }
                return Some(CheckError::UndeclaredResource(x));
            },
            None => {},
        }
        match b {
            Some(x) => {
                proof {
                    assert(model.tasks@[t as int].spawn@.contains(x)
                        || model.tasks@[t as int].schedule@.contains(x));
                }
                return Some(CheckError::UndeclaredTask(x));
            },
            None => {},
        }
    }
    None
}

/// Walks every handler and task and reports the first priority outside
/// the device.
#[verifier::loop_isolation(false)]
fn check_prios(model: &App) -> (r: Option<u8>)
    requires
        1 <= model.nvic_prio_bits <= 8,
    ensures
        r is None <==> prios_ok(*model),
        r matches Some(p) ==> has_priority(*model, p) && (p < 1 || p as u16 > (1u16
            << model.nvic_prio_bits)),
{
    let bits = model.nvic_prio_bits;
    let top: u16 = 1u16 << bits;
    let ni = model.interrupts.len();
    for h in 0..ni
        invariant
            forall|i: int|
                0 <= i < h ==> {
                    let hh = #[trigger] model.interrupts@[i];
                    1 <= hh.priority && hh.priority as u16 <= top
                },
    {
        let p = model.interrupts[h].priority;
        if p < 1 || p as u16 > top {
            proof {
                assert(model.interrupts@[h as int].priority == p);
            }
            return Some(p);
        }
    }
    let ne = model.exceptions.len();
    for h in 0..ne
        invariant
            forall|i: int|
                0 <= i < h ==> {
                    let hh = #[trigger] model.exceptions@[i];
                    1 <= hh.priority && hh.priority as u16 <= top
                },
    {
        let p = model.exceptions[h].priority;
        if p < 1 || p as u16 > top {
            proof {
                assert(model.exceptions@[h as int].priority == p);
            }
            return Some(p);
        }
    }
    let nt = model.tasks.len();
    for t in 0..nt
        invariant
            forall|i: int|
                0 <= i < t ==> {
                    let tt = #[trigger] model.tasks@[i];
                    1 <= tt.priority && tt.priority as u16 <= top
                },
    {
        let p = model.tasks[t].priority;
        if p < 1 || p as u16 > top {
            proof {
                assert(model.tasks@[t as int].priority == p);
            }
            return Some(p);
        }
    }
    None
}

/// Whether a `u32` occurs among the names of a handler slice.
#[verifier::loop_isolation(false)]
fn name_among(hs: &Vec<Handler>, x: u32) -> (r: bool)
    ensures
        r == exists|i: int| 0 <= i < hs@.len() && (#[trigger] hs@[i]).name == x,
{
    let n = hs.len();
    for i in 0..n
        invariant
            forall|k: int| 0 <= k < i ==> (#[trigger] hs@[k]).name != x,
    {
        if hs[i].name == x {
            return true;
        }
    }
    false
}

/// The first name a handler sequence repeats, if any.
#[verifier::loop_isolation(false)]
fn handlers_duplicate(hs: &Vec<Handler>) -> (r: Option<u32>)
    ensures
        r is None <==> handlers_distinct(hs@),
        r matches Some(x) ==> exists|a: int, b: int|
            0 <= a < b < hs@.len() && (#[trigger] hs@[a]).name == x && (#[trigger] hs@[b]).name
                == x,
{
    let n = hs.len();
    for i in 0..n
        invariant
            forall|a: int, b: int| 0 <= a < b < n && a < i ==> hs@[a].name != hs@[b].name,
    {
        for j in (i + 1)..n
            invariant
                forall|a: int, b: int| 0 <= a < b < n && a < i ==> hs@[a].name != hs@[b].name,
                forall|b: int| i < b < j ==> hs@[i as int].name != hs@[b].name,
        {
            if hs[i].name == hs[j].name {
                proof {
                    assert(hs@[i as int].name == hs@[j as int].name);
                }
                return Some(hs[i].name);
            }
        }
    }
    None
}

/// Marks which tasks some `spawn` or `schedule` list references; the model
/// must be well-formed.
#[verifier::loop_isolation(false)]
fn mark_referenced(model: &App) -> (r: Vec<bool>)
    requires
        wf(*model),
    ensures
        r@.len() == model.tasks@.len(),
        forall|t: u32| t < model.tasks@.len() ==> (r@[t as int] <==> task_referenced(*model, t)),
{
    let nt = model.tasks.len();
    let spawns = crate::analyze::collect_spawn_calls(model);
    let schedules = crate::analyze::collect_schedule_calls(model);
    let mut referenced: Vec<bool> = Vec::new();
    for i in 0..nt
        invariant
            referenced@.len() == i,
            forall|t2: int| 0 <= t2 < i ==> referenced@[t2] == false,
    {
        referenced.push(false);
    }
    let ghost all = crate::analyze::all_calls(*model);
    let ns = spawns.len();
    for k in 0..ns
        invariant
            referenced@.len() == nt,
            forall|t2: u32|
                t2 < nt ==> (referenced@[t2 as int] <==> exists|i: int|
                    0 <= i < k && (#[trigger] all[i]).1 == t2),
    {
        proof {
            assert(all[k as int] == spawns@[k as int]);
        }
        let (_, t) = spawns[k];
        referenced[t as usize] = true;
        proof {
            assert forall|x: u32| x < nt implies (referenced@[x as int] <==> exists|i: int|
                0 <= i < k + 1 && (#[trigger] all[i]).1 == x) by {
                if x == t {
                    assert(all[k as int].1 == x);
                } else {
                    if exists|i: int| 0 <= i < k + 1 && (#[trigger] all[i]).1 == x {
                        let i = choose|i: int| 0 <= i < k + 1 && (#[trigger] all[i]).1 == x;
                        assert(i < k);
                    }
                }
            }
        }
    }
    let nsc = schedules.len();
    for k in 0..nsc
        invariant
            referenced@.len() == nt,
            forall|t2: u32|
                t2 < nt ==> (referenced@[t2 as int] <==> exists|i: int|
                    0 <= i < ns + k && (#[trigger] all[i]).1 == t2),
    {
        proof {
            assert(all[ns + k as int] == schedules@[k as int]);
        }
        let (_, t) = schedules[k];
        referenced[t as usize] = true;
        proof {
            assert forall|x: u32| x < nt implies (referenced@[x as int] <==> exists|i: int|
                0 <= i < ns + k + 1 && (#[trigger] all[i]).1 == x) by {
                if x == t {
                    assert(all[ns + k as int].1 == x);
                } else {
                    if exists|i: int| 0 <= i < ns + k + 1 && (#[trigger] all[i]).1 == x {
                        let i = choose|i: int| 0 <= i < ns + k + 1 && (#[trigger] all[i]).1 == x;
                        assert(i < ns + k);
                    }
                }
            }
        }
    }
    referenced
}

/// Structural check of the model: referenced declarations exist, names
/// are unique, the free pool is sound, priorities fit the device, and no
/// referenced task declares capacity 0. Within one kind of fault the
/// first offender is reported, and each fault names it, as a source span
/// would; a model that passes satisfies `check_ok` exactly.
#[verifier::loop_isolation(false)]
pub fn app(model: &App) -> (r: Result<(), CheckError>)
    ensures
        r is Ok <==> check_ok(*model),
        r == Err::<(), CheckError>(CheckError::TooManyDeclarations) ==> !sizes_ok(*model),
        r == Err::<(), CheckError>(CheckError::BadPriorityBits) ==> !(1 <= model.nvic_prio_bits
            <= 8),
        r matches Err(CheckError::UndeclaredResource(x)) ==> lists_resource(*model, x) && x as int
            >= model.resources@.len(),
        r matches Err(CheckError::UndeclaredTask(x)) ==> lists_task_ref(*model, x) && x as int
            >= model.tasks@.len(),
        r matches Err(CheckError::PriorityOutOfRange(p)) ==> has_priority(*model, p) && (p < 1
            || p as u16 > (1u16 << model.nvic_prio_bits)),
        r matches Err(CheckError::DuplicateInterrupt(x)) ==> exists|a: int, b: int|
            0 <= a < b < model.interrupts@.len() && (#[trigger] model.interrupts@[a]).name == x
                && (#[trigger] model.interrupts@[b]).name == x,
        r matches Err(CheckError::DuplicateException(x)) ==> exists|a: int, b: int|
            0 <= a < b < model.exceptions@.len() && (#[trigger] model.exceptions@[a]).name == x
                && (#[trigger] model.exceptions@[b]).name == x,
        r matches Err(CheckError::DuplicateFreeInterrupt(x)) ==> exists|a: int, b: int|
            0 <= a < b < model.free_interrupts@.len() && model.free_interrupts@[a] == x
                && model.free_interrupts@[b] == x,
        r matches Err(CheckError::FreeInterruptUsedAsHandler(x)) ==> model.free_interrupts@.contains(
            x,
        ) && exists|j: int|
            0 <= j < model.interrupts@.len() && (#[trigger] model.interrupts@[j]).name == x,
        r matches Err(CheckError::ZeroCapacityReferenced(t)) ==> t < model.tasks@.len()
            && model.tasks@[t as int].capacity == Some(0u8) && task_referenced(*model, t),
{
    if model.resources.len() > u32::MAX as usize || model.tasks.len() > u32::MAX as usize {
        return Err(CheckError::TooManyDeclarations);
    }
    if model.nvic_prio_bits < 1 || model.nvic_prio_bits > 8 {
        return Err(CheckError::BadPriorityBits);
    }
    match check_refs(model) {
        Some(e) => {
            return Err(e);
        },
        None => {},
    }
    match check_prios(model) {
        Some(p) => {
            return Err(CheckError::PriorityOutOfRange(p));
        },
        None => {},
    }
    match handlers_duplicate(&model.interrupts) {
        Some(x) => {
            return Err(CheckError::DuplicateInterrupt(x));
        },
        None => {},
    }
    match handlers_duplicate(&model.exceptions) {
        Some(x) => {
            return Err(CheckError::DuplicateException(x));
        },
        None => {},
    }
    let nf = model.free_interrupts.len();
    for i in 0..nf
        invariant
            forall|a: int, b: int|
                0 <= a < b < nf && a < i ==> model.free_interrupts@[a]
                    != model.free_interrupts@[b],
    {
        for j in (i + 1)..nf
            invariant
                forall|a: int, b: int|
                    0 <= a < b < nf && a < i ==> model.free_interrupts@[a]
                        != model.free_interrupts@[b],
                forall|b: int|
                    i < b < j ==> model.free_interrupts@[i as int] != model.free_interrupts@[b],
        {
            if model.free_interrupts[i] == model.free_interrupts[j] {
                proof {
                    assert(model.free_interrupts@[i as int] == model.free_interrupts@[j as int]);
                }
                return Err(CheckError::DuplicateFreeInterrupt(model.free_interrupts[i]));
            }
        }
    }
    for i in 0..nf
        invariant
            forall|a: int, j: int|
                0 <= a < i && 0 <= j < model.interrupts@.len()
                    ==> #[trigger] model.free_interrupts@[a] != (
                #[trigger] model.interrupts@[j]).name,
    {
        if name_among(&model.interrupts, model.free_interrupts[i]) {
            proof {
                assert(model.free_interrupts@.contains(model.free_interrupts@[i as int]));
            }
            return Err(CheckError::FreeInterruptUsedAsHandler(model.free_interrupts[i]));
        }
    }
    proof {
        lemma_check_refs_wf(*model);
    }
    let referenced = mark_referenced(model);
    let nt = model.tasks.len();
    for t in 0..nt
        invariant
            forall|t2: int|
                0 <= t2 < t ==> ((#[trigger] model.tasks@[t2]).capacity == Some(0u8)
                    ==> !task_referenced(*model, t2 as u32)),
    {
        let zero_cap = match model.tasks[t].capacity {
            Some(c) => c == 0,
            None => false,
        };
        if zero_cap && referenced[t] {
            return Err(CheckError::ZeroCapacityReferenced(t as u32));
        }
    }
    Ok(())
}

/// Once the reference, priority and size checks pass, the model is
/// well-formed.
proof fn lemma_check_refs_wf(app: App)
    requires
        sizes_ok(app),
        1 <= app.nvic_prio_bits <= 8,
        refs_ok(app),
        prios_ok(app),
    ensures
        wf(app),
{
    let nr = app.resources@.len() as int;
    let nt = app.tasks@.len() as int;
    assert forall|i: int| 0 <= i < app.interrupts@.len() implies wf_handler(
        #[trigger] app.interrupts@[i],
        nr,
        nt,
        app.nvic_prio_bits,
    ) by {
        assert(app.interrupts@[i] == app.interrupts@[i]);
    }
    assert forall|i: int| 0 <= i < app.exceptions@.len() implies wf_handler(
        #[trigger] app.exceptions@[i],
        nr,
        nt,
        app.nvic_prio_bits,
    ) by {
        assert(app.exceptions@[i] == app.exceptions@[i]);
    }
    assert forall|i: int| 0 <= i < app.tasks@.len() implies wf_task(
        #[trigger] app.tasks@[i],
        nr,
        nt,
        app.nvic_prio_bits,
    ) by {
        assert(app.tasks@[i] == app.tasks@[i]);
    }
}

} // verus!
