//! The parsed application description that the analysis consumes: resources,
//! the `init` and `idle` blocks, interrupt and exception handlers, software
//! tasks, and the pool of free interrupt vectors reserved for dispatchers.
//!
//! Tasks and resources are referred to by their declaration index; interrupt
//! and exception handlers carry the numeric identifier of their vector. Type
//! identifiers stand for the value types of resources, so that the analysis
//! can report thread-safety obligations without holding syntax.

use vstd::prelude::*;

verus! {

/// A declared resource: named static storage.
pub struct Resource {
    /// Identifier of the resource's value type.
    pub ty: u32,
    /// Whether the resource is declared mutable.
    pub mutable: bool,
    /// Whether the declaration carries an initializer; one without it must
    /// be assigned in `init`.
    pub initialized: bool,
    /// Whether the resource is a zero-sized hardware handle owned by value.
    pub singleton: bool,
}

/// The one-shot initialization context, running at the highest logical
/// priority with all interrupts disabled.
pub struct Init {
    /// Indices of the resources the block uses.
    pub resources: Vec<u32>,
    /// Indices of the tasks the block may spawn.
    pub spawn: Vec<u32>,
    /// Indices of the tasks the block may schedule.
    pub schedule: Vec<u32>,
}

/// The background context at logical priority 0.
pub struct Idle {
    /// Indices of the resources the block uses.
    pub resources: Vec<u32>,
    /// Indices of the tasks the block may spawn.
    pub spawn: Vec<u32>,
    /// Indices of the tasks the block may schedule.
    pub schedule: Vec<u32>,
}

/// A hardware interrupt or exception handler.
pub struct Handler {
    /// Numeric identifier of the handler's vector.
    pub name: u32,
    /// Static logical priority of the handler.
    pub priority: u8,
    /// Indices of the resources the handler uses.
    pub resources: Vec<u32>,
    /// Indices of the tasks the handler may spawn.
    pub spawn: Vec<u32>,
    /// Indices of the tasks the handler may schedule.
    pub schedule: Vec<u32>,
}

/// A software task, dispatched through the ready queue of its priority level.
pub struct Task {
    /// Static logical priority of the task.
    pub priority: u8,
    /// Capacity declared on the task, if any.
    pub capacity: Option<u8>,
    /// Indices of the resources the task uses.
    pub resources: Vec<u32>,
    /// Indices of the tasks the body may spawn.
    pub spawn: Vec<u32>,
    /// Indices of the tasks the body may schedule.
    pub schedule: Vec<u32>,
}

/// A whole application description.
pub struct App {
    /// Number of priority bits the device's NVIC implements.
    pub nvic_prio_bits: u8,
    /// Declared resources, by declaration order.
    pub resources: Vec<Resource>,
    /// The mandatory initialization block.
    pub init: Init,
    /// The optional background block.
    pub idle: Option<Idle>,
    /// Exception handlers.
    pub exceptions: Vec<Handler>,
    /// Interrupt handlers.
    pub interrupts: Vec<Handler>,
    /// Software tasks, by declaration order.
    pub tasks: Vec<Task>,
    /// Vector identifiers of the interrupts reserved for dispatchers.
    pub free_interrupts: Vec<u32>,
}

/// Logical priority of the `init` context.
pub const INIT_PRIORITY: u8 = 255;

/// Logical priority of the `idle` context.
pub const IDLE_PRIORITY: u8 = 0;

/// The `(priority, resource)` pairs contributed by one context.
pub open spec fn ctx_accesses(priority: u8, resources: Seq<u32>) -> Seq<(u8, u32)> {
    resources.map_values(|r: u32| (priority, r))
}

/// The accesses of a sequence of handlers, in declaration order.
pub open spec fn handlers_accesses(hs: Seq<Handler>) -> Seq<(u8, u32)>
    decreases hs.len(),
{
    if hs.len() == 0 {
        Seq::empty()
    } else {
        handlers_accesses(hs.drop_last()) + ctx_accesses(
            hs.last().priority,
            hs.last().resources@,
        )
    }
}

/// The accesses of a sequence of tasks, in declaration order.
pub open spec fn tasks_accesses(ts: Seq<Task>) -> Seq<(u8, u32)>
    decreases ts.len(),
{
    if ts.len() == 0 {
        Seq::empty()
    } else {
        tasks_accesses(ts.drop_last()) + ctx_accesses(ts.last().priority, ts.last().resources@)
    }
}

/// The accesses of the optional `idle` block.
pub open spec fn idle_accesses(idle: Option<Idle>) -> Seq<(u8, u32)> {
    match idle {
        Some(i) => ctx_accesses(IDLE_PRIORITY, i.resources@),
        None => Seq::empty(),
    }
}

/// Every resource access of the application as a `(priority, resource)`
/// pair: from `init` at priority 255, `idle` at priority 0, the interrupt
/// handlers, the exception handlers, and the tasks.
pub open spec fn accesses(app: App) -> Seq<(u8, u32)> {
    ctx_accesses(INIT_PRIORITY, app.init.resources@) + idle_accesses(app.idle)
        + handlers_accesses(app.interrupts@) + handlers_accesses(app.exceptions@)
        + tasks_accesses(app.tasks@)
}

/// The `(caller priority, task)` pairs contributed by one context's spawn or
/// schedule list; `None` marks the single-threaded `init` context.
pub open spec fn ctx_calls(priority: Option<u8>, tasks: Seq<u32>) -> Seq<(Option<u8>, u32)> {
    tasks.map_values(|t: u32| (priority, t))
}

/// The spawn call sites of a sequence of handlers.
pub open spec fn handlers_spawns(hs: Seq<Handler>) -> Seq<(Option<u8>, u32)>
    decreases hs.len(),
{
    if hs.len() == 0 {
        Seq::empty()
    } else {
        handlers_spawns(hs.drop_last()) + ctx_calls(
            Some(hs.last().priority),
            hs.last().spawn@,
        )
    }
}

/// The schedule call sites of a sequence of handlers.
pub open spec fn handlers_schedules(hs: Seq<Handler>) -> Seq<(Option<u8>, u32)>
    decreases hs.len(),
{
    if hs.len() == 0 {
        Seq::empty()
    } else {
        handlers_schedules(hs.drop_last()) + ctx_calls(
            Some(hs.last().priority),
            hs.last().schedule@,
        )
    }
}

/// The spawn call sites of a sequence of tasks.
pub open spec fn tasks_spawns(ts: Seq<Task>) -> Seq<(Option<u8>, u32)>
    decreases ts.len(),
{
    if ts.len() == 0 {
        Seq::empty()
    } else {
        tasks_spawns(ts.drop_last()) + ctx_calls(Some(ts.last().priority), ts.last().spawn@)
    }
}

/// The schedule call sites of a sequence of tasks.
pub open spec fn tasks_schedules(ts: Seq<Task>) -> Seq<(Option<u8>, u32)>
    decreases ts.len(),
{
    if ts.len() == 0 {
        Seq::empty()
    } else {
        tasks_schedules(ts.drop_last()) + ctx_calls(
            Some(ts.last().priority),
            ts.last().schedule@,
        )
    }
}

/// The spawn call sites of the optional `idle` block.
pub open spec fn idle_spawns(idle: Option<Idle>) -> Seq<(Option<u8>, u32)> {
    match idle {
        Some(i) => ctx_calls(Some(IDLE_PRIORITY), i.spawn@),
        None => Seq::empty(),
    }
}

/// The schedule call sites of the optional `idle` block.
pub open spec fn idle_schedules(idle: Option<Idle>) -> Seq<(Option<u8>, u32)> {
    match idle {
        Some(i) => ctx_calls(Some(IDLE_PRIORITY), i.schedule@),
        None => Seq::empty(),
    }
}

/// Every spawn call site of the application.
pub open spec fn spawn_calls(app: App) -> Seq<(Option<u8>, u32)> {
    ctx_calls(None, app.init.spawn@) + idle_spawns(app.idle) + handlers_spawns(app.interrupts@)
        + handlers_spawns(app.exceptions@) + tasks_spawns(app.tasks@)
}

/// Every schedule call site of the application.
pub open spec fn schedule_calls(app: App) -> Seq<(Option<u8>, u32)> {
    ctx_calls(None, app.init.schedule@) + idle_schedules(app.idle) + handlers_schedules(
        app.interrupts@,
    ) + handlers_schedules(app.exceptions@) + tasks_schedules(app.tasks@)
}

/// Whether every reference in one context's lists lies in bounds.
pub open spec fn ctx_refs_ok(
    resources: Seq<u32>,
    spawn: Seq<u32>,
    schedule: Seq<u32>,
    n_resources: int,
    n_tasks: int,
) -> bool {
    (forall|i: int| 0 <= i < resources.len() ==> resources[i] < n_resources) && (forall|i: int|
        0 <= i < spawn.len() ==> spawn[i] < n_tasks) && (forall|i: int|
        0 <= i < schedule.len() ==> schedule[i] < n_tasks)
}

/// A well-formed handler: references declared, priority within the device.
pub open spec fn wf_handler(h: Handler, nr: int, nt: int, bits: u8) -> bool {
    ctx_refs_ok(h.resources@, h.spawn@, h.schedule@, nr, nt) && 1 <= h.priority
        && h.priority as u16 <= (1u16 << bits)
}

/// A well-formed task: references declared, priority within the device.
pub open spec fn wf_task(t: Task, nr: int, nt: int, bits: u8) -> bool {
    ctx_refs_ok(t.resources@, t.spawn@, t.schedule@, nr, nt) && 1 <= t.priority
        && t.priority as u16 <= (1u16 << bits)
}

/// A well-formed application: every resource and task reference is declared,
/// the priority-bit count is meaningful, and every handler and task priority
/// fits the device. The syntactic check establishes this.
pub open spec fn wf(app: App) -> bool {
    let nr = app.resources@.len() as int;
    let nt = app.tasks@.len() as int;
    &&& 1 <= app.nvic_prio_bits <= 8
    &&& nr <= u32::MAX as int
    &&& nt <= u32::MAX as int
    &&& ctx_refs_ok(app.init.resources@, app.init.spawn@, app.init.schedule@, nr, nt)
    &&& match app.idle {
        Some(i) => ctx_refs_ok(i.resources@, i.spawn@, i.schedule@, nr, nt),
        None => true,
    }
    &&& forall|i: int|
        0 <= i < app.interrupts@.len() ==> wf_handler(
            #[trigger] app.interrupts@[i],
            nr,
            nt,
            app.nvic_prio_bits,
        )
    &&& forall|i: int|
        0 <= i < app.exceptions@.len() ==> wf_handler(
            #[trigger] app.exceptions@[i],
            nr,
            nt,
            app.nvic_prio_bits,
        )
    &&& forall|i: int|
        0 <= i < app.tasks@.len() ==> wf_task(
            #[trigger] app.tasks@[i],
            nr,
            nt,
            app.nvic_prio_bits,
        )
}

} // verus!
