use cortex_m_rtfm::analyze::{self, AnalysisError, Ownership};
use cortex_m_rtfm::check::{self, CheckError};
use cortex_m_rtfm::model::{App, Handler, Idle, Init, Resource, Task};
use cortex_m_rtfm::post_check;

fn res_mut(ty: u32) -> Resource {
    Resource { ty, mutable: true, initialized: true, singleton: false }
}

fn res_ro(ty: u32) -> Resource {
    Resource { ty, mutable: false, initialized: true, singleton: false }
}

fn task(priority: u8, capacity: Option<u8>) -> Task {
    Task { priority, capacity, resources: vec![], spawn: vec![], schedule: vec![] }
}

fn handler(name: u32, priority: u8) -> Handler {
    Handler { name, priority, resources: vec![], spawn: vec![], schedule: vec![] }
}

fn empty_init() -> Init {
    Init { resources: vec![], spawn: vec![], schedule: vec![] }
}

fn base_app() -> App {
    App {
        nvic_prio_bits: 4,
        resources: vec![],
        init: empty_init(),
        idle: None,
        exceptions: vec![],
        interrupts: vec![],
        tasks: vec![],
        free_interrupts: vec![],
    }
}

#[test]
fn shared_resource_gets_max_ceiling() {
    // two tasks at priorities 1 and 3 both access one mutable resource
    let mut app = base_app();
    app.resources = vec![res_mut(0)];
    let mut t0 = task(1, None);
    t0.resources = vec![0];
    let mut t1 = task(3, None);
    t1.resources = vec![0];
    app.tasks = vec![t0, t1];
    app.free_interrupts = vec![20, 21];
    let a = analyze::app(&app).unwrap();
    let own = a.ownerships[0].unwrap();
    assert_eq!(own, Ownership::Shared { ceiling: 3 });
    // the priority-1 task must lock; the priority-3 task accesses freely
    assert!(own.needs_lock(1));
    assert!(!own.needs_lock(3));
}

#[test]
fn single_priority_resource_stays_owned() {
    let mut app = base_app();
    app.resources = vec![res_mut(0), res_mut(1)];
    let mut t0 = task(2, None);
    t0.resources = vec![0];
    let mut t1 = task(2, None);
    t1.resources = vec![0];
    app.tasks = vec![t0, t1];
    app.free_interrupts = vec![20];
    let a = analyze::app(&app).unwrap();
    assert_eq!(a.ownerships[0], Some(Ownership::Owned { priority: 2 }));
    // a resource nobody touches has no record
    assert_eq!(a.ownerships[1], None);
    assert!(!a.ownerships[0].unwrap().needs_lock(2));
}

#[test]
fn init_accesses_count_at_top_priority() {
    let mut app = base_app();
    app.resources = vec![res_mut(0)];
    app.init.resources = vec![0];
    let mut t0 = task(1, None);
    t0.resources = vec![0];
    app.tasks = vec![t0];
    app.free_interrupts = vec![20];
    let a = analyze::app(&app).unwrap();
    assert_eq!(a.ownerships[0], Some(Ownership::Shared { ceiling: 255 }));
}

#[test]
fn capacities_count_references_and_respect_declarations() {
    let mut app = base_app();
    let mut uart = handler(5, 2);
    uart.spawn = vec![0, 0];
    app.interrupts = vec![uart];
    let mut t1 = task(1, Some(4));
    t1.schedule = vec![2];
    app.tasks = vec![task(1, None), t1, task(1, Some(1))];
    // task 2 is scheduled once and spawned twice from idle
    app.idle = Some(Idle { resources: vec![], spawn: vec![2, 2], schedule: vec![] });
    app.free_interrupts = vec![20];
    let a = analyze::app(&app).unwrap();
    // two spawns of task 0
    assert_eq!(a.capacities[0], 2);
    // declared capacity 4 wins over one reference
    assert_eq!(a.capacities[1], 4);
    // three references win over a declared capacity of 1
    assert_eq!(a.capacities[2], 3);
}

#[test]
fn timer_queue_priority_and_ceiling() {
    let mut app = base_app();
    let mut t0 = task(1, None);
    t0.schedule = vec![1];
    let t1 = task(2, None);
    app.tasks = vec![t0, t1];
    let mut ext = handler(5, 3);
    ext.schedule = vec![0];
    app.interrupts = vec![ext];
    app.init.schedule = vec![0];
    app.free_interrupts = vec![20, 21];
    let a = analyze::app(&app).unwrap();
    // priority equals the maximum priority among scheduled tasks
    assert_eq!(a.timer_queue.priority, 2);
    // ceiling raised to the priority-3 schedule caller
    assert_eq!(a.timer_queue.ceiling, 3);
    // capacity is the sum of the scheduled tasks' capacities
    assert_eq!(a.timer_queue.capacity, a.capacities[0] + a.capacities[1]);
    assert!(a.timer_queue.tasks.contains(&0));
    assert!(a.timer_queue.tasks.contains(&1));
}

#[test]
fn dispatchers_consume_free_interrupts_in_order() {
    let mut app = base_app();
    app.tasks = vec![task(3, None), task(1, None), task(1, None)];
    app.free_interrupts = vec![40, 41, 42];
    let a = analyze::app(&app).unwrap();
    // one dispatcher per distinct level, ascending
    assert_eq!(a.dispatchers.len(), 2);
    assert_eq!(a.dispatchers[0].priority, 1);
    assert_eq!(a.dispatchers[1].priority, 3);
    // distinct free interrupts, in pool order
    assert_eq!(a.dispatchers[0].interrupt, 40);
    assert_eq!(a.dispatchers[1].interrupt, 41);
    assert_eq!(a.dispatchers[0].tasks, vec![1, 2]);
    assert_eq!(a.dispatchers[1].tasks, vec![0]);
    assert_eq!(a.dispatchers[0].capacity, 0);
}

#[test]
fn too_few_free_interrupts_is_fatal() {
    // one task but no free interrupt to dispatch it
    let mut app = base_app();
    app.tasks = vec![task(1, None)];
    app.free_interrupts = vec![];
    match analyze::app(&app) {
        Err(e) => assert_eq!(e, AnalysisError::NotEnoughFreeInterrupts),
        Ok(_) => panic!("analysis accepted an undispatchable task"),
    }
}

#[test]
fn read_only_resource_across_priorities_needs_sync() {
    let mut app = base_app();
    app.resources = vec![res_ro(7), res_ro(9)];
    let mut t0 = task(1, None);
    t0.resources = vec![0, 1];
    app.tasks = vec![t0];
    let mut uart = handler(5, 2);
    uart.resources = vec![0];
    app.interrupts = vec![uart];
    app.free_interrupts = vec![20];
    let a = analyze::app(&app).unwrap();
    // type 7 is read from two priorities: it must be shareable
    assert!(a.needs_sync.contains(&7));
    // type 9 stays at one priority
    assert!(!a.needs_sync.contains(&9));
}

#[test]
fn mutable_shared_resource_needs_lock_not_sync() {
    let mut app = base_app();
    app.resources = vec![res_mut(7)];
    let mut t0 = task(1, None);
    t0.resources = vec![0];
    app.tasks = vec![t0];
    let mut uart = handler(5, 2);
    uart.resources = vec![0];
    app.interrupts = vec![uart];
    app.free_interrupts = vec![20];
    let a = analyze::app(&app).unwrap();
    assert!(a.needs_sync.is_empty());
    assert_eq!(a.ownerships[0], Some(Ownership::Shared { ceiling: 2 }));
}

#[test]
fn send_obligations() {
    let mut app = base_app();
    app.tasks = vec![task(1, None), task(2, None), task(2, None)];
    app.init.spawn = vec![0];
    let mut uart = handler(5, 2);
    uart.spawn = vec![1, 2];
    app.interrupts = vec![uart];
    let mut t1 = task(2, None);
    t1.spawn = vec![0];
    app.tasks[1] = t1;
    app.free_interrupts = vec![20, 21];
    let a = analyze::app(&app).unwrap();
    // spawned from init
    assert!(a.needs_send[0]);
    // spawned only from its own priority
    assert!(!a.needs_send[1]);
    assert!(!a.needs_send[2]);
}

#[test]
fn queue_ceilings_follow_spawn_callers() {
    let mut app = base_app();
    app.tasks = vec![task(1, None)];
    let mut uart = handler(5, 2);
    uart.spawn = vec![0];
    app.interrupts = vec![uart];
    let mut exc = handler(9, 3);
    exc.schedule = vec![0];
    app.exceptions = vec![exc];
    app.init.spawn = vec![0];
    app.free_interrupts = vec![20];
    let a = analyze::app(&app).unwrap();
    // the schedule caller at 3 and the spawn caller at 2 contend for the
    // free queue; init is excluded
    assert_eq!(a.free_queues[0], 3);
    // only spawn callers contend for the ready queue
    assert_eq!(a.ready_queues[0], 2);
}

#[test]
fn check_accepts_a_sound_model() {
    let mut app = base_app();
    app.resources = vec![res_mut(0)];
    let mut t0 = task(1, None);
    t0.resources = vec![0];
    app.tasks = vec![t0];
    app.interrupts = vec![handler(5, 2)];
    app.free_interrupts = vec![20];
    assert_eq!(check::app(&app), Ok(()));
}

#[test]
fn check_rejects_undeclared_references() {
    let mut app = base_app();
    let mut t0 = task(1, None);
    t0.resources = vec![3];
    app.tasks = vec![t0];
    assert_eq!(check::app(&app), Err(CheckError::UndeclaredResource(3)));
    let mut app2 = base_app();
    let mut t1 = task(1, None);
    t1.spawn = vec![9];
    app2.tasks = vec![t1];
    assert_eq!(check::app(&app2), Err(CheckError::UndeclaredTask(9)));
}

#[test]
fn check_rejects_bad_priorities() {
    let mut app = base_app();
    app.interrupts = vec![handler(5, 20)];
    // 20 > 1 << 4
    assert_eq!(check::app(&app), Err(CheckError::PriorityOutOfRange(20)));
}

#[test]
fn check_rejects_duplicate_handlers() {
    let mut app = base_app();
    app.interrupts = vec![handler(5, 1), handler(5, 2)];
    assert_eq!(check::app(&app), Err(CheckError::DuplicateInterrupt(5)));
    let mut app2 = base_app();
    app2.exceptions = vec![handler(3, 1), handler(3, 1)];
    assert_eq!(check::app(&app2), Err(CheckError::DuplicateException(3)));
}

#[test]
fn check_rejects_unsound_free_pool() {
    let mut app = base_app();
    app.free_interrupts = vec![8, 8];
    assert_eq!(check::app(&app), Err(CheckError::DuplicateFreeInterrupt(8)));
    let mut app2 = base_app();
    app2.interrupts = vec![handler(8, 1)];
    app2.free_interrupts = vec![8];
    assert_eq!(check::app(&app2), Err(CheckError::FreeInterruptUsedAsHandler(8)));
}

#[test]
fn check_rejects_zero_capacity_with_references() {
    let mut app = base_app();
    app.tasks = vec![task(1, Some(0))];
    let mut uart = handler(5, 2);
    uart.spawn = vec![0];
    app.interrupts = vec![uart];
    assert_eq!(check::app(&app), Err(CheckError::ZeroCapacityReferenced(0)));
    // unreferenced zero capacity passes the check
    let mut app2 = base_app();
    app2.tasks = vec![task(1, Some(0))];
    app2.free_interrupts = vec![20];
    assert_eq!(check::app(&app2), Ok(()));
}

#[test]
fn post_check_flags_init_owned_resource_in_task_list() {
    let mut app = base_app();
    app.resources = vec![res_mut(0)];
    let mut t0 = task(1, None);
    t0.resources = vec![0];
    app.tasks = vec![t0];
    app.free_interrupts = vec![20];
    // an ownership map that never saw the resource: init owns it
    let owners: Vec<Option<Ownership>> = vec![None];
    match post_check::ownerships(&app, &owners) {
        Err(post_check::PostCheckError::InitOwnedResourceUsedByTask(x)) => assert_eq!(x, 0),
        Ok(()) => panic!("conflict not reported"),
    }
    let owners_ok: Vec<Option<Ownership>> = vec![Some(Ownership::Owned { priority: 1 })];
    assert!(post_check::ownerships(&app, &owners_ok).is_ok());
}
