use cortex_m_rtfm::analyze::Ownership;
use cortex_m_rtfm::check::CheckError;
use cortex_m_rtfm::model::{App, Handler, Init, Resource, Task};
use cortex_m_rtfm::pipeline::{self, CompileError};

fn base_app() -> App {
    App {
        nvic_prio_bits: 4,
        resources: vec![],
        init: Init { resources: vec![], spawn: vec![], schedule: vec![] },
        idle: None,
        exceptions: vec![],
        interrupts: vec![],
        tasks: vec![],
        free_interrupts: vec![],
    }
}

fn task(priority: u8, capacity: Option<u8>) -> Task {
    Task { priority, capacity, resources: vec![], spawn: vec![], schedule: vec![] }
}

#[test]
fn pipeline_accepts_and_analyzes_a_sound_model() {
    let mut app = base_app();
    app.resources = vec![Resource { ty: 1, mutable: true, initialized: true, singleton: false }];
    let mut t0 = task(1, None);
    t0.resources = vec![0];
    app.tasks = vec![t0];
    let uart = Handler { name: 5, priority: 2, resources: vec![0], spawn: vec![0, 0], schedule: vec![] };
    app.interrupts = vec![uart];
    app.free_interrupts = vec![20];
    let a = pipeline::app(&app).unwrap();
    assert_eq!(a.ownerships[0], Some(Ownership::Shared { ceiling: 2 }));
    assert_eq!(a.capacities[0], 2);
    assert_eq!(a.dispatchers[0].interrupt, 20);
}

#[test]
fn pipeline_propagates_the_structural_check() {
    let mut app = base_app();
    app.free_interrupts = vec![8, 8];
    match pipeline::app(&app) {
        Err(CompileError::Check(e)) => assert_eq!(e, CheckError::DuplicateFreeInterrupt(8)),
        r => panic!("unexpected result: {:?}", r.map(|_| ())),
    }
}

#[test]
fn pipeline_rejects_a_task_referenced_past_a_byte() {
    let mut app = base_app();
    app.tasks = vec![task(1, None)];
    app.interrupts = vec![Handler {
        name: 5,
        priority: 2,
        resources: vec![],
        spawn: vec![0; 300],
        schedule: vec![],
    }];
    app.free_interrupts = vec![20];
    match pipeline::app(&app) {
        Err(CompileError::CapacityOverflow) => {},
        r => panic!("unexpected result: {:?}", r.map(|_| ())),
    }
}

#[test]
fn per_level_limits_admit_large_independent_levels() {
    // two priority levels, each summing to capacity 200: every per-level,
    // per-task and timer-queue sum fits a byte, so the pipeline accepts
    let mut app = base_app();
    app.tasks = vec![task(1, Some(200)), task(2, Some(200))];
    app.free_interrupts = vec![20, 21];
    let a = pipeline::app(&app).unwrap();
    assert_eq!(a.capacities, vec![200, 200]);
    assert_eq!(a.dispatchers[0].capacity, 200);
    assert_eq!(a.dispatchers[1].capacity, 200);
}

#[test]
fn a_single_overfull_level_is_rejected() {
    let mut app = base_app();
    app.tasks = vec![task(1, Some(200)), task(1, Some(200))];
    app.free_interrupts = vec![20];
    match pipeline::app(&app) {
        Err(CompileError::CapacityOverflow) => {},
        r => panic!("unexpected result: {:?}", r.map(|_| ())),
    }
}
