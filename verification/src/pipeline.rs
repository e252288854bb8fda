//! The compile-time pipeline over a parsed application: the structural
//! check, the ceiling and capacity analysis, and the post-analysis
//! ownership check, in that order; the first fault is fatal and nothing is
//! emitted for it. Machine limits — a task referenced more than 255 times,
//! a priority level or the timer queue summing to more capacity than a
//! byte holds — are caught here as well.

use vstd::prelude::*;

use crate::analyze::{
    self, all_calls, analysis_valid, capacity_limits_ok, eff_cap, is_scheduled, level_cap_upto,
    n_levels_upto, ref_count, spec_ownerships, tq_cap_upto, Analysis, AnalysisError,
};
use crate::check::{self, check_ok, CheckError};
use crate::model::{schedule_calls, spawn_calls, App};
use crate::post_check::{self, PostCheckError};

verus! {

/// The first fault the pipeline found, if any.
#[derive(Clone, Copy, Debug, PartialEq, Eq, Structural)]
pub enum CompileError {
    /// The structural check rejected the model.
    Check(CheckError),
    /// A reference count or a capacity sum does not fit a byte.
    CapacityOverflow,
    /// The analysis rejected the model.
    Analysis(AnalysisError),
    /// The post-analysis ownership check rejected the model.
    PostCheck(PostCheckError),
}

/// Runs the whole front end on a parsed application: structural check,
/// machine-limit check, ceiling and capacity analysis, and the
/// post-analysis ownership check. It succeeds exactly on the models all
/// four accept; an accepted model's analysis satisfies every promise of
/// `analysis_valid`.
pub fn app(model: &App) -> (r: Result<Analysis, CompileError>)
    ensures
        r is Ok <==> (check_ok(*model) && capacity_limits_ok(*model) && n_levels_upto(*model, 255)
            <= model.free_interrupts@.len() && !post_check::conflict(
            *model,
            spec_ownerships(*model),
        )),
        r matches Ok(a) ==> analysis_valid(*model, a),
        r matches Err(CompileError::Check(e)) ==> !check_ok(*model),
        r == Err::<Analysis, CompileError>(CompileError::CapacityOverflow) ==> check_ok(*model)
            && !capacity_limits_ok(*model),
        r == Err::<Analysis, CompileError>(
            CompileError::Analysis(AnalysisError::NotEnoughFreeInterrupts),
        ) ==> n_levels_upto(*model, 255) > model.free_interrupts@.len(),
        r matches Err(CompileError::PostCheck(e)) ==> post_check::conflict(
            *model,
            spec_ownerships(*model),
        ),
{
    match check::app(model) {
        Err(e) => {
            return Err(CompileError::Check(e));
        },
        Ok(()) => {},
    }
    proof {
        check::lemma_check_ok_wf(*model);
    }
    let spawns = analyze::collect_spawn_calls(model);
    let schedules = analyze::collect_schedule_calls(model);
    if limits_violated(model, &spawns, &schedules) {
        return Err(CompileError::CapacityOverflow);
    }
    let analysis = match analyze::app(model) {
        Err(e) => {
            return Err(CompileError::Analysis(e));
        },
        Ok(a) => a,
    };
    proof {
        assert(analysis.ownerships@ =~= spec_ownerships(*model));
    }
    match post_check::ownerships(model, &analysis.ownerships) {
        Err(e) => {
            return Err(CompileError::PostCheck(e));
        },
        Ok(()) => {},
    }
    Ok(analysis)
}

/// Counts, for every task, how many call sites reference it, saturating
/// at 256 so that the count always fits the accumulator.
#[verifier::loop_isolation(false)]
fn count_refs_capped(
    app: &App,
    spawns: &Vec<(Option<u8>, u32)>,
    schedules: &Vec<(Option<u8>, u32)>,
) -> (r: Vec<u64>)
    requires
        crate::model::wf(*app),
        spawns@ == spawn_calls(*app),
        schedules@ == schedule_calls(*app),
        forall|k: int| 0 <= k < spawns@.len() ==> (#[trigger] spawns@[k]).1 < app.tasks@.len(),
        forall|k: int|
            0 <= k < schedules@.len() ==> (#[trigger] schedules@[k]).1 < app.tasks@.len(),
    ensures
        r@.len() == app.tasks@.len(),
        forall|t: int|
            0 <= t < app.tasks@.len() ==> r@[t] == (if ref_count(all_calls(*app), t as u32)
                <= 256 {
                ref_count(all_calls(*app), t as u32)
            } else {
                256int
            }),
{
    let nt = app.tasks.len();
    let mut counts: Vec<u64> = Vec::new();
    for i in 0..nt
        invariant
            counts@.len() == i,
            forall|t: int| 0 <= t < i ==> counts@[t] == 0,
    {
        counts.push(0);
    }
    let ghost all = all_calls(*app);
    proof {
        assert(all.take(0) =~= Seq::empty());
    }
    let ns = spawns.len();
    for k in 0..ns
        invariant
            counts@.len() == nt,
            forall|t: int|
                0 <= t < nt ==> counts@[t] == (if ref_count(all.take(k as int), t as u32) <= 256 {
                    ref_count(all.take(k as int), t as u32)
                } else {
                    256int
                }),
    {
        proof {
            assert(all.take(k as int + 1).drop_last() =~= all.take(k as int));
            assert(all[k as int] == spawns@[k as int]);
            assert(all.take(k as int + 1).last() == all[k as int]);
        }
        let (_, t) = spawns[k];
        let ti = t as usize;
        let c = counts[ti];
        if c < 256 {
            counts[ti] = c + 1;
        }
    }
    let nsc = schedules.len();
    for k in 0..nsc
        invariant
            counts@.len() == nt,
            forall|t: int|
                0 <= t < nt ==> counts@[t] == (if ref_count(all.take(ns + k as int), t as u32)
                    <= 256 {
                    ref_count(all.take(ns + k as int), t as u32)
                } else {
                    256int
                }),
    {
        proof {
            assert(all.take(ns + k as int + 1).drop_last() =~= all.take(ns + k as int));
            assert(all[ns + k as int] == schedules@[k as int]);
            assert(all.take(ns + k as int + 1).last() == all[ns + k as int]);
        }
        let (_, t) = schedules[k];
        let ti = t as usize;
        let c = counts[ti];
        if c < 256 {
            counts[ti] = c + 1;
        }
    }
    proof {
        assert(all.take(ns + nsc as int) =~= all);
    }
    counts
}

/// Tabulates the effective capacities once every count fits a byte.
#[verifier::loop_isolation(false)]
fn tabulate_effs(app: &App, counts: &Vec<u64>) -> (r: Vec<u8>)
    requires
        crate::model::wf(*app),
        counts@.len() == app.tasks@.len(),
        forall|t: int|
            0 <= t < app.tasks@.len() ==> counts@[t] == ref_count(all_calls(*app), t as u32),
        forall|t: u32| t < app.tasks@.len() ==> ref_count(all_calls(*app), t) <= 255,
    ensures
        r@.len() == app.tasks@.len(),
        forall|t: int| 0 <= t < app.tasks@.len() ==> r@[t] == eff_cap(*app, t),
{
    let nt = app.tasks.len();
    let mut effs: Vec<u8> = Vec::new();
    for t in 0..nt
        invariant
            effs@.len() == t,
            forall|t2: int| 0 <= t2 < t ==> effs@[t2] == eff_cap(*app, t2),
    {
        let counted = counts[t] as u8;
        let e = match app.tasks[t].capacity {
            Some(d) => if d >= counted {
                d
            } else {
                counted
            },
            None => counted,
        };
        effs.push(e);
    }
    effs
}

/// Marks which tasks some `schedule` call site references.
#[verifier::loop_isolation(false)]
fn mark_scheduled(app: &App, schedules: &Vec<(Option<u8>, u32)>) -> (r: Vec<bool>)
    requires
        crate::model::wf(*app),
        schedules@ == schedule_calls(*app),
        forall|k: int|
            0 <= k < schedules@.len() ==> (#[trigger] schedules@[k]).1 < app.tasks@.len(),
    ensures
        r@.len() == app.tasks@.len(),
        forall|t: u32| t < app.tasks@.len() ==> (r@[t as int] <==> is_scheduled(*app, t)),
{
    let nt = app.tasks.len();
    let mut scheduled: Vec<bool> = Vec::new();
    for i in 0..nt
        invariant
            scheduled@.len() == i,
            forall|t2: int| 0 <= t2 < i ==> scheduled@[t2] == false,
    {
        scheduled.push(false);
    }
    let nsc = schedules.len();
    for k in 0..nsc
        invariant
            scheduled@.len() == nt,
            forall|t2: u32|
                t2 < nt ==> (scheduled@[t2 as int] <==> exists|i: int|
                    0 <= i < k && (#[trigger] schedules@[i]).1 == t2),
    {
        let (_, t) = schedules[k];
        scheduled[t as usize] = true;
        proof {
            assert forall|x: u32| x < nt implies (scheduled@[x as int] <==> exists|i: int|
                0 <= i < k + 1 && (#[trigger] schedules@[i]).1 == x) by {
                if x == t {
                    assert(schedules@[k as int].1 == x);
                } else {
                    if exists|i: int| 0 <= i < k + 1 && (#[trigger] schedules@[i]).1 == x {
                        let i = choose|i: int| 0 <= i < k + 1 && (#[trigger] schedules@[i]).1 == x;
                        assert(i < k);
                    }
                }
            }
        }
    }
    scheduled
}

/// Whether the timer queue's summed capacity exceeds a byte.
#[verifier::loop_isolation(false)]
fn tq_sum_over(app: &App, effs: &Vec<u8>, scheduled: &Vec<bool>) -> (r: bool)
    requires
        crate::model::wf(*app),
        effs@.len() == app.tasks@.len(),
        forall|t: int| 0 <= t < app.tasks@.len() ==> effs@[t] == eff_cap(*app, t),
        scheduled@.len() == app.tasks@.len(),
        forall|t: u32| t < app.tasks@.len() ==> (scheduled@[t as int] <==> is_scheduled(*app, t)),
    ensures
        r == (tq_cap_upto(*app, app.tasks@.len() as int) > 255),
{
    let nt = app.tasks.len();
    let mut sum: u64 = 0;
    for t in 0..nt
        invariant
            sum == tq_cap_upto(*app, t as int),
            sum <= 255 * t,
    {
        if scheduled[t] {
            let e = effs[t];
            sum = sum + e as u64;
        }
    }
    sum > 255
}

/// Whether some priority level's summed capacity exceeds a byte.
#[verifier::loop_isolation(false)]
fn level_sum_over(app: &App, effs: &Vec<u8>) -> (r: bool)
    requires
        crate::model::wf(*app),
        effs@.len() == app.tasks@.len(),
        forall|t: int| 0 <= t < app.tasks@.len() ==> effs@[t] == eff_cap(*app, t),
    ensures
        r == !(forall|p: u8|
            1 <= p ==> level_cap_upto(*app, p, app.tasks@.len() as int) <= 255),
{
    let nt = app.tasks.len();
    for p16 in 1u16..256u16
        invariant
            forall|q: u8| 1 <= q < p16 ==> level_cap_upto(*app, q, nt as int) <= 255,
    {
        let p = p16 as u8;
        let mut level_sum: u64 = 0;
        for t in 0..nt
            invariant
                level_sum == level_cap_upto(*app, p, t as int),
                level_sum <= 255 * t,
        {
            if app.tasks[t].priority == p {
                let e = effs[t];
                level_sum = level_sum + e as u64;
            }
        }
        if level_sum > 255 {
            return true;
        }
    }
    false
}

/// Decides whether any of the byte-sized sums of the analysis would
/// overflow: a task referenced more than 255 times, a priority level whose
/// tasks' capacities sum past 255, or a timer queue doing so.
#[verifier::loop_isolation(false)]
fn limits_violated(
    app: &App,
    spawns: &Vec<(Option<u8>, u32)>,
    schedules: &Vec<(Option<u8>, u32)>,
) -> (r: bool)
    requires
        crate::model::wf(*app),
        spawns@ == spawn_calls(*app),
        schedules@ == schedule_calls(*app),
        forall|k: int| 0 <= k < spawns@.len() ==> (#[trigger] spawns@[k]).1 < app.tasks@.len(),
        forall|k: int|
            0 <= k < schedules@.len() ==> (#[trigger] schedules@[k]).1 < app.tasks@.len(),
    ensures
        r == !capacity_limits_ok(*app),
{
    let nt = app.tasks.len();
    let counts = count_refs_capped(app, spawns, schedules);
    for t in 0..nt
        invariant
            counts@.len() == nt,
            forall|t2: u32| t2 < t ==> ref_count(all_calls(*app), t2) <= 255,
    {
        if counts[t] > 255 {
            return true;
        }
    }
    proof {
        assert(forall|t: int|
            0 <= t < nt ==> counts@[t] == ref_count(all_calls(*app), t as u32));
    }
    let effs = tabulate_effs(app, &counts);
    let scheduled = mark_scheduled(app, schedules);
    if tq_sum_over(app, &effs, &scheduled) {
        return true;
    }
    if level_sum_over(app, &effs) {
        return true;
    }
    false
}

} // verus!
