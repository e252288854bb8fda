//! The check that runs after ceiling analysis: a resource that the
//! ownership map does not mention belongs to `init` alone, and no task may
//! name it in its resource list.

use vstd::prelude::*;

use crate::analyze::Ownership;
use crate::model::{wf, App};

verus! {

/// The single fault this check can find, naming the offending resource
/// index as a source span would.
#[derive(Clone, Copy, Debug, PartialEq, Eq, Structural)]
pub enum PostCheckError {
    /// The resource at this index has no ownership record yet is
    /// referenced by a task.
    InitOwnedResourceUsedByTask(u32),
}

/// Whether some task's resource list names a resource that the ownership
/// map does not record.
pub open spec fn conflict(app: App, owners: Seq<Option<Ownership>>) -> bool {
    exists|t: int, j: int|
        0 <= t < app.tasks@.len() && 0 <= j < app.tasks@[t].resources@.len() && owners[(
        #[trigger] app.tasks@[t].resources@[j]) as int] is None
}

/// Rejects the program when a resource owned by `init` alone (absent from
/// the ownership map after analysis) stands in a task's resource list.
#[verifier::loop_isolation(false)]
pub fn ownerships(app: &App, owners: &Vec<Option<Ownership>>) -> (r: Result<(), PostCheckError>)
    requires
        wf(*app),
        owners@.len() == app.resources@.len(),
    ensures
        r is Ok <==> !conflict(*app, owners@),
        r matches Err(PostCheckError::InitOwnedResourceUsedByTask(x)) ==> (x as int)
            < owners@.len() && owners@[x as int] is None && exists|t: int|
            0 <= t < app.tasks@.len() && (#[trigger] app.tasks@[t]).resources@.contains(x),
{
    let nt = app.tasks.len();
    for t in 0..nt
        invariant
            forall|t2: int, j: int|
                0 <= t2 < t && 0 <= j < app.tasks@[t2].resources@.len() ==> !(owners@[(
                #[trigger] app.tasks@[t2].resources@[j]) as int] is None),
    {
        let res_list = &app.tasks[t].resources;
        let n = res_list.len();
        for j in 0..n
            invariant
                forall|t2: int, j2: int|
                    0 <= t2 < t && 0 <= j2 < app.tasks@[t2].resources@.len() ==> !(owners@[(
                    #[trigger] app.tasks@[t2].resources@[j2]) as int] is None),
                forall|j2: int|
                    0 <= j2 < j ==> !(owners@[(#[trigger] app.tasks@[t as int].resources@[j2])
                        as int] is None),
        {
            let res = res_list[j];
            let is_none = match owners[res as usize] {
                None => true,
                Some(_) => false,
            };
            if is_none {
                proof {
                    assert(owners@[app.tasks@[t as int].resources@[j as int] as int] is None);
                    assert(app.tasks@[t as int].resources@.contains(res));
                }
                return Err(PostCheckError::InitOwnedResourceUsedByTask(res));
            }
        }
    }
    Ok(())
}

} // verus!
