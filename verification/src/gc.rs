//! Garbage collection: a clean-up, then a compaction.

use crate::cleanup::{clean_up_non_focus_tasks, cleanup_plan};
use crate::compact::{compact_sort_order, compaction};
use crate::model::{plan_view, snapshot, EngineError, Mutation, MutationView, Task, TaskView};
use vstd::prelude::*;

verus! {

/// What a garbage collection comes to: the requests of the clean-up followed by
/// those of the compaction, or the error that stops the compaction.
pub open spec fn collection(s: Seq<TaskView>) -> Result<Seq<MutationView>, EngineError> {
    match compaction(s) {
        Ok(assignments) => Ok(cleanup_plan(s) + assignments),
        Err(e) => Err(e),
    }
}

/// Plans the garbage collection of a snapshot: first the requests that clear the
/// keys of the items without the `focus` tag, then those that renumber the focused
/// items from 1. Where a focused item holds something that is no number, the error
/// is returned and nothing is planned, the clean-up included.
pub fn handle_gc(tasks: &Vec<Task>) -> (outcome: Result<Vec<Mutation>, EngineError>)
    ensures
        match outcome {
            Ok(plan) => collection(snapshot(tasks@)) == Ok::<Seq<MutationView>, EngineError>(
                plan_view(plan@),
            ),
            Err(e) => collection(snapshot(tasks@)) == Err::<Seq<MutationView>, EngineError>(e),
        },
{
    let mut assignments = match compact_sort_order(tasks) {
        Ok(assignments) => assignments,
        Err(e) => {
            return Err(e);
        },
    };
    let mut plan = clean_up_non_focus_tasks(tasks);
    let ghost clears = plan@;
    let ghost sets = assignments@;
    plan.append(&mut assignments);
    assert(plan_view(plan@) =~= plan_view(clears) + plan_view(sets));
    Ok(plan)
}

} // verus!
