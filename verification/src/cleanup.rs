//! Clean-up: items that have lost the `focus` tag give up their sort key.

use crate::model::{plan_view, snapshot, Mutation, MutationView, Task, TaskView};
use vstd::prelude::*;

verus! {

/// The items that have a `sortOrder` attribute and no `focus` tag, in the order of
/// the snapshot.
pub open spec fn strays(s: Seq<TaskView>) -> Seq<TaskView> {
    s.filter(|t: TaskView| t.is_stray())
}

/// The requests of a clean-up: one to clear the key of each such item.
pub open spec fn cleanup_plan(s: Seq<TaskView>) -> Seq<MutationView> {
    strays(s).map_values(|t: TaskView| MutationView::Clear { uuid: t.uuid })
}

/// One more item in the snapshot adds one request at the end of the plan, or none.
pub proof fn lemma_cleanup_plan_push(s: Seq<TaskView>, t: TaskView)
    ensures
        cleanup_plan(s.push(t)) == if t.is_stray() {
            cleanup_plan(s).push(MutationView::Clear { uuid: t.uuid })
        } else {
            cleanup_plan(s)
        },
        cleanup_plan(Seq::<TaskView>::empty()) == Seq::<MutationView>::empty(),
{
    reveal(Seq::filter);
    assert(s.push(t).drop_last() =~= s);
    if t.is_stray() {
        assert(strays(s.push(t)) == strays(s).push(t));
        assert(cleanup_plan(s.push(t)) =~= cleanup_plan(s).push(
            MutationView::Clear { uuid: t.uuid },
        ));
    } else {
        assert(strays(s.push(t)) == strays(s));
    }
    assert(cleanup_plan(Seq::<TaskView>::empty()) =~= Seq::<MutationView>::empty());
}

/// Plans the clean-up of a snapshot: a request to clear the key of every item that
/// has a `sortOrder` attribute, whatever it holds, and no `focus` tag; none for any
/// other item.
pub fn clean_up_non_focus_tasks(tasks: &Vec<Task>) -> (plan: Vec<Mutation>)
    ensures
        plan_view(plan@) == cleanup_plan(snapshot(tasks@)),
{
    let ghost s = snapshot(tasks@);
    let mut plan: Vec<Mutation> = Vec::new();
    let mut i: usize = 0;
    proof {
        lemma_cleanup_plan_push(s.take(0), s[0]);
        assert(s.take(0) =~= Seq::<TaskView>::empty());
        assert(plan_view(plan@) =~= Seq::<MutationView>::empty());
    }
    while i < tasks.len()
        invariant
            i <= tasks.len(),
            s == snapshot(tasks@),
            plan_view(plan@) == cleanup_plan(s.take(i as int)),
        decreases tasks.len() - i,
    {
        let ghost before = plan_view(plan@);
        proof {
            lemma_cleanup_plan_push(s.take(i as int), s[i as int]);
            assert(s.take(i + 1) =~= s.take(i as int).push(s[i as int]));
        }
        if tasks[i].is_stray() {
            let request = Mutation::Clear { uuid: tasks[i].uuid.clone() };
            plan.push(request);
            assert(plan_view(plan@) =~= before.push(request@));
        }
        i += 1;
    }
    assert(s.take(i as int) =~= s);
    plan
}

} // verus!
