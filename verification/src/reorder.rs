//! Promotion and demotion: one item moves in front of, or behind, all focused items.
//! No other item's key is touched.

use crate::compact::{has_malformed_focus, is_focus_index};
use crate::model::{
    snapshot, EngineError, Mutation, MutationView, NewKey, SortKey, Task, TaskView,
};
use vstd::prelude::*;

verus! {

/// The item at `i` is the first that has `id` as its identifier.
pub open spec fn is_first_named(s: Seq<TaskView>, id: Seq<char>, i: int) -> bool {
    &&& 0 <= i < s.len()
    &&& s[i].is_named(id)
    &&& forall|j: int| 0 <= j < i ==> !(#[trigger] s[j]).is_named(id)
}

/// The item at `i` is the first that has `id` as its short id.
pub open spec fn is_first_aliased(s: Seq<TaskView>, id: Seq<char>, i: int) -> bool {
    &&& 0 <= i < s.len()
    &&& s[i].is_aliased(id)
    &&& forall|j: int| 0 <= j < i ==> !(#[trigger] s[j]).is_aliased(id)
}

/// The place of the item that a lookup of `id` finds: the first item with that
/// identifier; where there is none, the first item with that short id.
pub open spec fn target_index(s: Seq<TaskView>, id: Seq<char>) -> Option<int> {
    if exists|i: int| is_first_named(s, id, i) {
        Some(choose|i: int| is_first_named(s, id, i))
    } else if exists|i: int| is_first_aliased(s, id, i) {
        Some(choose|i: int| is_first_aliased(s, id, i))
    } else {
        None
    }
}

/// Some item is focused.
pub open spec fn has_focus(s: Seq<TaskView>) -> bool {
    exists|i: int| is_focus_index(s, i)
}

/// `m` is the key of a focused item, and no focused item has a smaller one.
pub open spec fn is_lowest_key(s: Seq<TaskView>, m: SortKey) -> bool {
    &&& exists|i: int| is_focus_index(s, i) && #[trigger] s[i].ordinal() == m.ordinal
    &&& forall|j: int| is_focus_index(s, j) ==> m.ordinal <= #[trigger] s[j].ordinal()
}

/// `m` is the key of a focused item, and no focused item has a greater one.
pub open spec fn is_highest_key(s: Seq<TaskView>, m: SortKey) -> bool {
    &&& exists|i: int| is_focus_index(s, i) && #[trigger] s[i].ordinal() == m.ordinal
    &&& forall|j: int| is_focus_index(s, j) ==> m.ordinal >= #[trigger] s[j].ordinal()
}

/// The smallest key among the focused items.
pub open spec fn lowest_key(s: Seq<TaskView>) -> SortKey {
    choose|m: SortKey| is_lowest_key(s, m)
}

/// The greatest key among the focused items.
pub open spec fn highest_key(s: Seq<TaskView>) -> SortKey {
    choose|m: SortKey| is_highest_key(s, m)
}

/// What the promotion of `id` comes to: no request where the item already has the
/// smallest key among the focused items, or where nothing is focused; else the
/// request that puts it one below that key.
pub open spec fn promotion(s: Seq<TaskView>, id: Seq<char>) -> Result<
    Option<MutationView>,
    EngineError,
> {
    match target_index(s, id) {
        None => Err(EngineError::ItemNotFound),
        Some(t) => {
            if has_malformed_focus(s) || s[t].stored_key is Malformed {
                Err(EngineError::MalformedOrderingKey)
            } else if !has_focus(s) || s[t].ordinal() == lowest_key(s).ordinal {
                Ok(None)
            } else {
                Ok(
                    Some(
                        MutationView::Assign { uuid: s[t].uuid, key: NewKey::Below(lowest_key(s)) },
                    ),
                )
            }
        },
    }
}

/// What the demotion of `id` comes to: no request where the item already has the
/// greatest key among the focused items, or where nothing is focused; else the
/// request that puts it one above that key.
pub open spec fn demotion(s: Seq<TaskView>, id: Seq<char>) -> Result<
    Option<MutationView>,
    EngineError,
> {
    match target_index(s, id) {
        None => Err(EngineError::ItemNotFound),
        Some(t) => {
            if has_malformed_focus(s) || s[t].stored_key is Malformed {
                Err(EngineError::MalformedOrderingKey)
            } else if !has_focus(s) || s[t].ordinal() == highest_key(s).ordinal {
                Ok(None)
            } else {
                Ok(
                    Some(
                        MutationView::Assign { uuid: s[t].uuid, key: NewKey::Above(highest_key(s)) },
                    ),
                )
            }
        },
    }
}

/// A request as contracts see it, where there is one.
pub open spec fn request_view(request: Option<Mutation>) -> Option<MutationView> {
    match request {
        Some(m) => Some(m@),
        None => None,
    }
}

/// Looks an item up by its identifier, then by its short id written in decimal.
/// An identifier takes precedence over a short id, and the first match wins.
pub fn find_task(tasks: &Vec<Task>, id: &str) -> (found: Option<usize>)
    ensures
        match found {
            Some(i) => i < tasks.len() && target_index(snapshot(tasks@), id@) == Some(i as int),
            None => target_index(snapshot(tasks@), id@) is None,
        },
{
    let ghost s = snapshot(tasks@);
    let mut i: usize = 0;
    while i < tasks.len()
        invariant
            i <= tasks.len(),
            s == snapshot(tasks@),
            forall|j: int| 0 <= j < i ==> !(#[trigger] s[j]).is_named(id@),
        decreases tasks.len() - i,
    {
        if tasks[i].is_named(id) {
            assert(is_first_named(s, id@, i as int));
            return Some(i);
        }
        i += 1;
    }
    let mut k: usize = 0;
    while k < tasks.len()
        invariant
            k <= tasks.len(),
            s == snapshot(tasks@),
            forall|j: int| 0 <= j < s.len() ==> !(#[trigger] s[j]).is_named(id@),
            forall|j: int| 0 <= j < k ==> !(#[trigger] s[j]).is_aliased(id@),
        decreases tasks.len() - k,
    {
        if tasks[k].is_aliased(id) {
            assert(is_first_aliased(s, id@, k as int));
            return Some(k);
        }
        k += 1;
    }
    None
}

/// The smallest and the greatest key among the focused items, where there are any.
fn focused_key_range(tasks: &Vec<Task>) -> (outcome: Result<Option<(SortKey, SortKey)>, EngineError>)
    ensures
        match outcome {
            Ok(Some((lowest, highest))) => {
                &&& !has_malformed_focus(snapshot(tasks@))
                &&& has_focus(snapshot(tasks@))
                &&& lowest == lowest_key(snapshot(tasks@))
                &&& highest == highest_key(snapshot(tasks@))
            },
            Ok(None) => !has_malformed_focus(snapshot(tasks@)) && !has_focus(snapshot(tasks@)),
            Err(e) => e == EngineError::MalformedOrderingKey && has_malformed_focus(
                snapshot(tasks@),
            ),
        },
{
    let ghost s = snapshot(tasks@);
    let mut range: Option<(SortKey, SortKey)> = None;
    let mut i: usize = 0;
    while i < tasks.len()
        invariant
            i <= tasks.len(),
            s == snapshot(tasks@),
            forall|j: int| is_focus_index(s, j) && j < i ==> (#[trigger] s[j]).stored_key !is Malformed,
            range is None ==> forall|j: int| 0 <= j < i ==> !(#[trigger] s[j]).is_focused(),
            range matches Some((lowest, highest)) ==> {
                &&& exists|j: int|
                    is_focus_index(s, j) && j < i && #[trigger] s[j].ordinal() == lowest.ordinal
                &&& exists|j: int|
                    is_focus_index(s, j) && j < i && #[trigger] s[j].ordinal() == highest.ordinal
                &&& forall|j: int|
                    is_focus_index(s, j) && j < i ==> lowest.ordinal <= #[trigger] s[j].ordinal()
                        <= highest.ordinal
            },
        decreases tasks.len() - i,
    {
        if tasks[i].is_focused() {
            assert(is_focus_index(s, i as int));
            let key = match tasks[i].sort_order() {
                Ok(key) => key,
                Err(e) => {
                    return Err(e);
                },
            };
            assert(s[i as int].ordinal() == key.ordinal);
            range = match range {
                None => Some((key, key)),
                Some((lowest, highest)) => {
                    let lowest = if key.ordinal < lowest.ordinal {
                        key
                    } else {
                        lowest
                    };
                    let highest = if key.ordinal > highest.ordinal {
                        key
                    } else {
                        highest
                    };
                    Some((lowest, highest))
                },
            };
        }
        i += 1;
    }
    proof {
        match range {
            Some((lowest, highest)) => {
                assert(is_lowest_key(s, lowest));
                assert(is_highest_key(s, highest));
                assert(is_lowest_key(s, lowest_key(s)));
                assert(is_highest_key(s, highest_key(s)));
            },
            None => {},
        }
    }
    Ok(range)
}

/// Plans the promotion of the item that `id` names, by identifier or by short id.
///
/// The item gets a key one below the smallest key among the focused items. No
/// request is planned where it already has that key, or where no item is focused.
/// The item itself need not be focused, and stays as it is in that respect.
pub fn handle_prioritize_cmd(tasks: &Vec<Task>, id: &str) -> (outcome: Result<
    Option<Mutation>,
    EngineError,
>)
    ensures
        match outcome {
            Ok(request) => promotion(snapshot(tasks@), id@) == Ok::<
                Option<MutationView>,
                EngineError,
            >(request_view(request)),
            Err(e) => promotion(snapshot(tasks@), id@) == Err::<Option<MutationView>, EngineError>(
                e,
            ),
        },
{
    let target = match find_task(tasks, id) {
        Some(target) => target,
        None => {
            return Err(EngineError::ItemNotFound);
        },
    };
    let range = match focused_key_range(tasks) {
        Ok(range) => range,
        Err(e) => {
            return Err(e);
        },
    };
    let current = match tasks[target].sort_order() {
        Ok(current) => current,
        Err(e) => {
            return Err(e);
        },
    };
    match range {
        None => Ok(None),
        Some((lowest, _)) => {
            if current.ordinal == lowest.ordinal {
                Ok(None)
            } else {
                Ok(
                    Some(
                        Mutation::Assign {
                            uuid: tasks[target].uuid.clone(),
                            key: NewKey::Below(lowest),
                        },
                    ),
                )
            }
        },
    }
}

/// Plans the demotion of the item that `id` names, by identifier or by short id.
///
/// The item gets a key one above the greatest key among the focused items. No
/// request is planned where it already has that key, or where no item is focused.
pub fn handle_deprioritize_cmd(tasks: &Vec<Task>, id: &str) -> (outcome: Result<
    Option<Mutation>,
    EngineError,
>)
    ensures
        match outcome {
            Ok(request) => demotion(snapshot(tasks@), id@) == Ok::<
                Option<MutationView>,
                EngineError,
            >(request_view(request)),
            Err(e) => demotion(snapshot(tasks@), id@) == Err::<Option<MutationView>, EngineError>(
                e,
            ),
        },
{
    let target = match find_task(tasks, id) {
        Some(target) => target,
        None => {
            return Err(EngineError::ItemNotFound);
        },
    };
    let range = match focused_key_range(tasks) {
        Ok(range) => range,
        Err(e) => {
            return Err(e);
        },
    };
    let current = match tasks[target].sort_order() {
        Ok(current) => current,
        Err(e) => {
            return Err(e);
        },
    };
    match range {
        None => Ok(None),
        Some((_, highest)) => {
            if current.ordinal == highest.ordinal {
                Ok(None)
            } else {
                Ok(
                    Some(
                        Mutation::Assign {
                            uuid: tasks[target].uuid.clone(),
                            key: NewKey::Above(highest),
                        },
                    ),
                )
            }
        },
    }
}

} // verus!
