//! What the store holds once a plan has been carried out.
//!
//! The engine never sees the store, only snapshots of it. This module says how a
//! snapshot taken after a plan relates to the one the plan was made from, so that
//! the effect of an operation can be stated.

use crate::model::{MutationView, NewKey, StoredKey, TaskView};
use vstd::prelude::*;

verus! {

/// No two items of the snapshot have the same identifier.
pub open spec fn unique_identifiers(s: Seq<TaskView>) -> bool {
    forall|i: int, j: int| 0 <= i < j < s.len() ==> (#[trigger] s[i]).uuid != (#[trigger] s[j]).uuid
}

/// The last request of the plan that is addressed to `uuid`: the one that decides
/// what the item holds in the end.
pub open spec fn last_request(plan: Seq<MutationView>, uuid: Seq<char>) -> Option<MutationView>
    decreases plan.len(),
{
    if plan.len() == 0 {
        None
    } else if plan.last().target() == uuid {
        Some(plan.last())
    } else {
        last_request(plan.drop_last(), uuid)
    }
}

/// The whole number that the plan leaves `uuid` with, where it leaves it with one.
pub open spec fn written_rank(plan: Seq<MutationView>, uuid: Seq<char>) -> Option<u64> {
    match last_request(plan, uuid) {
        Some(MutationView::Assign { key: NewKey::Rank(n), .. }) => Some(n),
        _ => None,
    }
}

/// `stored` can be what an item holds after `key` was written to it: a number, not
/// above the key that it was to be one less than, not below the key that it was to
/// be one more than.
pub open spec fn holds_written_key(key: NewKey, stored: StoredKey) -> bool {
    stored matches StoredKey::Number(k) && match key {
        NewKey::Rank(_) => true,
        NewKey::Below(m) => k.ordinal <= m.ordinal,
        NewKey::Above(m) => k.ordinal >= m.ordinal,
    }
}

/// `after` can be the snapshot that the store gives once `plan` has been carried out
/// on the items of `before` and nothing else has changed.
///
/// The items are the same, with the same tags. An item that no request names holds
/// what it held. An item whose last request clears its key holds none. An item whose
/// last request writes a key holds a number, and the items that were left with whole
/// numbers are ordered by their keys as by those numbers.
pub open spec fn carried_out(
    before: Seq<TaskView>,
    plan: Seq<MutationView>,
    after: Seq<TaskView>,
) -> bool {
    &&& after.len() == before.len()
    &&& forall|i: int|
        0 <= i < before.len() ==> {
            &&& (#[trigger] after[i]).uuid == before[i].uuid
            &&& after[i].id == before[i].id
            &&& after[i].tags == before[i].tags
            &&& match last_request(plan, before[i].uuid) {
                None => after[i].stored_key == before[i].stored_key,
                Some(MutationView::Clear { .. }) => after[i].stored_key is Absent,
                Some(MutationView::Assign { key, .. }) => holds_written_key(
                    key,
                    after[i].stored_key,
                ),
            }
        }
    &&& forall|i: int, j: int|
        #![trigger after[i], after[j]]
        0 <= i < before.len() && 0 <= j < before.len() ==> match (
            written_rank(plan, before[i].uuid),
            written_rank(plan, before[j].uuid),
        ) {
            (Some(a), Some(b)) => a < b <==> after[i].ordinal() < after[j].ordinal(),
            _ => true,
        }
}

/// A plan with no request for `uuid` leaves it alone.
pub proof fn lemma_last_request_none(plan: Seq<MutationView>, uuid: Seq<char>)
    requires
        forall|k: int| 0 <= k < plan.len() ==> (#[trigger] plan[k]).target() != uuid,
    ensures
        last_request(plan, uuid) is None,
    decreases plan.len(),
{
    if plan.len() > 0 {
        lemma_last_request_none(plan.drop_last(), uuid);
    }
}

/// Where every request for `uuid` in a plan is the same, and there is one, that
/// request decides.
pub proof fn lemma_last_request_is(plan: Seq<MutationView>, uuid: Seq<char>, request: MutationView)
    requires
        exists|k: int| 0 <= k < plan.len() && #[trigger] plan[k] == request,
        request.target() == uuid,
        forall|k: int|
            0 <= k < plan.len() && (#[trigger] plan[k]).target() == uuid ==> plan[k] == request,
    ensures
        last_request(plan, uuid) == Some(request),
    decreases plan.len(),
{
    if plan.last().target() != uuid {
        let k = choose|k: int| 0 <= k < plan.len() && #[trigger] plan[k] == request;
        assert(plan.drop_last()[k] == request);
        lemma_last_request_is(plan.drop_last(), uuid, request);
    }
}

} // verus!
