//! What holds of the engine's operations, whatever the snapshot.

use crate::cleanup::{cleanup_plan, lemma_cleanup_plan_push};
use crate::compact::{
    compaction, compaction_plan, focus_count, focused_indices, has_malformed_focus, holds_rank,
    is_focus_index, lemma_every_rank_is_held, lemma_focus_count_bounded, lemma_rank_follows_order,
    lemma_rank_in_range, lemma_ranks_differ, precedes, predecessors, rank, ranked,
};
use crate::gc::collection;
use crate::model::{EngineError, MutationView, NewKey, SortKey, TaskView};
use crate::reorder::{
    demotion, highest_key, is_first_aliased, is_first_named, is_highest_key, is_lowest_key,
    lowest_key, promotion, target_index,
};
use crate::store::{
    carried_out, last_request, lemma_last_request_is, lemma_last_request_none,
    unique_identifiers, written_rank,
};
use vstd::prelude::*;

verus! {

/// An item without a `sortOrder` attribute has the key zero.
pub proof fn lemma_absent_key_is_zero(t: TaskView)
    requires
        t.stored_key is Absent,
    ensures
        t.sort_order() == Ok::<SortKey, EngineError>(SortKey { ordinal: 0 }),
        t.ordinal() == 0,
{
}

/// The request that compaction makes for a focused item.
pub open spec fn assignment(s: Seq<TaskView>, i: int) -> MutationView {
    MutationView::Assign { uuid: s[i].uuid, key: NewKey::Rank(rank(s, i) as u64) }
}

/// The focused item that gets a key is the one that the key is looked up to.
pub proof fn lemma_ranked_finds_item(s: Seq<TaskView>, i: int)
    requires
        is_focus_index(s, i),
    ensures
        ranked(s, rank(s, i)) == i,
{
    assert(holds_rank(s, i, rank(s, i)));
    let found = ranked(s, rank(s, i));
    if found != i {
        lemma_ranks_differ(s, found, i);
    }
}

/// Compaction gives the `n` focused items the keys 1 to `n`: each item one key, each
/// key to one item, the smaller key to the item that had the smaller key before, and
/// among items that had the same key the smaller one to the item that the snapshot
/// lists first. Its plan holds, at the place of each key, the request that writes
/// it to its item.
pub proof fn lemma_compaction_is_dense(s: Seq<TaskView>)
    ensures
        compaction_plan(s).len() == focus_count(s),
        forall|i: int| is_focus_index(s, i) ==> 1 <= #[trigger] rank(s, i) <= focus_count(s),
        forall|i: int, j: int|
            is_focus_index(s, i) && is_focus_index(s, j) && i != j ==> #[trigger] rank(s, i)
                != #[trigger] rank(s, j),
        forall|r: nat| 1 <= r <= focus_count(s) ==> holds_rank(s, #[trigger] ranked(s, r), r),
        forall|i: int, j: int|
            is_focus_index(s, i) && is_focus_index(s, j) && precedes(s, i, j) ==> #[trigger] rank(
                s,
                i,
            ) < #[trigger] rank(s, j),
        forall|i: int|
            is_focus_index(s, i) ==> compaction_plan(s)[#[trigger] rank(s, i) - 1] == assignment(
                s,
                i,
            ),
{
    assert forall|i: int| is_focus_index(s, i) implies 1 <= #[trigger] rank(s, i) <= focus_count(
        s,
    ) && compaction_plan(s)[rank(s, i) - 1] == assignment(s, i) by {
        lemma_rank_in_range(s, i);
        lemma_ranked_finds_item(s, i);
    }
    assert forall|i: int, j: int|
        is_focus_index(s, i) && is_focus_index(s, j) && i != j implies #[trigger] rank(s, i)
        != #[trigger] rank(s, j) by {
        lemma_ranks_differ(s, i, j);
    }
    assert forall|r: nat| 1 <= r <= focus_count(s) implies holds_rank(
        s,
        #[trigger] ranked(s, r),
        r,
    ) by {
        lemma_every_rank_is_held(s, r);
    }
    assert forall|i: int, j: int|
        is_focus_index(s, i) && is_focus_index(s, j) && precedes(s, i, j) implies #[trigger] rank(
        s,
        i,
    ) < #[trigger] rank(s, j) by {
        lemma_rank_follows_order(s, i, j);
    }
}

/// `request` clears the key of an item that has one and no `focus` tag.
pub open spec fn clears_stray(s: Seq<TaskView>, request: MutationView) -> bool {
    exists|j: int|
        0 <= j < s.len() && (#[trigger] s[j]).is_stray() && request == (MutationView::Clear {
            uuid: s[j].uuid,
        })
}

/// A clean-up clears the key of every item that has one and no `focus` tag, and asks
/// for nothing else.
pub proof fn lemma_cleanup_clears_strays(s: Seq<TaskView>)
    ensures
        forall|k: int|
            0 <= k < cleanup_plan(s).len() ==> clears_stray(s, #[trigger] cleanup_plan(s)[k]),
        forall|j: int|
            0 <= j < s.len() && (#[trigger] s[j]).is_stray() ==> cleanup_plan(s).contains(
                MutationView::Clear { uuid: s[j].uuid },
            ),
    decreases s.len(),
{
    if s.len() > 0 {
        let front = s.drop_last();
        let t = s.last();
        lemma_cleanup_clears_strays(front);
        lemma_cleanup_plan_push(front, t);
        assert(s =~= front.push(t));
        let plan = cleanup_plan(s);
        assert forall|k: int| 0 <= k < plan.len() implies clears_stray(s, #[trigger] plan[k]) by {
            if k < cleanup_plan(front).len() {
                assert(plan[k] == cleanup_plan(front)[k]);
                assert(clears_stray(front, cleanup_plan(front)[k]));
                let j = choose|j: int|
                    0 <= j < front.len() && (#[trigger] front[j]).is_stray() && plan[k] == (
                    MutationView::Clear { uuid: front[j].uuid });
                assert(s[j].is_stray());
            } else {
                assert(s[s.len() - 1].is_stray());
            }
        }
        assert forall|j: int| 0 <= j < s.len() && (#[trigger] s[j]).is_stray() implies plan.contains(
            MutationView::Clear { uuid: s[j].uuid },
        ) by {
            let wanted = MutationView::Clear { uuid: s[j].uuid };
            if j < front.len() {
                assert(front[j].is_stray());
                assert(cleanup_plan(front).contains(wanted));
                let k = choose|k: int|
                    0 <= k < cleanup_plan(front).len() && cleanup_plan(front)[k] == wanted;
                assert(plan[k] == wanted);
            } else {
                assert(plan[plan.len() - 1] == wanted);
            }
        }
    } else {
        lemma_cleanup_plan_push(s, arbitrary());
    }
}

/// After a compaction, with or without a clean-up before it, the last request for a
/// focused item is the one that writes its new key.
pub proof fn lemma_focused_item_is_assigned(s: Seq<TaskView>, clears: Seq<MutationView>, i: int)
    requires
        s.len() <= u64::MAX,
        unique_identifiers(s),
        is_focus_index(s, i),
        forall|k: int| 0 <= k < clears.len() ==> clears_stray(s, #[trigger] clears[k]),
    ensures
        last_request(clears + compaction_plan(s), s[i].uuid) == Some(assignment(s, i)),
{
    let plan = clears + compaction_plan(s);
    let request = assignment(s, i);
    lemma_compaction_is_dense(s);
    lemma_focus_count_bounded(s);
    let at = clears.len() + rank(s, i) - 1;
    assert(plan[at] == compaction_plan(s)[rank(s, i) - 1]);
    assert forall|k: int| 0 <= k < plan.len() && (#[trigger] plan[k]).target() == s[i].uuid implies plan[k]
        == request by {
        if k < clears.len() {
            assert(clears_stray(s, clears[k]));
            let j = choose|j: int|
                0 <= j < s.len() && (#[trigger] s[j]).is_stray() && clears[k] == (
                MutationView::Clear { uuid: s[j].uuid });
            lemma_same_identifier_same_item(s, i, j);
        } else {
            let r = (k - clears.len() + 1) as nat;
            assert(plan[k] == compaction_plan(s)[k - clears.len()]);
            assert(holds_rank(s, ranked(s, r), r));
            lemma_same_identifier_same_item(s, i, ranked(s, r));
        }
    }
    lemma_last_request_is(plan, s[i].uuid, request);
}

/// With unique identifiers, two places with the same identifier are one place.
pub proof fn lemma_same_identifier_same_item(s: Seq<TaskView>, i: int, j: int)
    requires
        unique_identifiers(s),
        0 <= i < s.len(),
        0 <= j < s.len(),
        s[i].uuid == s[j].uuid,
    ensures
        i == j,
{
    if i < j {
        assert(s[i].uuid != s[j].uuid);
    } else if j < i {
        assert(s[j].uuid != s[i].uuid);
    }
}

/// A compaction asks nothing of an item without the `focus` tag; a garbage
/// collection asks it to give up its key where it has one, and nothing else.
pub proof fn lemma_unfocused_item_is_cleared(s: Seq<TaskView>, i: int)
    requires
        unique_identifiers(s),
        0 <= i < s.len(),
        !s[i].is_focused(),
    ensures
        last_request(compaction_plan(s), s[i].uuid) is None,
        last_request(cleanup_plan(s) + compaction_plan(s), s[i].uuid) == if s[i].is_stray() {
            Some(MutationView::Clear { uuid: s[i].uuid })
        } else {
            None
        },
{
    let sets = compaction_plan(s);
    let plan = cleanup_plan(s) + sets;
    let clears = cleanup_plan(s);
    lemma_compaction_is_dense(s);
    lemma_cleanup_clears_strays(s);
    assert forall|k: int| 0 <= k < sets.len() implies (#[trigger] sets[k]).target()
        != s[i].uuid by {
        let r = (k + 1) as nat;
        assert(holds_rank(s, ranked(s, r), r));
        if sets[k].target() == s[i].uuid {
            lemma_same_identifier_same_item(s, i, ranked(s, r));
        }
    }
    lemma_last_request_none(sets, s[i].uuid);
    let wanted = MutationView::Clear { uuid: s[i].uuid };
    assert forall|k: int| 0 <= k < plan.len() && (#[trigger] plan[k]).target() == s[i].uuid implies plan[k]
        == wanted && s[i].is_stray() by {
        if k < clears.len() {
            assert(clears_stray(s, clears[k]));
            let j = choose|j: int|
                0 <= j < s.len() && (#[trigger] s[j]).is_stray() && clears[k] == (
                MutationView::Clear { uuid: s[j].uuid });
            lemma_same_identifier_same_item(s, i, j);
        } else {
            assert(plan[k] == sets[k - clears.len()]);
        }
    }
    if s[i].is_stray() {
        assert(clears.contains(wanted));
        let k = choose|k: int| 0 <= k < clears.len() && clears[k] == wanted;
        assert(plan[k] == wanted);
        lemma_last_request_is(plan, s[i].uuid, wanted);
    } else {
        lemma_last_request_none(plan, s[i].uuid);
    }
}

/// After a garbage collection, no item without the `focus` tag has a sort key.
pub proof fn lemma_gc_leaves_no_stray_key(
    before: Seq<TaskView>,
    plan: Seq<MutationView>,
    after: Seq<TaskView>,
)
    requires
        unique_identifiers(before),
        collection(before) == Ok::<Seq<MutationView>, EngineError>(plan),
        carried_out(before, plan, after),
    ensures
        forall|i: int|
            0 <= i < after.len() && !(#[trigger] after[i]).is_focused()
                ==> after[i].stored_key is Absent,
{
    assert forall|i: int| 0 <= i < after.len() && !(#[trigger] after[i]).is_focused() implies after[i].stored_key is Absent by {
        lemma_unfocused_item_is_cleared(before, i);
    }
}

/// `plan` is what a compaction of `s` asks for, alone or as the second part of a
/// garbage collection.
pub open spec fn renumbers(s: Seq<TaskView>, plan: Seq<MutationView>) -> bool {
    !has_malformed_focus(s) && (plan == compaction_plan(s) || plan == cleanup_plan(s)
        + compaction_plan(s))
}

/// After a compaction or a garbage collection, each focused item holds the whole
/// number that its rank gives it, these numbers are 1 to `n` for `n` focused items,
/// and the items are ordered by their new keys as they were by their old ones, with
/// the snapshot's order between items that had the same key.
pub proof fn lemma_keys_are_dense_afterwards(
    before: Seq<TaskView>,
    plan: Seq<MutationView>,
    after: Seq<TaskView>,
)
    requires
        before.len() <= u64::MAX,
        unique_identifiers(before),
        renumbers(before, plan),
        carried_out(before, plan, after),
    ensures
        forall|i: int|
            is_focus_index(before, i) ==> {
                &&& written_rank(plan, (#[trigger] before[i]).uuid) == Some(rank(before, i) as u64)
                &&& 1 <= rank(before, i) <= focus_count(before)
                &&& after[i].stored_key is Number
            },
        forall|r: nat|
            1 <= r <= focus_count(before) ==> holds_rank(before, #[trigger] ranked(before, r), r),
        forall|i: int, j: int|
            is_focus_index(before, i) && is_focus_index(before, j) && precedes(before, i, j)
                ==> (#[trigger] after[i]).ordinal() < (#[trigger] after[j]).ordinal(),
{
    lemma_compaction_is_dense(before);
    lemma_focus_count_bounded(before);
    lemma_cleanup_clears_strays(before);
    assert forall|i: int| is_focus_index(before, i) implies last_request(
        plan,
        (#[trigger] before[i]).uuid,
    ) == Some(assignment(before, i)) by {
        if plan == compaction_plan(before) {
            assert(Seq::<MutationView>::empty() + compaction_plan(before) =~= plan);
            lemma_focused_item_is_assigned(before, Seq::empty(), i);
        } else {
            lemma_focused_item_is_assigned(before, cleanup_plan(before), i);
        }
    }
    assert forall|i: int, j: int|
        is_focus_index(before, i) && is_focus_index(before, j) && precedes(
            before,
            i,
            j,
        ) implies (#[trigger] after[i]).ordinal() < (#[trigger] after[j]).ordinal() by {
        assert(last_request(plan, before[i].uuid) == Some(assignment(before, i)));
        assert(last_request(plan, before[j].uuid) == Some(assignment(before, j)));
        assert(rank(before, i) < rank(before, j));
    }
}

/// Running a compaction or a garbage collection a second time, on what the first
/// run left, asks for the same keys again and for nothing else: every focused item
/// gets the number that it already holds.
pub proof fn lemma_second_run_changes_nothing(
    before: Seq<TaskView>,
    plan: Seq<MutationView>,
    after: Seq<TaskView>,
)
    requires
        before.len() <= u64::MAX,
        unique_identifiers(before),
        renumbers(before, plan),
        carried_out(before, plan, after),
    ensures
        forall|i: int| is_focus_index(before, i) ==> #[trigger] rank(after, i) == rank(before, i),
        compaction(after) == Ok::<Seq<MutationView>, EngineError>(compaction_plan(before)),
        plan == cleanup_plan(before) + compaction_plan(before) ==> collection(after) == Ok::<
            Seq<MutationView>,
            EngineError,
        >(compaction_plan(before)),
{
    lemma_keys_are_dense_afterwards(before, plan, after);
    lemma_compaction_is_dense(before);
    lemma_compaction_is_dense(after);
    assert forall|i: int| is_focus_index(after, i) == is_focus_index(before, i) by {
        if 0 <= i < before.len() {
            assert(after[i].tags == before[i].tags);
        }
    }
    assert(focused_indices(after) =~= focused_indices(before));
    assert forall|i: int| is_focus_index(before, i) implies #[trigger] rank(after, i) == rank(
        before,
        i,
    ) by {
        assert forall|j: int| predecessors(after, i).contains(j) == predecessors(
            before,
            i,
        ).contains(j) by {
            if is_focus_index(before, j) && j != i {
                if precedes(before, j, i) {
                    assert(after[j].ordinal() < after[i].ordinal());
                } else {
                    assert(precedes(before, i, j));
                    assert(after[i].ordinal() < after[j].ordinal());
                }
            }
        }
        assert(predecessors(after, i) =~= predecessors(before, i));
    }
    assert(!has_malformed_focus(after)) by {
        if has_malformed_focus(after) {
            let i = choose|i: int| is_focus_index(after, i) && after[i].stored_key is Malformed;
            assert(is_focus_index(before, i));
            assert(after[i].stored_key is Number);
        }
    }
    assert forall|k: int| 0 <= k < focus_count(before) implies compaction_plan(after)[k]
        == compaction_plan(before)[k] by {
        let r = (k + 1) as nat;
        let i = ranked(before, r);
        assert(holds_rank(before, i, r));
        assert(holds_rank(after, i, r));
        assert(holds_rank(after, ranked(after, r), r));
        if ranked(after, r) != i {
            lemma_ranks_differ(after, ranked(after, r), i);
        }
        assert(after[i].uuid == before[i].uuid);
    }
    assert(compaction_plan(after) =~= compaction_plan(before));
    if plan == cleanup_plan(before) + compaction_plan(before) {
        assert(collection(before) == Ok::<Seq<MutationView>, EngineError>(plan));
        lemma_gc_leaves_no_stray_key(before, plan, after);
        lemma_no_stray_no_cleanup(after);
        assert(cleanup_plan(after) + compaction_plan(after) =~= compaction_plan(after));
    }
}

/// Where no item has a key without the `focus` tag, a clean-up asks for nothing.
pub proof fn lemma_no_stray_no_cleanup(s: Seq<TaskView>)
    requires
        forall|i: int| 0 <= i < s.len() ==> !(#[trigger] s[i]).is_stray(),
    ensures
        cleanup_plan(s) == Seq::<MutationView>::empty(),
{
    lemma_cleanup_clears_strays(s);
    if cleanup_plan(s).len() > 0 {
        assert(clears_stray(s, cleanup_plan(s)[0]));
    }
    assert(cleanup_plan(s) =~= Seq::<MutationView>::empty());
}

/// Promoting an item that already has the smallest key among the focused items asks
/// for nothing.
pub proof fn lemma_promoting_the_first_is_a_no_op(s: Seq<TaskView>, id: Seq<char>, t: int)
    requires
        target_index(s, id) == Some(t),
        !has_malformed_focus(s),
        s[t].stored_key !is Malformed,
        is_lowest_key(s, SortKey { ordinal: s[t].ordinal() as i64 }),
    ensures
        promotion(s, id) == Ok::<Option<MutationView>, EngineError>(None),
{
    assert(is_lowest_key(s, lowest_key(s)));
}

/// Promoting an item that does not have the smallest key `m` among the focused items
/// asks for one thing: that the item get a key one below `m`. Once that is done the
/// item holds a number not above `m`, and every other item holds what it held.
pub proof fn lemma_promotion_moves_one_item(
    s: Seq<TaskView>,
    id: Seq<char>,
    t: int,
    m: SortKey,
    after: Seq<TaskView>,
)
    requires
        unique_identifiers(s),
        target_index(s, id) == Some(t),
        0 <= t < s.len(),
        !has_malformed_focus(s),
        s[t].stored_key !is Malformed,
        is_lowest_key(s, m),
        s[t].ordinal() != m.ordinal,
        carried_out(
            s,
            seq![MutationView::Assign { uuid: s[t].uuid, key: NewKey::Below(m) }],
            after,
        ),
    ensures
        promotion(s, id) == Ok::<Option<MutationView>, EngineError>(
            Some(MutationView::Assign { uuid: s[t].uuid, key: NewKey::Below(m) }),
        ),
        after[t].stored_key is Number,
        after[t].ordinal() <= m.ordinal,
        forall|j: int| 0 <= j < s.len() && j != t ==> (#[trigger] after[j]).stored_key == s[j].stored_key,
{
    assert(is_lowest_key(s, lowest_key(s)));
    let request = MutationView::Assign { uuid: s[t].uuid, key: NewKey::Below(m) };
    lemma_single_request(s, request, t);
}

/// Demoting an item that already has the greatest key among the focused items asks
/// for nothing.
pub proof fn lemma_demoting_the_last_is_a_no_op(s: Seq<TaskView>, id: Seq<char>, t: int)
    requires
        target_index(s, id) == Some(t),
        !has_malformed_focus(s),
        s[t].stored_key !is Malformed,
        is_highest_key(s, SortKey { ordinal: s[t].ordinal() as i64 }),
    ensures
        demotion(s, id) == Ok::<Option<MutationView>, EngineError>(None),
{
    assert(is_highest_key(s, highest_key(s)));
}

/// Demoting an item that does not have the greatest key `m` among the focused items
/// asks for one thing: that the item get a key one above `m`. Once that is done the
/// item holds a number not below `m`, and every other item holds what it held.
pub proof fn lemma_demotion_moves_one_item(
    s: Seq<TaskView>,
    id: Seq<char>,
    t: int,
    m: SortKey,
    after: Seq<TaskView>,
)
    requires
        unique_identifiers(s),
        target_index(s, id) == Some(t),
        0 <= t < s.len(),
        !has_malformed_focus(s),
        s[t].stored_key !is Malformed,
        is_highest_key(s, m),
        s[t].ordinal() != m.ordinal,
        carried_out(
            s,
            seq![MutationView::Assign { uuid: s[t].uuid, key: NewKey::Above(m) }],
            after,
        ),
    ensures
        demotion(s, id) == Ok::<Option<MutationView>, EngineError>(
            Some(MutationView::Assign { uuid: s[t].uuid, key: NewKey::Above(m) }),
        ),
        after[t].stored_key is Number,
        after[t].ordinal() >= m.ordinal,
        forall|j: int| 0 <= j < s.len() && j != t ==> (#[trigger] after[j]).stored_key == s[j].stored_key,
{
    assert(is_highest_key(s, highest_key(s)));
    let request = MutationView::Assign { uuid: s[t].uuid, key: NewKey::Above(m) };
    lemma_single_request(s, request, t);
}

/// A plan of one request, addressed to one item, decides for that item and leaves
/// every other item alone.
pub proof fn lemma_single_request(s: Seq<TaskView>, request: MutationView, t: int)
    requires
        unique_identifiers(s),
        0 <= t < s.len(),
        request.target() == s[t].uuid,
    ensures
        last_request(seq![request], s[t].uuid) == Some(request),
        forall|j: int|
            0 <= j < s.len() && j != t ==> last_request(seq![request], (#[trigger] s[j]).uuid) is None,
{
    let plan = seq![request];
    assert(plan.last() == request);
    assert(plan.drop_last() =~= Seq::<MutationView>::empty());
    assert forall|j: int| 0 <= j < s.len() && j != t implies last_request(
        plan,
        (#[trigger] s[j]).uuid,
    ) is None by {
        if s[j].uuid == s[t].uuid {
            lemma_same_identifier_same_item(s, j, t);
        }
        assert(last_request(plan.drop_last(), s[j].uuid) is None);
    }
}

/// A lookup that matches no item's identifier and no item's short id fails, for a
/// promotion and for a demotion alike, and nothing is asked of the store.
pub proof fn lemma_unknown_item_is_not_found(s: Seq<TaskView>, id: Seq<char>)
    requires
        forall|i: int|
            0 <= i < s.len() ==> !(#[trigger] s[i]).is_named(id) && !s[i].is_aliased(id),
    ensures
        target_index(s, id) is None,
        promotion(s, id) == Err::<Option<MutationView>, EngineError>(EngineError::ItemNotFound),
        demotion(s, id) == Err::<Option<MutationView>, EngineError>(EngineError::ItemNotFound),
{
}

/// A lookup that matches some item's identifier or short id finds an item.
pub proof fn lemma_known_item_is_found(s: Seq<TaskView>, id: Seq<char>, i: int)
    requires
        0 <= i < s.len(),
        s[i].is_named(id) || s[i].is_aliased(id),
    ensures
        target_index(s, id) matches Some(t) && 0 <= t < s.len() && (s[t].is_named(id)
            || s[t].is_aliased(id)),
{
    lemma_first_match_exists(s, id, i);
}

proof fn lemma_first_match_exists(s: Seq<TaskView>, id: Seq<char>, i: int)
    requires
        0 <= i < s.len(),
    ensures
        s[i].is_named(id) ==> exists|k: int| is_first_named(s, id, k),
        s[i].is_aliased(id) ==> exists|k: int| is_first_aliased(s, id, k),
    decreases i,
{
    if s[i].is_named(id) {
        if exists|j: int| 0 <= j < i && (#[trigger] s[j]).is_named(id) {
            let j = choose|j: int| 0 <= j < i && (#[trigger] s[j]).is_named(id);
            lemma_first_match_exists(s, id, j);
        } else {
            assert(is_first_named(s, id, i));
        }
    }
    if s[i].is_aliased(id) {
        if exists|j: int| 0 <= j < i && (#[trigger] s[j]).is_aliased(id) {
            let j = choose|j: int| 0 <= j < i && (#[trigger] s[j]).is_aliased(id);
            lemma_first_match_exists(s, id, j);
        } else {
            assert(is_first_aliased(s, id, i));
        }
    }
}

} // verus!
