//! Compaction: the focused items get the keys 1, 2, 3, ... in the order of the
//! keys they had; items with the same key keep the order of the snapshot.

use crate::model::{
    plan_view, snapshot, EngineError, Mutation, MutationView, NewKey, Task, TaskView,
};
use vstd::prelude::*;
use vstd::relations::injective_on;
use vstd::set_lib::{
    lemma_int_range, lemma_len_subset, lemma_map_size, lemma_subset_equality, set_int_range,
};

verus! {

/// `i` is the place of a focused item in the snapshot.
pub open spec fn is_focus_index(s: Seq<TaskView>, i: int) -> bool {
    0 <= i < s.len() && s[i].is_focused()
}

/// The item at `j` comes before the item at `i`: it has the smaller key, or the
/// same key and the earlier place in the snapshot.
pub open spec fn precedes(s: Seq<TaskView>, j: int, i: int) -> bool {
    s[j].ordinal() < s[i].ordinal() || (s[j].ordinal() == s[i].ordinal() && j < i)
}

/// The places of the focused items.
pub open spec fn focused_indices(s: Seq<TaskView>) -> Set<int> {
    Set::new(|i: int| is_focus_index(s, i))
}

/// The number of focused items.
pub open spec fn focus_count(s: Seq<TaskView>) -> nat {
    focused_indices(s).len()
}

/// The places of the focused items that come before the item at `i`.
pub open spec fn predecessors(s: Seq<TaskView>, i: int) -> Set<int> {
    Set::new(|j: int| is_focus_index(s, j) && precedes(s, j, i))
}

/// The key that compaction gives the focused item at `i`: one more than the number
/// of focused items that come before it.
pub open spec fn rank(s: Seq<TaskView>, i: int) -> nat {
    predecessors(s, i).len() + 1
}

/// The focused item at `i` gets the key `r`.
pub open spec fn holds_rank(s: Seq<TaskView>, i: int, r: nat) -> bool {
    is_focus_index(s, i) && rank(s, i) == r
}

/// The place of the focused item that gets the key `r`.
pub open spec fn ranked(s: Seq<TaskView>, r: nat) -> int {
    choose|i: int| holds_rank(s, i, r)
}

/// A focused item holds something that is no number.
pub open spec fn has_malformed_focus(s: Seq<TaskView>) -> bool {
    exists|i: int| is_focus_index(s, i) && s[i].stored_key is Malformed
}

/// The requests of a compaction: one for each focused item, by ascending new key.
pub open spec fn compaction_plan(s: Seq<TaskView>) -> Seq<MutationView> {
    Seq::new(
        focus_count(s),
        |k: int|
            MutationView::Assign {
                uuid: s[ranked(s, (k + 1) as nat)].uuid,
                key: NewKey::Rank((k + 1) as u64),
            },
    )
}

/// What a compaction comes to: its requests, or the error that stops it.
pub open spec fn compaction(s: Seq<TaskView>) -> Result<Seq<MutationView>, EngineError> {
    if has_malformed_focus(s) {
        Err(EngineError::MalformedOrderingKey)
    } else {
        Ok(compaction_plan(s))
    }
}

/// There are no more focused items than items.
pub proof fn lemma_focus_count_bounded(s: Seq<TaskView>)
    ensures
        focused_indices(s).finite(),
        focus_count(s) <= s.len(),
{
    let all = set_int_range(0, s.len() as int);
    lemma_int_range(0, s.len() as int);
    assert(focused_indices(s).subset_of(all));
    lemma_len_subset(focused_indices(s), all);
}

/// A focused item that comes before another gets the smaller key.
pub proof fn lemma_rank_follows_order(s: Seq<TaskView>, i: int, j: int)
    requires
        is_focus_index(s, i),
        is_focus_index(s, j),
        precedes(s, i, j),
    ensures
        rank(s, i) < rank(s, j),
{
    lemma_focus_count_bounded(s);
    let before_i = predecessors(s, i);
    let before_j = predecessors(s, j);
    assert(before_j.subset_of(focused_indices(s)));
    lemma_len_subset(before_j, focused_indices(s));
    assert(before_i.subset_of(focused_indices(s)));
    lemma_len_subset(before_i, focused_indices(s));
    assert(before_i.insert(i).subset_of(before_j));
    lemma_len_subset(before_i.insert(i), before_j);
    assert(!before_i.contains(i));
}

/// The key of a focused item is at least 1 and at most the number of focused items.
pub proof fn lemma_rank_in_range(s: Seq<TaskView>, i: int)
    requires
        is_focus_index(s, i),
    ensures
        1 <= rank(s, i) <= focus_count(s),
{
    lemma_focus_count_bounded(s);
    let others = focused_indices(s).remove(i);
    assert(predecessors(s, i).subset_of(others));
    lemma_len_subset(predecessors(s, i), others);
}

/// Two focused items get different keys.
pub proof fn lemma_ranks_differ(s: Seq<TaskView>, i: int, j: int)
    requires
        is_focus_index(s, i),
        is_focus_index(s, j),
        i != j,
    ensures
        rank(s, i) != rank(s, j),
{
    if precedes(s, i, j) {
        lemma_rank_follows_order(s, i, j);
    } else {
        assert(precedes(s, j, i));
        lemma_rank_follows_order(s, j, i);
    }
}

/// Every key from 1 to the number of focused items is given to some focused item.
pub proof fn lemma_every_rank_is_held(s: Seq<TaskView>, r: nat)
    requires
        1 <= r <= focus_count(s),
    ensures
        holds_rank(s, ranked(s, r), r),
{
    lemma_focus_count_bounded(s);
    let places = focused_indices(s);
    let key_of = |i: int| rank(s, i) as int;
    let given = places.map(key_of);
    let wanted = set_int_range(1, focus_count(s) as int + 1);
    assert(injective_on(key_of, places)) by {
        assert forall|i: int, j: int|
            places.contains(i) && places.contains(j) && #[trigger] key_of(i) == #[trigger] key_of(
                j,
            ) implies i == j by {
            if i != j {
                lemma_ranks_differ(s, i, j);
            }
        }
    }
    lemma_map_size(places, given, key_of);
    lemma_int_range(1, focus_count(s) as int + 1);
    assert(given.subset_of(wanted)) by {
        assert forall|k: int| given.contains(k) implies wanted.contains(k) by {
            let i = choose|i: int| places.contains(i) && k == key_of(i);
            lemma_rank_in_range(s, i);
        }
    }
    lemma_subset_equality(given, wanted);
    assert(wanted.contains(r as int));
    assert(given.contains(r as int));
    let i = choose|i: int| places.contains(i) && r as int == key_of(i);
    assert(holds_rank(s, i, r));
}

/// The places `order[0]`, ..., `order[a - 1]`.
spec fn listed(order: Seq<usize>, a: int) -> Set<int> {
    Set::new(|j: int| exists|b: int| 0 <= b < a && #[trigger] order[b] as int == j)
}

proof fn lemma_listed_size(order: Seq<usize>, a: int)
    requires
        order.no_duplicates(),
        0 <= a <= order.len(),
    ensures
        listed(order, a).finite(),
        listed(order, a).len() == a,
    decreases a,
{
    if a == 0 {
        assert(listed(order, a) =~= Set::<int>::empty());
    } else {
        lemma_listed_size(order, a - 1);
        let last = order[a - 1] as int;
        assert(listed(order, a) =~= listed(order, a - 1).insert(last)) by {
            assert forall|j: int| listed(order, a - 1).insert(last).contains(j) implies listed(
                order,
                a,
            ).contains(j) by {
                if j == last {
                    assert(order[a - 1] as int == j);
                } else {
                    let b = choose|b: int| 0 <= b < a - 1 && #[trigger] order[b] as int == j;
                    assert(0 <= b < a && order[b] as int == j);
                }
            }
        }
        assert(!listed(order, a - 1).contains(last));
    }
}

/// `order` holds the places of the focused items among the first `n` items, each
/// once and with its key beside it in `keys`, those that come first in front.
spec fn lists_focus(s: Seq<TaskView>, order: Seq<usize>, keys: Seq<i64>, n: int) -> bool {
    &&& order.len() == keys.len()
    &&& forall|a: int|
        0 <= a < order.len() ==> {
            &&& is_focus_index(s, #[trigger] order[a] as int)
            &&& order[a] < n
            &&& s[order[a] as int].stored_key !is Malformed
            &&& keys[a] == s[order[a] as int].ordinal()
        }
    &&& forall|a: int, b: int|
        0 <= a < b < order.len() ==> precedes(s, #[trigger] order[a] as int, #[trigger] order[b] as int)
    &&& forall|j: usize| is_focus_index(s, j as int) && j < n ==> #[trigger] order.contains(j)
}

/// Where a sorted list of keys takes a key that has to stand behind those equal to it.
fn insertion_point(keys: &Vec<i64>, key: i64) -> (p: usize)
    requires
        forall|a: int, b: int| 0 <= a < b < keys.len() ==> keys[a] <= keys[b],
    ensures
        p <= keys.len(),
        forall|a: int| 0 <= a < p ==> keys[a] <= key,
        forall|a: int| p <= a < keys.len() ==> keys[a] > key,
{
    let mut p: usize = keys.len();
    while p > 0 && keys[p - 1] > key
        invariant
            p <= keys.len(),
            forall|a: int| p <= a < keys.len() ==> keys[a] > key,
        decreases p,
    {
        p -= 1;
    }
    p
}

proof fn lemma_sorted_order_gives_ranks(s: Seq<TaskView>, order: Seq<usize>, keys: Seq<i64>)
    requires
        s.len() <= usize::MAX,
        lists_focus(s, order, keys, s.len() as int),
    ensures
        order.len() == focus_count(s),
        !has_malformed_focus(s),
        forall|a: int|
            0 <= a < order.len() ==> ranked(s, (a + 1) as nat) == #[trigger] order[a] as int,
{
    assert(order.no_duplicates()) by {
        assert forall|a: int, b: int|
            0 <= a < order.len() && 0 <= b < order.len() && a != b implies order[a] != order[b] by {
            if a < b {
                assert(precedes(s, order[a] as int, order[b] as int));
            } else {
                assert(precedes(s, order[b] as int, order[a] as int));
            }
        }
    }
    let len = order.len() as int;
    assert forall|j: int| is_focus_index(s, j) implies listed(order, len).contains(j) by {
        assert(order.contains(j as usize));
        let b = choose|b: int| 0 <= b < order.len() && order[b] == j as usize;
        assert(order[b] as int == j);
    }
    assert(focused_indices(s) =~= listed(order, len));
    lemma_listed_size(order, len);
    assert(!has_malformed_focus(s)) by {
        if has_malformed_focus(s) {
            let j = choose|j: int| is_focus_index(s, j) && s[j].stored_key is Malformed;
            assert(listed(order, len).contains(j));
        }
    }
    assert forall|a: int| 0 <= a < order.len() implies holds_rank(
        s,
        #[trigger] order[a] as int,
        (a + 1) as nat,
    ) by {
        let i = order[a] as int;
        assert forall|j: int| predecessors(s, i).contains(j) implies listed(order, a).contains(
            j,
        ) by {
            assert(listed(order, len).contains(j));
            let b = choose|b: int| 0 <= b < len && #[trigger] order[b] as int == j;
            if b > a {
                assert(precedes(s, order[a] as int, order[b] as int));
            }
        }
        assert forall|j: int| listed(order, a).contains(j) implies predecessors(s, i).contains(
            j,
        ) by {
            let b = choose|b: int| 0 <= b < a && #[trigger] order[b] as int == j;
            assert(precedes(s, order[b] as int, order[a] as int));
        }
        assert(predecessors(s, i) =~= listed(order, a));
        lemma_listed_size(order, a);
    }
    assert forall|a: int| 0 <= a < order.len() implies ranked(s, (a + 1) as nat)
        == #[trigger] order[a] as int by {
        assert(holds_rank(s, order[a] as int, (a + 1) as nat));
        let i = ranked(s, (a + 1) as nat);
        assert(holds_rank(s, i, (a + 1) as nat));
        if i != order[a] as int {
            lemma_ranks_differ(s, i, order[a] as int);
        }
    }
}

/// The places of the focused items, those that come first in front.
fn focus_order(tasks: &Vec<Task>) -> (outcome: Result<Vec<usize>, EngineError>)
    ensures
        match outcome {
            Ok(order) => {
                &&& !has_malformed_focus(snapshot(tasks@))
                &&& order.len() == focus_count(snapshot(tasks@))
                &&& forall|a: int|
                    0 <= a < order.len() ==> {
                        &&& #[trigger] order[a] < tasks.len()
                        &&& ranked(snapshot(tasks@), (a + 1) as nat) == order[a]
                    }
            },
            Err(e) => e == EngineError::MalformedOrderingKey && has_malformed_focus(
                snapshot(tasks@),
            ),
        },
{
    let ghost s = snapshot(tasks@);
    let mut order: Vec<usize> = Vec::new();
    let mut keys: Vec<i64> = Vec::new();
    let mut i: usize = 0;
    while i < tasks.len()
        invariant
            i <= tasks.len(),
            s == snapshot(tasks@),
            lists_focus(s, order@, keys@, i as int),
        decreases tasks.len() - i,
    {
        if tasks[i].is_focused() {
            assert(is_focus_index(s, i as int));
            match tasks[i].sort_order() {
                Err(e) => {
                    assert(s[i as int].stored_key is Malformed);
                    return Err(e);
                },
                Ok(key) => {
                    assert forall|a: int, b: int| 0 <= a < b < keys.len() implies keys[a]
                        <= keys[b] by {
                        assert(precedes(s, order@[a] as int, order@[b] as int));
                    }
                    let p = insertion_point(&keys, key.ordinal);
                    let ghost old_order = order@;
                    let ghost old_keys = keys@;
                    order.insert(p, i);
                    keys.insert(p, key.ordinal);
                    proof {
                        assert forall|j: usize|
                            is_focus_index(s, j as int) && j < i + 1 implies #[trigger] order@.contains(
                            j,
                        ) by {
                            if j == i {
                                assert(order@[p as int] == j);
                            } else {
                                assert(old_order.contains(j));
                                let b = choose|b: int|
                                    0 <= b < old_order.len() && old_order[b] == j;
                                if b < p {
                                    assert(order@[b] == j);
                                } else {
                                    assert(order@[b + 1] == j);
                                }
                            }
                        }
                        assert forall|a: int, b: int| 0 <= a < b < order@.len() implies precedes(
                            s,
                            #[trigger] order@[a] as int,
                            #[trigger] order@[b] as int,
                        ) by {
                            if a < p && b > p {
                                assert(precedes(s, old_order[a] as int, old_order[b - 1] as int));
                            } else if a < p && b < p {
                                assert(precedes(s, old_order[a] as int, old_order[b] as int));
                            } else if a > p {
                                assert(precedes(
                                    s,
                                    old_order[a - 1] as int,
                                    old_order[b - 1] as int,
                                ));
                            } else if a == p {
                                assert(old_keys[b - 1] > key.ordinal);
                            } else {
                                assert(old_keys[a] <= key.ordinal);
                                assert(old_order[a] < i);
                            }
                        }
                    }
                },
            }
        } else {
            assert forall|j: usize|
                is_focus_index(s, j as int) && j < i + 1 implies #[trigger] order@.contains(j) by {
                assert(j < i);
            }
        }
        i += 1;
    }
    proof {
        assert(s.len() == tasks.len());
        lemma_sorted_order_gives_ranks(s, order@, keys@);
    }
    Ok(order)
}

/// Plans the compaction of a snapshot: each focused item gets the next whole number
/// from 1 on, by ascending key, and by place in the snapshot where keys are equal.
/// An item without a key counts as having the key zero. Nothing is planned, and the
/// error is returned, where a focused item holds something that is no number.
pub fn compact_sort_order(tasks: &Vec<Task>) -> (outcome: Result<Vec<Mutation>, EngineError>)
    ensures
        match outcome {
            Ok(plan) => compaction(snapshot(tasks@)) == Ok::<Seq<MutationView>, EngineError>(
                plan_view(plan@),
            ),
            Err(e) => compaction(snapshot(tasks@)) == Err::<Seq<MutationView>, EngineError>(e),
        },
{
    let ghost s = snapshot(tasks@);
    let order = match focus_order(tasks) {
        Ok(order) => order,
        Err(e) => {
            return Err(e);
        },
    };
    let mut plan: Vec<Mutation> = Vec::new();
    let mut a: usize = 0;
    while a < order.len()
        invariant
            a <= order.len(),
            s == snapshot(tasks@),
            order.len() == focus_count(s),
            forall|b: int|
                0 <= b < order.len() ==> {
                    &&& #[trigger] order[b] < tasks.len()
                    &&& ranked(s, (b + 1) as nat) == order[b]
                },
            plan.len() == a,
            forall|b: int| 0 <= b < a ==> (#[trigger] plan[b])@ == compaction_plan(s)[b],
        decreases order.len() - a,
    {
        let place = order[a];
        assert(ranked(s, (a + 1) as nat) == place);
        let request = Mutation::Assign {
            uuid: tasks[place].uuid.clone(),
            key: NewKey::Rank((a + 1) as u64),
        };
        assert(request@ == compaction_plan(s)[a as int]);
        plan.push(request);
        a += 1;
    }
    assert(plan_view(plan@) =~= compaction_plan(s));
    Ok(plan)
}

} // verus!
