use focus_order::cleanup::clean_up_non_focus_tasks;
use focus_order::compact::compact_sort_order;
use focus_order::gc::handle_gc;
use focus_order::model::{EngineError, Mutation, NewKey, SortKey, StoredKey, Task};

fn ordinal(x: f64) -> i64 {
    let bits = (x + 0.0).to_bits() as i64;
    bits ^ ((((bits >> 63) as u64) >> 1) as i64)
}

fn number(x: f64) -> StoredKey {
    StoredKey::Number(SortKey { ordinal: ordinal(x) })
}

fn focused(uuid: &str, stored_key: StoredKey) -> Task {
    Task { uuid: uuid.to_string(), id: None, tags: vec!["focus".to_string()], stored_key }
}

fn unfocused(uuid: &str, stored_key: StoredKey) -> Task {
    Task { uuid: uuid.to_string(), id: None, tags: vec!["home".to_string()], stored_key }
}

fn assign(uuid: &str, rank: u64) -> Mutation {
    Mutation::Assign { uuid: uuid.to_string(), key: NewKey::Rank(rank) }
}

fn clear(uuid: &str) -> Mutation {
    Mutation::Clear { uuid: uuid.to_string() }
}

/// What the store holds once the plan has been carried out.
fn carry_out(tasks: &[Task], plan: &[Mutation]) -> Vec<Task> {
    let mut after = tasks.to_vec();
    for request in plan {
        for t in after.iter_mut() {
            match request {
                Mutation::Clear { uuid } if *uuid == t.uuid => t.stored_key = StoredKey::Absent,
                Mutation::Assign { uuid, key: NewKey::Rank(n) } if *uuid == t.uuid => {
                    t.stored_key = number(*n as f64)
                }
                _ => {}
            }
        }
    }
    after
}

#[test]
fn compaction_renumbers_by_ascending_key() {
    let tasks = vec![focused("A", number(5.0)), focused("B", StoredKey::Absent), focused("C", number(3.0))];
    assert_eq!(compact_sort_order(&tasks), Ok(vec![assign("B", 1), assign("C", 2), assign("A", 3)]));
}

#[test]
fn compaction_of_nothing_asks_for_nothing() {
    assert_eq!(compact_sort_order(&Vec::new()), Ok(Vec::new()));
    let tasks = vec![unfocused("A", number(5.0)), unfocused("B", StoredKey::Absent)];
    assert_eq!(compact_sort_order(&tasks), Ok(Vec::new()));
}

#[test]
fn compaction_of_one_item_gives_it_one() {
    let tasks = vec![focused("A", number(-40.0))];
    assert_eq!(compact_sort_order(&tasks), Ok(vec![assign("A", 1)]));
}

#[test]
fn compaction_keeps_snapshot_order_between_equal_keys() {
    let tasks = vec![
        focused("A", number(2.0)),
        focused("B", number(1.0)),
        focused("C", number(2.0)),
        focused("D", number(1.0)),
        focused("E", number(2.0)),
    ];
    assert_eq!(
        compact_sort_order(&tasks),
        Ok(vec![assign("B", 1), assign("D", 2), assign("A", 3), assign("C", 4), assign("E", 5)])
    );
}

#[test]
fn compaction_counts_a_missing_key_as_zero() {
    let tasks = vec![
        focused("A", StoredKey::Absent),
        focused("B", number(0.0)),
        focused("C", number(-1.0)),
        focused("D", StoredKey::Absent),
        focused("E", number(0.5)),
    ];
    assert_eq!(
        compact_sort_order(&tasks),
        Ok(vec![assign("C", 1), assign("A", 2), assign("B", 3), assign("D", 4), assign("E", 5)])
    );
}

#[test]
fn compaction_orders_fractions_and_negative_keys() {
    let tasks = vec![
        focused("A", number(0.5)),
        focused("B", number(-0.5)),
        focused("C", number(0.25)),
        focused("D", number(-1.0e10)),
        focused("E", number(1.0e10)),
        focused("F", number(-0.25)),
    ];
    assert_eq!(
        compact_sort_order(&tasks),
        Ok(vec![
            assign("D", 1),
            assign("B", 2),
            assign("F", 3),
            assign("C", 4),
            assign("A", 5),
            assign("E", 6)
        ])
    );
}

#[test]
fn compaction_passes_over_unfocused_items() {
    let tasks = vec![
        unfocused("U", number(-100.0)),
        focused("A", number(9.0)),
        unfocused("V", StoredKey::Malformed),
        focused("B", number(8.0)),
        unfocused("W", StoredKey::Absent),
    ];
    assert_eq!(compact_sort_order(&tasks), Ok(vec![assign("B", 1), assign("A", 2)]));
}

#[test]
fn compaction_stops_at_a_malformed_key() {
    let tasks = vec![focused("A", number(5.0)), focused("B", StoredKey::Malformed), focused("C", number(3.0))];
    assert_eq!(compact_sort_order(&tasks), Err(EngineError::MalformedOrderingKey));
}

#[test]
fn compaction_of_reversed_keys() {
    let tasks: Vec<Task> = (0..20).map(|i| focused(&format!("t{}", i), number((20 - i) as f64))).collect();
    let expected: Vec<Mutation> = (0..20).map(|i| assign(&format!("t{}", 19 - i), i + 1)).collect();
    assert_eq!(compact_sort_order(&tasks), Ok(expected));
}

#[test]
fn compaction_assigns_each_rank_once() {
    let keys = [3.0, -1.0, 3.0, 0.0, 7.5, -1.0, 2.0, 0.0, 3.0];
    let tasks: Vec<Task> = keys.iter().enumerate().map(|(i, k)| focused(&format!("t{}", i), number(*k))).collect();
    let plan = compact_sort_order(&tasks).unwrap();
    assert_eq!(plan.len(), keys.len());
    for (place, request) in plan.iter().enumerate() {
        match request {
            Mutation::Assign { key: NewKey::Rank(n), .. } => assert_eq!(*n, place as u64 + 1),
            other => panic!("unexpected request {:?}", other),
        }
    }
    let after = carry_out(&tasks, &plan);
    for i in 0..tasks.len() {
        for j in 0..tasks.len() {
            if keys[i] < keys[j] || (keys[i] == keys[j] && i < j) {
                assert!(after[i].sort_order().unwrap().ordinal < after[j].sort_order().unwrap().ordinal);
            }
        }
    }
}

#[test]
fn compaction_twice_gives_the_same_keys() {
    let tasks = vec![
        focused("A", number(5.0)),
        focused("B", StoredKey::Absent),
        focused("C", number(3.0)),
        focused("D", number(3.0)),
    ];
    let first = compact_sort_order(&tasks).unwrap();
    let after = carry_out(&tasks, &first);
    let second = compact_sort_order(&after).unwrap();
    assert_eq!(first, second);
    assert_eq!(carry_out(&after, &second), after);
}

#[test]
fn clean_up_clears_keys_without_focus() {
    let tasks = vec![
        unfocused("U", number(4.0)),
        focused("A", number(9.0)),
        unfocused("V", StoredKey::Absent),
        unfocused("W", StoredKey::Malformed),
        focused("B", StoredKey::Absent),
        unfocused("X", number(0.0)),
    ];
    assert_eq!(clean_up_non_focus_tasks(&tasks), vec![clear("U"), clear("W"), clear("X")]);
}

#[test]
fn clean_up_of_a_clean_store_asks_for_nothing() {
    assert_eq!(clean_up_non_focus_tasks(&Vec::new()), Vec::new());
    let tasks = vec![focused("A", number(9.0)), unfocused("V", StoredKey::Absent), focused("B", StoredKey::Malformed)];
    assert_eq!(clean_up_non_focus_tasks(&tasks), Vec::new());
}

#[test]
fn gc_clears_then_renumbers() {
    let tasks = vec![
        unfocused("U", number(4.0)),
        focused("A", number(5.0)),
        focused("B", StoredKey::Absent),
        unfocused("V", StoredKey::Absent),
        focused("C", number(3.0)),
        unfocused("W", StoredKey::Malformed),
    ];
    assert_eq!(
        handle_gc(&tasks),
        Ok(vec![clear("U"), clear("W"), assign("B", 1), assign("C", 2), assign("A", 3)])
    );
}

#[test]
fn gc_leaves_no_key_without_focus() {
    let tasks = vec![
        unfocused("U", number(4.0)),
        focused("A", number(5.0)),
        unfocused("V", StoredKey::Absent),
        unfocused("W", StoredKey::Malformed),
    ];
    let after = carry_out(&tasks, &handle_gc(&tasks).unwrap());
    for t in &after {
        if !t.is_focused() {
            assert_eq!(t.stored_key, StoredKey::Absent);
        }
    }
    assert_eq!(after[1].stored_key, number(1.0));
}

#[test]
fn gc_twice_gives_the_same_keys() {
    let tasks = vec![
        unfocused("U", number(4.0)),
        focused("A", number(5.0)),
        focused("B", StoredKey::Absent),
        focused("C", number(3.0)),
        unfocused("W", StoredKey::Malformed),
    ];
    let first = handle_gc(&tasks).unwrap();
    let after = carry_out(&tasks, &first);
    let second = handle_gc(&after).unwrap();
    assert_eq!(second, vec![assign("B", 1), assign("C", 2), assign("A", 3)]);
    assert_eq!(carry_out(&after, &second), after);
}

#[test]
fn gc_stops_at_a_malformed_focused_key() {
    let tasks = vec![unfocused("U", number(4.0)), focused("A", StoredKey::Malformed)];
    assert_eq!(handle_gc(&tasks), Err(EngineError::MalformedOrderingKey));
}

#[test]
fn gc_of_an_empty_store_asks_for_nothing() {
    assert_eq!(handle_gc(&Vec::new()), Ok(Vec::new()));
}
