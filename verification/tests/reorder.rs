use focus_order::compact::compact_sort_order;
use focus_order::model::{EngineError, Mutation, NewKey, SortKey, StoredKey, Task};
use focus_order::reorder::{find_task, handle_deprioritize_cmd, handle_prioritize_cmd};

fn ordinal(x: f64) -> i64 {
    let bits = (x + 0.0).to_bits() as i64;
    bits ^ ((((bits >> 63) as u64) >> 1) as i64)
}

fn value(ordinal: i64) -> f64 {
    f64::from_bits((ordinal ^ ((((ordinal >> 63) as u64) >> 1) as i64)) as u64)
}

fn key(x: f64) -> SortKey {
    SortKey { ordinal: ordinal(x) }
}

fn number(x: f64) -> StoredKey {
    StoredKey::Number(key(x))
}

fn item(uuid: &str, id: Option<i64>, focus: bool, stored_key: StoredKey) -> Task {
    let tags = if focus { vec!["next".to_string(), "focus".to_string()] } else { vec!["next".to_string()] };
    Task { uuid: uuid.to_string(), id, tags, stored_key }
}

fn below(uuid: &str, anchor: f64) -> Mutation {
    Mutation::Assign { uuid: uuid.to_string(), key: NewKey::Below(key(anchor)) }
}

fn above(uuid: &str, anchor: f64) -> Mutation {
    Mutation::Assign { uuid: uuid.to_string(), key: NewKey::Above(key(anchor)) }
}

/// What the store holds once the requests have been carried out.
fn carry_out(tasks: &[Task], plan: &[Mutation]) -> Vec<Task> {
    let mut after = tasks.to_vec();
    for request in plan {
        for t in after.iter_mut() {
            match request {
                Mutation::Clear { uuid } if *uuid == t.uuid => t.stored_key = StoredKey::Absent,
                Mutation::Assign { uuid, key: new_key } if *uuid == t.uuid => {
                    t.stored_key = number(match new_key {
                        NewKey::Rank(n) => *n as f64,
                        NewKey::Below(m) => value(m.ordinal) - 1.0,
                        NewKey::Above(m) => value(m.ordinal) + 1.0,
                    })
                }
                _ => {}
            }
        }
    }
    after
}

fn store() -> Vec<Task> {
    vec![
        item("A", Some(1), true, number(5.0)),
        item("B", Some(2), true, StoredKey::Absent),
        item("C", Some(3), true, number(3.0)),
        item("D", Some(4), false, StoredKey::Absent),
        item("E", None, false, number(-9.0)),
    ]
}

#[test]
fn ordinals_round_trip() {
    for x in [-2.5, -1.0, 0.0, 0.5, 1.0, 3.0, 1.0e20] {
        assert_eq!(value(ordinal(x)), x);
    }
}

#[test]
fn promotion_after_compaction() {
    let tasks = vec![
        item("A", None, true, number(5.0)),
        item("B", None, true, StoredKey::Absent),
        item("C", None, true, number(3.0)),
    ];
    let compacted = carry_out(&tasks, &compact_sort_order(&tasks).unwrap());
    assert_eq!(compacted[0].stored_key, number(3.0));
    assert_eq!(compacted[1].stored_key, number(1.0));
    assert_eq!(compacted[2].stored_key, number(2.0));
    let request = handle_prioritize_cmd(&compacted, "C").unwrap();
    assert_eq!(request, Some(below("C", 1.0)));
    let promoted = carry_out(&compacted, &[request.unwrap()]);
    assert_eq!(promoted[0].stored_key, number(3.0));
    assert_eq!(promoted[1].stored_key, number(1.0));
    assert_eq!(promoted[2].stored_key, number(0.0));
}

#[test]
fn promotion_goes_one_below_the_smallest_key() {
    assert_eq!(handle_prioritize_cmd(&store(), "A"), Ok(Some(below("A", 0.0))));
    assert_eq!(handle_prioritize_cmd(&store(), "C"), Ok(Some(below("C", 0.0))));
    let after = carry_out(&store(), &[handle_prioritize_cmd(&store(), "A").unwrap().unwrap()]);
    assert_eq!(after[0].stored_key, number(-1.0));
    for i in 1..after.len() {
        assert_eq!(after[i], store()[i]);
    }
}

#[test]
fn promotion_of_the_first_item_asks_for_nothing() {
    assert_eq!(handle_prioritize_cmd(&store(), "B"), Ok(None));
    let tasks = vec![item("A", None, true, number(2.0)), item("B", None, true, number(2.0)), item("C", None, true, number(4.0))];
    assert_eq!(handle_prioritize_cmd(&tasks, "A"), Ok(None));
    assert_eq!(handle_prioritize_cmd(&tasks, "B"), Ok(None));
    assert_eq!(handle_prioritize_cmd(&tasks, "C"), Ok(Some(below("C", 2.0))));
}

#[test]
fn promotion_reads_focused_keys_only() {
    assert_eq!(handle_prioritize_cmd(&store(), "E"), Ok(Some(below("E", 0.0))));
    assert_eq!(handle_prioritize_cmd(&store(), "D"), Ok(None));
}

#[test]
fn promotion_by_short_id() {
    assert_eq!(handle_prioritize_cmd(&store(), "1"), Ok(Some(below("A", 0.0))));
    assert_eq!(handle_prioritize_cmd(&store(), "3"), Ok(Some(below("C", 0.0))));
    assert_eq!(handle_prioritize_cmd(&store(), "2"), Ok(None));
}

#[test]
fn promotion_of_an_unknown_item_fails() {
    assert_eq!(handle_prioritize_cmd(&store(), "Z"), Err(EngineError::ItemNotFound));
    assert_eq!(handle_prioritize_cmd(&store(), "9"), Err(EngineError::ItemNotFound));
    assert_eq!(handle_prioritize_cmd(&store(), ""), Err(EngineError::ItemNotFound));
    assert_eq!(handle_prioritize_cmd(&store(), "a"), Err(EngineError::ItemNotFound));
    assert_eq!(handle_prioritize_cmd(&store(), "01"), Err(EngineError::ItemNotFound));
    assert_eq!(handle_prioritize_cmd(&Vec::new(), "A"), Err(EngineError::ItemNotFound));
}

#[test]
fn promotion_without_focused_items_asks_for_nothing() {
    let tasks = vec![item("A", None, false, number(5.0)), item("B", None, false, StoredKey::Absent)];
    assert_eq!(handle_prioritize_cmd(&tasks, "A"), Ok(None));
    assert_eq!(handle_prioritize_cmd(&tasks, "B"), Ok(None));
    assert_eq!(handle_deprioritize_cmd(&tasks, "A"), Ok(None));
    assert_eq!(handle_deprioritize_cmd(&tasks, "B"), Ok(None));
}

#[test]
fn promotion_stops_at_a_malformed_key() {
    let mut tasks = store();
    tasks[2].stored_key = StoredKey::Malformed;
    assert_eq!(handle_prioritize_cmd(&tasks, "A"), Err(EngineError::MalformedOrderingKey));
    assert_eq!(handle_prioritize_cmd(&tasks, "C"), Err(EngineError::MalformedOrderingKey));
    assert_eq!(handle_prioritize_cmd(&tasks, "Z"), Err(EngineError::ItemNotFound));
    let mut tasks = store();
    tasks[3].stored_key = StoredKey::Malformed;
    assert_eq!(handle_prioritize_cmd(&tasks, "D"), Err(EngineError::MalformedOrderingKey));
    assert_eq!(handle_prioritize_cmd(&tasks, "A"), Ok(Some(below("A", 0.0))));
    let unfocused = vec![item("A", None, false, StoredKey::Malformed)];
    assert_eq!(handle_prioritize_cmd(&unfocused, "A"), Err(EngineError::MalformedOrderingKey));
}

#[test]
fn repeated_promotions_drift_downwards() {
    let mut tasks = store();
    for (uuid, expected) in [("A", -1.0), ("C", -2.0), ("B", -3.0), ("A", -4.0)] {
        let request = handle_prioritize_cmd(&tasks, uuid).unwrap().unwrap();
        tasks = carry_out(&tasks, &[request]);
        let place = find_task(&tasks, uuid).unwrap();
        assert_eq!(tasks[place].stored_key, number(expected));
    }
    assert_eq!(handle_prioritize_cmd(&tasks, "A"), Ok(None));
}

#[test]
fn demotion_goes_one_above_the_greatest_key() {
    assert_eq!(handle_deprioritize_cmd(&store(), "B"), Ok(Some(above("B", 5.0))));
    assert_eq!(handle_deprioritize_cmd(&store(), "C"), Ok(Some(above("C", 5.0))));
    assert_eq!(handle_deprioritize_cmd(&store(), "E"), Ok(Some(above("E", 5.0))));
    assert_eq!(handle_deprioritize_cmd(&store(), "4"), Ok(Some(above("D", 5.0))));
    let after = carry_out(&store(), &[handle_deprioritize_cmd(&store(), "B").unwrap().unwrap()]);
    assert_eq!(after[1].stored_key, number(6.0));
    for i in [0, 2, 3, 4] {
        assert_eq!(after[i], store()[i]);
    }
}

#[test]
fn demotion_of_the_last_item_asks_for_nothing() {
    assert_eq!(handle_deprioritize_cmd(&store(), "A"), Ok(None));
    assert_eq!(handle_deprioritize_cmd(&store(), "1"), Ok(None));
    let tasks = vec![item("A", None, true, StoredKey::Absent), item("B", None, true, number(-2.0))];
    assert_eq!(handle_deprioritize_cmd(&tasks, "A"), Ok(None));
    assert_eq!(handle_deprioritize_cmd(&tasks, "B"), Ok(Some(above("B", 0.0))));
}

#[test]
fn demotion_of_an_unknown_item_fails() {
    assert_eq!(handle_deprioritize_cmd(&store(), "Z"), Err(EngineError::ItemNotFound));
    assert_eq!(handle_deprioritize_cmd(&store(), "5"), Err(EngineError::ItemNotFound));
    assert_eq!(handle_deprioritize_cmd(&Vec::new(), "1"), Err(EngineError::ItemNotFound));
}

#[test]
fn demotion_stops_at_a_malformed_key() {
    let mut tasks = store();
    tasks[0].stored_key = StoredKey::Malformed;
    assert_eq!(handle_deprioritize_cmd(&tasks, "B"), Err(EngineError::MalformedOrderingKey));
    assert_eq!(handle_deprioritize_cmd(&tasks, "Z"), Err(EngineError::ItemNotFound));
}

#[test]
fn lookup_prefers_identifiers_to_short_ids() {
    let tasks = vec![
        item("x", Some(7), false, StoredKey::Absent),
        item("7", Some(1), false, StoredKey::Absent),
        item("y", Some(7), false, StoredKey::Absent),
    ];
    assert_eq!(find_task(&tasks, "7"), Some(1));
    assert_eq!(find_task(&tasks, "1"), Some(1));
    assert_eq!(find_task(&tasks, "x"), Some(0));
    assert_eq!(find_task(&tasks, "y"), Some(2));
    assert_eq!(find_task(&tasks, "8"), None);
}

#[test]
fn lookup_takes_the_first_match() {
    let tasks = vec![
        item("a", Some(-3), false, StoredKey::Absent),
        item("b", Some(5), false, StoredKey::Absent),
        item("c", Some(5), false, StoredKey::Absent),
        item("b", None, false, StoredKey::Absent),
    ];
    assert_eq!(find_task(&tasks, "5"), Some(1));
    assert_eq!(find_task(&tasks, "b"), Some(1));
    assert_eq!(find_task(&tasks, "-3"), Some(0));
    assert_eq!(find_task(&tasks, "3"), None);
    assert_eq!(find_task(&Vec::new(), "b"), None);
}
