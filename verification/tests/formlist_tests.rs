use bifrons::formlist::{FormList, InjectCommand};
use bifrons::keyed::KeyedRows;

type List = FormList<&'static str, u32>;

fn names(list: &List) -> Vec<String> {
    match list {
        FormList::Union(rows) => {
            let mut v: Vec<String> = rows.entries().iter().map(|(k, _)| k.clone()).collect();
            v.sort();
            v
        },
        _ => panic!("not a union list"),
    }
}

#[test]
fn roll_each_add_insert_remove() {
    let mut list: List = FormList::RollEach(vec!["a", "b"]);
    let changed = list.inject_roll_each(&vec![
        InjectCommand::Add("c"),
        InjectCommand::Insert(0, "z"),
        InjectCommand::Remove(2),
    ]);
    assert!(changed);
    match &list {
        FormList::RollEach(rows) => assert_eq!(rows, &vec!["z", "a", "c"]),
        _ => panic!(),
    }
}

#[test]
fn roll_each_out_of_range_changes_nothing() {
    let mut list: List = FormList::RollEach(vec!["a", "b"]);
    let changed = list.inject_roll_each(&vec![
        InjectCommand::Insert(2, "late"),
        InjectCommand::Remove(5),
    ]);
    assert!(!changed);
    match &list {
        FormList::RollEach(rows) => assert_eq!(rows, &vec!["a", "b"]),
        _ => panic!(),
    }
}

#[test]
fn injection_into_other_kind_is_refused() {
    let mut list: List = FormList::Union(KeyedRows::new());
    assert!(!list.inject_roll_each(&vec![InjectCommand::Add("a")]));
    let mut list2: List = FormList::RollEach(vec!["a"]);
    assert!(!list2.inject_union(&vec![InjectCommand::Add("b".to_string())]));
    assert!(!list2.inject_weighted(&vec![InjectCommand::Remove("a".to_string())]));
    match &list2 {
        FormList::RollEach(rows) => assert_eq!(rows, &vec!["a"]),
        _ => panic!(),
    }
}

#[test]
fn union_add_and_remove_report_changes() {
    let mut list: List = FormList::Union(KeyedRows::new());
    assert!(list.inject_union(&vec![InjectCommand::Add("sword".to_string()), InjectCommand::Add("shield".to_string())]));
    assert_eq!(names(&list), vec!["shield".to_string(), "sword".to_string()]);
    // adding what is there and removing what is not change nothing
    assert!(!list.inject_union(&vec![InjectCommand::Add("sword".to_string()), InjectCommand::Remove("bow".to_string())]));
    assert_eq!(names(&list), vec!["shield".to_string(), "sword".to_string()]);
    assert!(list.inject_union(&vec![InjectCommand::Remove("sword".to_string())]));
    assert_eq!(names(&list), vec!["shield".to_string()]);
}

#[test]
fn weighted_insert_and_remove() {
    let mut list: List = FormList::Weighted(KeyedRows::new());
    assert!(list.inject_weighted(&vec![
        InjectCommand::Insert("goblin".to_string(), 3),
        InjectCommand::Insert("orc".to_string(), 1),
        InjectCommand::Insert("goblin".to_string(), 5),
    ]));
    match &list {
        FormList::Weighted(rows) => {
            assert_eq!(rows.len(), 2);
            assert_eq!(rows.get(&"goblin".to_string()), Some(&5));
            assert_eq!(rows.get(&"orc".to_string()), Some(&1));
        },
        _ => panic!(),
    }
    assert!(!list.inject_weighted(&vec![InjectCommand::Remove("troll".to_string())]));
    assert!(list.inject_weighted(&vec![InjectCommand::Remove("orc".to_string())]));
    match &list {
        FormList::Weighted(rows) => {
            assert_eq!(rows.len(), 1);
            assert!(!rows.contains(&"orc".to_string()));
        },
        _ => panic!(),
    }
}

#[test]
fn keyed_rows_basics() {
    let mut rows: KeyedRows<u8> = KeyedRows::new();
    rows.insert("a".to_string(), 1);
    rows.insert("b".to_string(), 2);
    rows.insert("a".to_string(), 3);
    assert_eq!(rows.len(), 2);
    assert_eq!(rows.remove(&"a".to_string()), Some(3));
    assert_eq!(rows.remove(&"a".to_string()), None);
    assert_eq!(rows.entries().len(), 1);
}

#[test]
fn script_side_helpers() {
    let roll: List = FormList::RollEach(vec!["a", "b", "c"]);
    assert_eq!(roll.kind(), "roll_each");
    assert_eq!(List::Union(KeyedRows::new()).kind(), "union");
    assert_eq!(List::Weighted(KeyedRows::new()).kind(), "weighted");
    assert_eq!(List::script_slot(1, 3), Some(0));
    assert_eq!(List::script_slot(3, 3), Some(2));
    assert_eq!(List::script_slot(4, 3), None);
    assert_eq!(List::script_slot(0, 3), None);
    assert_eq!(List::script_slot(-7, 3), None);
}

#[test]
fn script_remove_by_index_skips_the_first_row() {
    let mut roll: List = FormList::RollEach(vec!["a", "b", "c"]);
    roll.script_remove_index(1);
    roll.script_remove_index(4);
    match &roll {
        FormList::RollEach(rows) => assert_eq!(rows, &vec!["a", "b", "c"]),
        _ => panic!(),
    }
    roll.script_remove_index(2);
    match &roll {
        FormList::RollEach(rows) => assert_eq!(rows, &vec!["a", "c"]),
        _ => panic!(),
    }
}

#[test]
fn script_remove_by_name() {
    let mut w = KeyedRows::new();
    w.insert("x".to_string(), 1u32);
    let mut list: List = FormList::Weighted(w);
    list.script_remove_name(&"x".to_string());
    match &list {
        FormList::Weighted(rows) => assert_eq!(rows.len(), 0),
        _ => panic!(),
    }
    let mut roll: List = FormList::RollEach(vec!["x"]);
    roll.script_remove_name(&"x".to_string());
    match &roll {
        FormList::RollEach(rows) => assert_eq!(rows, &vec!["x"]),
        _ => panic!(),
    }
}
