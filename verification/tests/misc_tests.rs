use std::collections::{HashMap, HashSet};

use bifrons::collections::Singleton;
use bifrons::grid::{CellID, EntityGrid, Grid, GridShape};
use bifrons::keyed::KeyedRows;
use bifrons::skeleton::{bone_parent, record_bone_entity};
use bifrons::text::fill_placeholders;
use bifrons::scripts::{
    is_call_ready, plan_instance, room_reveal_call, take_ready_calls, HookCall, InstanceAction, InstanceKind, InstancePlan, ScriptIds,
};

#[test]
fn singletons() {
    let s: HashSet<u32> = HashSet::singleton(7);
    assert_eq!(s.len(), 1);
    assert!(s.contains(&7));
    let m: HashMap<String, u8> = HashMap::singleton(("core".to_string(), 3));
    assert_eq!(m.len(), 1);
    assert_eq!(m.get("core"), Some(&3));
}

#[test]
fn script_ids_count_up_from_one() {
    let mut ids = ScriptIds::default();
    assert_eq!(ids.peek_next(), 1);
    assert_eq!(ids.gen_next_id(), 1);
    assert_eq!(ids.gen_next_id(), 2);
    assert_eq!(ids.peek_next(), 3);
    assert_ne!(ids.gen_next_id(), ScriptIds::COLLECTIVIST_ID);
}

#[test]
fn grid_types() {
    let shape = GridShape::Rect { rows: 2, columns: 3 };
    assert_eq!(shape.clone(), GridShape::Rect { rows: 2, columns: 3 });
    assert_ne!(GridShape::BitGrid(vec![vec![1, 0]]), shape);
    let here = CellID::Local { x: 1, y: 2 };
    let there = CellID::Global { x: 1, y: 2, room: "hall".to_string(), grid: "floor".to_string() };
    assert_ne!(here, there);
}

#[test]
fn script_instances_are_planned_by_kind() {
    let p = plan_instance(InstanceKind::Unique, 5, Some(2), true);
    assert_eq!(p, InstancePlan { ref_id: 5, action: InstanceAction::LoadNew });
    let p = plan_instance(InstanceKind::Shared, 5, Some(2), true);
    assert_eq!(p, InstancePlan { ref_id: 2, action: InstanceAction::ReuseShared });
    let p = plan_instance(InstanceKind::Shared, 5, None, true);
    assert_eq!(p, InstancePlan { ref_id: 5, action: InstanceAction::LoadShared });
    let p = plan_instance(InstanceKind::Collectivist, 5, None, true);
    assert_eq!(p, InstancePlan { ref_id: 0, action: InstanceAction::JoinCollectivist { first: true } });
    let p = plan_instance(InstanceKind::Collectivist, 5, None, false);
    assert_eq!(p, InstancePlan { ref_id: 0, action: InstanceAction::JoinCollectivist { first: false } });
    assert_eq!(InstanceKind::default(), InstanceKind::Unique);
}

#[test]
fn queued_calls_run_once_their_instances_exist() {
    let loaded = vec![3u32, 4];
    assert!(is_call_ready(&vec![], &loaded));
    assert!(is_call_ready(&vec![0, 3], &loaded));
    assert!(!is_call_ready(&vec![3, 9], &loaded));
    let queue = vec![
        HookCall { script_ids: vec![9], hook: "a" },
        HookCall::next_frame("b"),
        HookCall { script_ids: vec![4], hook: "c" },
        HookCall { script_ids: vec![0, 7], hook: "d" },
    ];
    let (ready, waiting) = take_ready_calls(queue, &loaded);
    assert_eq!(ready.iter().map(|c| c.hook).collect::<Vec<_>>(), vec!["b", "c"]);
    assert_eq!(waiting.iter().map(|c| c.hook).collect::<Vec<_>>(), vec!["a", "d"]);
}

#[test]
fn placeholders_are_filled_in_order() {
    let p = |v: &[&str]| v.iter().map(|s| s.to_string()).collect::<Vec<String>>();
    assert_eq!(fill_placeholders("hp: {} / {}", &p(&["3", "10"])), "hp: 3 / 10");
    assert_eq!(fill_placeholders("a{}b", &p(&["x", "y"])), "axby");
    assert_eq!(fill_placeholders("a{}b{}c", &p(&["x"])), "axbc");
    assert_eq!(fill_placeholders("{{}", &p(&["x"])), "{x");
    assert_eq!(fill_placeholders("", &p(&["x"])), "x");
    assert_eq!(fill_placeholders("plain", &p(&[])), "plain");
}

#[test]
fn entity_grid_lookup() {
    let mut grids = KeyedRows::new();
    grids.insert("floor".to_string(), Grid { rotation: (), actor_rotation: (), cells: vec![vec![1u8, 2], vec![3]] });
    let mut rooms = KeyedRows::new();
    rooms.insert("hall".to_string(), grids);
    let eg = EntityGrid(rooms);
    let (hall, floor) = ("hall".to_string(), "floor".to_string());
    assert_eq!(eg.get(&hall, &floor, 1, 0), Some(&2));
    assert_eq!(eg.get(&hall, &floor, 0, 1), Some(&3));
    assert_eq!(eg.get(&hall, &floor, 1, 1), None);
    assert_eq!(eg.get(&hall, &floor, 0, 2), None);
    assert_eq!(eg.get(&"cellar".to_string(), &floor, 0, 0), None);
    assert_eq!(eg.get(&hall, &"wall".to_string(), 0, 0), None);
}

#[test]
fn bones_and_parents() {
    let mut bones: KeyedRows<Vec<u64>> = KeyedRows::new();
    record_bone_entity(&mut bones, "arm".to_string(), 7);
    record_bone_entity(&mut bones, "arm".to_string(), 9);
    record_bone_entity(&mut bones, "leg".to_string(), 4);
    assert_eq!(bones.get(&"arm".to_string()), Some(&vec![7, 9]));
    assert_eq!(bone_parent(bones.get(&"arm".to_string()), 1), 7);
    assert_eq!(bone_parent(bones.get(&"head".to_string()), 1), 1);
    assert_eq!(bone_parent(Some(&vec![]), 1), 1);
}

#[test]
fn rooms_queue_reveal_calls_when_revealed() {
    assert!(room_reveal_call(false, false, vec![1], "r").is_none());
    let c = room_reveal_call(false, true, vec![1, 2], "r").unwrap();
    assert_eq!(c.script_ids, vec![1, 2]);
    assert_eq!(c.hook, "r");
    assert!(room_reveal_call(true, false, vec![], "r").is_some());
}
