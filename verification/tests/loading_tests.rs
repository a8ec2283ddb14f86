use std::collections::VecDeque;

use bifrons::mod_loading::{
    defs_progress, flatten_dirs, is_override_file, name_from_file_name, plan_mod_files, DefLoad, DefsProgress,
    ModEntry, ModEntryError, ModList, ModLoadState, ScriptStep,
};

fn order(waves: &[&[&str]]) -> Vec<Vec<String>> {
    waves.iter().map(|w| w.iter().map(|s| s.to_string()).collect()).collect()
}

#[test]
fn entry_is_named_after_its_file() {
    match ModEntry::from_file("assets/core.mod.ron".to_string(), ()) {
        Some(Ok(entry)) => {
            assert_eq!(entry.name, "core");
            assert_eq!(entry.file, "assets/core.mod.ron");
        },
        _ => panic!("expected an entry"),
    }
    match ModEntry::from_file("mods/extra/cool_stuff.mod.ron".to_string(), 7u8) {
        Some(Ok(entry)) => {
            assert_eq!(entry.name, "cool_stuff");
            assert_eq!(entry.settings, 7);
        },
        _ => panic!("expected an entry"),
    }
}

#[test]
fn entry_without_file_name_is_refused() {
    assert!(matches!(ModEntry::from_file("mods/..".to_string(), ()), Some(Err(ModEntryError::NotAFile))));
    assert!(matches!(ModEntry::from_file("".to_string(), ()), Some(Err(ModEntryError::NotAFile))));
    assert!(ModEntry::from_file("mods/readme.txt".to_string(), ()).is_none());
    assert_eq!(name_from_file_name(None), Err(ModEntryError::NotAFile));
    assert_eq!(name_from_file_name(Some("x.mod.ron")), Ok("x".to_string()));
}

#[test]
fn plan_orders_scripts_last_loaded_first() {
    let plan = plan_mod_files("/game", &order(&[&["assets"], &["mods/a", "mods/b"], &["mods/c"]]));
    assert_eq!(plan.lua_path, "/game/mods/c/?.lua;/game/mods/b/?.lua;/game/mods/a/?.lua;/game/assets/?.lua");
    assert_eq!(plan.scan_dirs, vec!["/game/mods/a".to_string(), "/game/mods/b".to_string(), "/game/mods/c".to_string()]);
}

#[test]
fn plan_of_nothing_is_empty() {
    let plan = plan_mod_files("/game", &Vec::new());
    assert_eq!(plan.lua_path, "");
    assert!(plan.scan_dirs.is_empty());
    assert_eq!(flatten_dirs(&order(&[&["x"], &[], &["y", "z"]])), vec!["x".to_string(), "y".to_string(), "z".to_string()]);
}

#[test]
fn module_definitions_do_not_override() {
    assert!(!is_override_file("core.mod.ron"));
    assert!(is_override_file("textures/wall.png"));
    assert!(is_override_file("mod.ron"));
}

#[test]
fn definition_loading_progress() {
    let s = |n: &str, l: DefLoad| (n.to_string(), l);
    assert_eq!(defs_progress(&vec![]), DefsProgress::Ready);
    assert_eq!(defs_progress(&vec![s("a", DefLoad::Loaded), s("b", DefLoad::Loaded)]), DefsProgress::Ready);
    assert_eq!(defs_progress(&vec![s("a", DefLoad::Pending), s("b", DefLoad::Loaded)]), DefsProgress::Waiting);
    assert_eq!(
        defs_progress(&vec![s("a", DefLoad::Pending), s("b", DefLoad::Failed), s("c", DefLoad::Failed)]),
        DefsProgress::Failed("b".to_string())
    );
}

#[test]
fn script_waves_start_in_order() {
    let mut st = ModLoadState::start_scripts(order(&[&["core"], &["a", "b"]]));
    match &st {
        ModLoadState::LoadingScripts { remaining, current } => {
            assert_eq!(remaining.len(), 2);
            assert!(current.is_empty());
        },
        _ => panic!(),
    }
    assert_eq!(st.step_scripts(false), ScriptStep::Wait);
    assert_eq!(st.step_scripts(true), ScriptStep::Spawn(vec!["core".to_string()]));
    st.set_current(vec![10]);
    assert_eq!(st.step_scripts(false), ScriptStep::Wait);
    assert_eq!(st.step_scripts(true), ScriptStep::Spawn(vec!["a".to_string(), "b".to_string()]));
    st.set_current(vec![11, 12]);
    match &st {
        ModLoadState::LoadingScripts { remaining, current } => {
            assert_eq!(remaining, &VecDeque::<Vec<String>>::new());
            assert_eq!(current, &vec![11, 12]);
        },
        _ => panic!(),
    }
    assert_eq!(st.step_scripts(true), ScriptStep::Finish);
    assert_eq!(st.step_scripts(false), ScriptStep::Finish);
}

#[test]
fn definitions_stage_waits() {
    let mut st = ModLoadState::default();
    assert_eq!(st.step_scripts(true), ScriptStep::Wait);
    st.set_current(vec![1]);
    assert!(matches!(st, ModLoadState::LoadingModDefs));
}

#[test]
fn default_mod_list_is_core() {
    let l = ModList::core_only(());
    assert_eq!(l.entries.len(), 1);
    assert_eq!(l.entries[0].file, "assets/core.mod.ron");
    assert_eq!(l.entries[0].name, "core");
    let empty: ModList<()> = ModList::default();
    assert!(empty.entries.is_empty());
}
