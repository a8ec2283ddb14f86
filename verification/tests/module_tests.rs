use bifrons::module::{ModError, ModMap, Module};
use bifrons::version::{Version, VersionBound, VersionDependency};

#[test]
fn version_bound_is_valid() {
    assert!(VersionDependency::Any.is_valid(Version(0, 0, 0)));
    assert!(VersionDependency::Any.is_valid(Version(1, 3, 2)));

    {
        let vs = "0.0.0";
        let vd = VersionDependency::Versioned(VersionBound::Exactly(0), VersionBound::Exactly(0), VersionBound::Exactly(0));

        assert!( vd.is_valid(Version(0, 0, 0)), "{}", vs);
        assert!(!vd.is_valid(Version(1, 3, 0)), "{}", vs);
        assert!(!vd.is_valid(Version(0, 0, 1)), "{}", vs);
    }
    {
        let vs = "0.0.*";
        let vd = VersionDependency::Versioned(VersionBound::Exactly(0), VersionBound::Exactly(0), VersionBound::Any);

        assert!( vd.is_valid(Version(0, 0, 0)), "{}", vs);
        assert!( vd.is_valid(Version(0, 0, 1)), "{}", vs);
        assert!( vd.is_valid(Version(0, 0, 5)), "{}", vs);
        assert!(!vd.is_valid(Version(0, 5, 1)), "{}", vs);
        assert!(!vd.is_valid(Version(1, 3, 0)), "{}", vs);
    }
    {
        let vs = "^1.^6.*";
        let vd = VersionDependency::Versioned(VersionBound::AtLeast(1), VersionBound::AtLeast(6), VersionBound::Any);

        assert!(!vd.is_valid(Version(0, 0, 0)), "{}", vs);
        assert!(!vd.is_valid(Version(0, 5, 1)), "{}", vs);
        assert!(!vd.is_valid(Version(1, 3, 0)), "{}", vs);
        assert!( vd.is_valid(Version(1, 6, 0)), "{}", vs);
        assert!( vd.is_valid(Version(1, 6, 3)), "{}", vs);
        assert!( vd.is_valid(Version(2, 8, 3)), "{}", vs);
    }
    {
        let vs = "2.3-5.*";
        let vd = VersionDependency::Versioned(VersionBound::Exactly(2), VersionBound::Between(3, 5), VersionBound::Any);

        assert!(!vd.is_valid(Version(0, 0, 0)), "{}", vs);
        assert!(!vd.is_valid(Version(1, 6, 7)), "{}", vs);
        assert!( vd.is_valid(Version(2, 3, 0)), "{}", vs);
        assert!( vd.is_valid(Version(2, 5, 7)), "{}", vs);
        assert!(!vd.is_valid(Version(2, 6, 7)), "{}", vs);
        assert!(!vd.is_valid(Version(3, 4, 7)), "{}", vs);
    }
}

fn module(version: Version, priority: i64, dependencies: Vec<(String, VersionDependency)>) -> Module {
    Module { version, priority, dependencies, ..Default::default() }
}

#[test]
fn sorted_mod_list() {
    let core_name = "core".to_string();
    let core = module(Version(0, 16, 4), -99999999, vec![]);
    let editor_name = "editor".to_string();
    let editor = module(Version::default(), -100, vec![("core".to_string(), VersionDependency::Any)]);
    let unofficial_patch_name = "unofficial_patch".to_string();
    let unofficial_patch = module(Version::default(), -10, vec![("core".to_string(), VersionDependency::Any)]);
    let caked_up_cthulhu_name = "caked_up_cthulhu".to_string();
    let caked_up_cthulhu = module(Version::default(), 666, vec![("core".to_string(), VersionDependency::Any)]);
    let lore_friendly_fix_name = "lore_friendly_fix".to_string();
    let lore_friendly_fix = module(Version::default(), -1000, vec![
        ("core".to_string(), VersionDependency::Versioned(VersionBound::Exactly(0), VersionBound::AtLeast(3), VersionBound::Any)),
        ("unofficial_patch".to_string(), VersionDependency::Any),
        ("caked_up_cthulhu".to_string(), VersionDependency::Any),
    ]);
    let crash_simulator = module(Version::default(), 0, vec![("crash_simulator".to_string(), VersionDependency::Any)]);

    {
        let mut mods = ModMap::new();
        assert_eq!(Ok(Vec::<Vec<String>>::new()), Module::sorted_load_order(&mods));

        mods.insert(core_name.clone(), core.clone());
        assert_eq!(
            Ok(vec![vec![core_name.clone()]]),
            Module::sorted_load_order(&mods)
        );

        mods.insert(editor_name.clone(), editor.clone());
        assert_eq!(
            Ok(vec![vec![core_name.clone()], vec![editor_name.clone()]]),
            Module::sorted_load_order(&mods)
        );

        mods.insert(lore_friendly_fix_name.clone(), lore_friendly_fix.clone());
        mods.insert(unofficial_patch_name.clone(), unofficial_patch.clone());
        assert_eq!(
            Err(ModError::MissingDependency { name: "caked_up_cthulhu".to_string(), required_by: Some("lore_friendly_fix".to_string()) }),
            Module::sorted_load_order(&mods)
        );

        mods.insert(caked_up_cthulhu_name.clone(), caked_up_cthulhu.clone());
        assert_eq!(
            Ok(vec![vec![core_name.clone()], vec![editor_name.clone(), unofficial_patch_name.clone(), caked_up_cthulhu_name.clone()], vec![lore_friendly_fix_name.clone()]]),
            Module::sorted_load_order(&mods)
        );

        mods.insert("crash_simulator".into(), crash_simulator.clone());
        assert_eq!(
            Err(ModError::CircularDependency { circular: "crash_simulator".into(), parent: Some("crash_simulator".into()) }),
            Module::sorted_load_order(&mods)
        );
    }
}

#[test]
fn incompatible_version_is_reported() {
    let mut mods = ModMap::new();
    let wants = VersionDependency::Versioned(VersionBound::Exactly(0), VersionBound::AtLeast(3), VersionBound::Any);
    mods.insert("fix".to_string(), module(Version::default(), 0, vec![("core".to_string(), wants)]));
    mods.insert("core".to_string(), module(Version(0, 2, 0), 0, vec![]));
    assert_eq!(
        Err(ModError::IncompatibleVersion {
            name: "core".to_string(),
            version: Version(0, 2, 0),
            allowed: wants,
            required_by: Some("fix".to_string()),
        }),
        Module::sorted_load_order(&mods)
    );
}

#[test]
fn equal_priorities_load_by_name() {
    let mut mods = ModMap::new();
    mods.insert("zeta".to_string(), module(Version::default(), 5, vec![]));
    mods.insert("alpha".to_string(), module(Version::default(), 5, vec![]));
    mods.insert("mid".to_string(), module(Version::default(), 1, vec![]));
    assert_eq!(
        Ok(vec![vec!["mid".to_string(), "alpha".to_string(), "zeta".to_string()]]),
        Module::sorted_load_order(&mods)
    );
}

#[test]
fn dependency_chain_makes_one_wave_each() {
    let mut mods = ModMap::new();
    mods.insert("c".to_string(), module(Version::default(), 0, vec![("b".to_string(), VersionDependency::Any)]));
    mods.insert("b".to_string(), module(Version::default(), 0, vec![("a".to_string(), VersionDependency::Any)]));
    mods.insert("a".to_string(), module(Version::default(), 0, vec![]));
    assert_eq!(
        Ok(vec![vec!["a".to_string()], vec!["b".to_string()], vec!["c".to_string()]]),
        Module::sorted_load_order(&mods)
    );
}

#[test]
fn two_module_cycle_is_circular() {
    let mut mods = ModMap::new();
    mods.insert("a".to_string(), module(Version::default(), 0, vec![("b".to_string(), VersionDependency::Any)]));
    mods.insert("b".to_string(), module(Version::default(), 0, vec![("a".to_string(), VersionDependency::Any)]));
    match Module::sorted_load_order(&mods) {
        Err(ModError::CircularDependency { .. }) => {},
        other => panic!("expected a circular dependency, got {:?}", other),
    }
}

#[test]
fn version_defaults_and_bounds() {
    assert_eq!(Version::default(), Version(0, 1, 0));
    assert_eq!(VersionBound::default(), VersionBound::Any);
    assert_eq!(VersionDependency::default(), VersionDependency::Any);
    assert!(VersionBound::Outside(1, 5).is_valid(0) == false);
    assert!(VersionBound::Outside(5, 1).is_valid(3));
    assert!(!VersionBound::Outside(5, 1).is_valid(6));
    let m = Module::default();
    assert!(m.is_version_valid(VersionDependency::Versioned(VersionBound::Exactly(0), VersionBound::Exactly(1), VersionBound::Exactly(0))));
    assert!(!m.is_version_valid(VersionDependency::Versioned(VersionBound::Exactly(1), VersionBound::Any, VersionBound::Any)));
}

#[test]
fn map_insert_and_get() {
    let mut mods = ModMap::new();
    assert!(mods.is_empty());
    mods.insert("a".to_string(), module(Version(1, 0, 0), 3, vec![]));
    mods.insert("a".to_string(), module(Version(2, 0, 0), 4, vec![]));
    assert_eq!(mods.len(), 1);
    assert_eq!(mods.get(&"a".to_string()).map(|m| m.version), Some(Version(2, 0, 0)));
    assert!(mods.get(&"b".to_string()).is_none());
}

#[test]
fn version_checked_when_first_reached() {
    // The constraint is checked when the search first reaches the module it names;
    // a module already placed is not checked again.
    let wants = VersionDependency::Versioned(VersionBound::Exactly(0), VersionBound::AtLeast(3), VersionBound::Any);
    let mut mods = ModMap::new();
    mods.insert("core".to_string(), module(Version(0, 2, 0), 0, vec![]));
    mods.insert("fix".to_string(), module(Version::default(), 0, vec![("core".to_string(), wants)]));
    assert_eq!(
        Ok(vec![vec!["core".to_string()], vec!["fix".to_string()]]),
        Module::sorted_load_order(&mods)
    );
}

#[test]
fn circular_error_names_the_cycle() {
    let mut mods = ModMap::new();
    mods.insert("core".to_string(), module(Version::default(), 0, vec![]));
    mods.insert("a".to_string(), module(Version::default(), 0, vec![("core".to_string(), VersionDependency::Any), ("b".to_string(), VersionDependency::Any)]));
    mods.insert("b".to_string(), module(Version::default(), 0, vec![("a".to_string(), VersionDependency::Any)]));
    assert_eq!(
        Err(ModError::CircularDependency { circular: "a".to_string(), parent: Some("b".to_string()) }),
        Module::sorted_load_order(&mods)
    );
}
