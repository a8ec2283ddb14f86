use bifrons::assets::{fix_missing_extension, FormListLoader, ItemLoader, ModuleLoader, ToInit};
use bifrons::input::CameraType;
use bifrons::text::{str_lt, strip_suffix};

#[test]
fn missing_extension_is_added() {
    assert_eq!(fix_missing_extension("lists/enemies".to_string(), FormListLoader.extensions()), "lists/enemies.list.ron");
    assert_eq!(fix_missing_extension("items/sword".to_string(), ItemLoader.extensions()), "items/sword.item.ron");
}

#[test]
fn present_extension_is_kept() {
    assert_eq!(fix_missing_extension("lists/enemies.list.ron".to_string(), FormListLoader.extensions()), "lists/enemies.list.ron");
    assert_eq!(fix_missing_extension("a/b.png".to_string(), ItemLoader.extensions()), "a/b.png");
    assert_eq!(fix_missing_extension("plain".to_string(), &[]), "plain");
}

#[test]
fn loader_extensions() {
    assert_eq!(ItemLoader.extensions(), &["item.ron"]);
    assert_eq!(ModuleLoader.extensions(), &["mod.ron"]);
    assert_eq!(FormListLoader.extensions(), &["list.ron"]);
    let _marker: ToInit<u8> = ToInit::default();
}

#[test]
fn camera_toggle() {
    assert_eq!(CameraType::Free.toggle(), CameraType::Following);
    assert_eq!(CameraType::Following.toggle(), CameraType::Free);
    assert_eq!(CameraType::Locked.toggle(), CameraType::Locked);
    for c in [CameraType::Free, CameraType::Following, CameraType::Locked] {
        assert_eq!(c.toggle().toggle(), c);
    }
    assert_eq!(CameraType::default(), CameraType::Following);
}

#[test]
fn suffixes_and_order() {
    assert_eq!(strip_suffix("core.mod.ron", ".mod.ron"), Some("core".to_string()));
    assert_eq!(strip_suffix("core.ron", ".mod.ron"), None);
    assert_eq!(strip_suffix(".mod.ron", ".mod.ron"), Some(String::new()));
    assert!(str_lt(&"alpha".to_string(), &"beta".to_string()));
    assert!(!str_lt(&"beta".to_string(), &"alpha".to_string()));
    assert!(str_lt(&"ab".to_string(), &"abc".to_string()));
    assert!(!str_lt(&"same".to_string(), &"same".to_string()));
}
