use bifrons::texture_build::{
    default_should_gen_mipmaps, meta_target, strip_outer_chars, toktx_args, BuildCache, TargetType, TextureMeta,
    Timestamp,
};

fn meta(is_normal: bool, mips: bool, target_type: TargetType) -> TextureMeta {
    TextureMeta { encode: "uastc".to_string(), is_normal, should_gen_mipmaps: mips, target_type }
}

#[test]
fn metadata_files_name_their_texture() {
    assert_eq!(meta_target("wall.png.ktx2.ron"), Some("wall.png".to_string()));
    assert_eq!(meta_target("wall.png"), None);
    assert_eq!(meta_target("wall.ktx2"), None);
}

#[test]
fn defaults() {
    assert!(default_should_gen_mipmaps());
    assert_eq!(TargetType::default(), TargetType::RGBA);
    assert_eq!(TargetType::RGBA.name(), "RGBA");
    assert_eq!(TargetType::RGB.name(), "RGB");
}

#[test]
fn rebuild_when_missing_new_or_changed() {
    let mut cache = BuildCache::default();
    let t = "a/wall.png".to_string();
    assert!(cache.refresh(t.clone(), true, 10, 20));
    assert_eq!(cache.get(&t), Some(Timestamp { asset: 20, meta: 10 }));
    assert!(!cache.refresh(t.clone(), true, 10, 20));
    assert!(cache.refresh(t.clone(), false, 10, 20));
    assert!(cache.refresh(t.clone(), true, 11, 20));
    assert_eq!(cache.get(&t), Some(Timestamp { asset: 20, meta: 11 }));
    assert!(cache.refresh(t.clone(), true, 11, -5));
    assert_eq!(cache.get(&t), Some(Timestamp { asset: -5, meta: 11 }));
    assert_eq!(cache.entries().len(), 1);
    cache.insert("b".to_string(), Timestamp { asset: 1, meta: 2 });
    assert_eq!(cache.entries().len(), 2);
}

#[test]
fn toktx_command_line() {
    let plain = toktx_args(&meta(false, false, TargetType::RGB), "out.ktx2", "in.png");
    assert_eq!(plain, vec!["--t2", "--zcmp", "--target_type", "RGB", "--encode", "uastc", "out.ktx2", "in.png"]);
    let full = toktx_args(&meta(true, true, TargetType::RGBA), "o", "i");
    assert_eq!(full, vec![
        "--t2", "--zcmp", "--target_type", "RGBA", "--genmipmap",
        "--linear", "--input_swizzle", "rgb1", "--normal_mode",
        "--encode", "uastc", "o", "i",
    ]);
}

#[test]
fn outer_parentheses_are_stripped() {
    assert_eq!(strip_outer_chars("({\"a\": 1})"), "{\"a\": 1}");
    assert_eq!(strip_outer_chars("()"), "");
}
