use bifrons::lang::{LineDictionary, Lines, ENGLISH};

fn lines(pairs: &[(&str, &str)]) -> Lines {
    let mut l = Lines::new();
    for (k, v) in pairs {
        l.insert(k.to_string(), v.to_string());
    }
    l
}

#[test]
fn dictionary_starts_in_english_and_empty() {
    let d = LineDictionary::default();
    assert_eq!(d.current(), ENGLISH);
    assert_eq!(d.current(), "english");
    assert!(d.get("english").is_none());
}

#[test]
fn merge_creates_language_and_reads_back() {
    let mut d = LineDictionary::default();
    d.merge("english", &lines(&[("greet", "Hello"), ("bye", "Goodbye")]));
    let en = d.get("english").expect("language created");
    assert_eq!(en.len(), 2);
    assert_eq!(en.get("greet").map(|s| s.as_str()), Some("Hello"));
    assert_eq!(en.get("bye").map(|s| s.as_str()), Some("Goodbye"));
    assert!(en.get("missing").is_none());
    assert!(d.get("german").is_none());
}

#[test]
fn merge_overrides_and_keeps_other_lines() {
    let mut d = LineDictionary::default();
    d.merge("english", &lines(&[("greet", "Hello"), ("bye", "Goodbye")]));
    d.merge("english", &lines(&[("greet", "Hi"), ("thanks", "Thank you")]));
    let en = d.get("english").unwrap();
    assert_eq!(en.len(), 3);
    assert_eq!(en.get("greet").unwrap(), "Hi");
    assert_eq!(en.get("bye").unwrap(), "Goodbye");
    assert_eq!(en.get("thanks").unwrap(), "Thank you");
}

#[test]
fn merge_leaves_other_languages_and_current() {
    let mut d = LineDictionary::default();
    d.merge("english", &lines(&[("greet", "Hello")]));
    d.merge("german", &lines(&[("greet", "Hallo")]));
    assert_eq!(d.get("english").unwrap().get("greet").unwrap(), "Hello");
    assert_eq!(d.get("german").unwrap().get("greet").unwrap(), "Hallo");
    assert_eq!(d.current(), "english");
    d.set_current("german".to_string());
    assert_eq!(d.current(), "german");
    assert_eq!(d.get("english").unwrap().get("greet").unwrap(), "Hello");
}

#[test]
fn merging_twice_is_merging_once() {
    let table = lines(&[("a", "1"), ("b", "2")]);
    let mut once = LineDictionary::default();
    once.merge("x", &table);
    let mut twice = LineDictionary::default();
    twice.merge("x", &table);
    twice.merge("x", &table);
    let a = once.get("x").unwrap();
    let b = twice.get("x").unwrap();
    assert_eq!(a.len(), b.len());
    for (k, v) in a.pairs() {
        assert_eq!(b.get(k).unwrap(), v);
    }
}

#[test]
fn merging_in_turn_is_merging_the_override() {
    let first = lines(&[("a", "1"), ("b", "2")]);
    let second = lines(&[("b", "3"), ("c", "4")]);
    let mut stepwise = LineDictionary::default();
    stepwise.merge("x", &first);
    stepwise.merge("x", &second);
    let mut combined_table = lines(&[("a", "1"), ("b", "2")]);
    combined_table.extend_from(&second);
    let mut combined = LineDictionary::default();
    combined.merge("x", &combined_table);
    let s = stepwise.get("x").unwrap();
    let c = combined.get("x").unwrap();
    assert_eq!(s.len(), 3);
    assert_eq!(c.len(), 3);
    for key in ["a", "b", "c"] {
        assert_eq!(s.get(key), c.get(key));
    }
    assert_eq!(s.get("b").unwrap(), "3");
}

#[test]
fn lines_insert_replaces_and_default_is_empty() {
    let mut l = Lines::default();
    assert!(l.is_empty());
    l.insert("k".to_string(), "one".to_string());
    l.insert("k".to_string(), "two".to_string());
    assert_eq!(l.len(), 1);
    assert_eq!(l.get("k").unwrap(), "two");
    assert_eq!(l.pairs().len(), 1);
}
