use flashtext::payload::Payload;
use flashtext::processor::KeywordProcessor;

fn scalar(s: &str) -> Payload {
    Payload::Scalar(String::from(s))
}

#[test]
fn lookup_returns_most_recent_payload() {
    let mut kp = KeywordProcessor::new(false);
    kp.add_keyword("python", Some(scalar("lang")), None);
    kp.add_keyword("python", Some(scalar("snake")), None);
    assert_eq!(kp.get_keyword("python"), Some(scalar("snake")));
}

#[test]
fn inserts_do_not_disturb_each_other() {
    let mut kp = KeywordProcessor::new(false);
    kp.add_keyword("java", Some(scalar("jvm")), None);
    kp.add_keyword("rust", Some(scalar("crab")), None);
    assert_eq!(kp.get_keyword("java"), Some(scalar("jvm")));
    assert_eq!(kp.get_keyword("rust"), Some(scalar("crab")));
}

#[test]
fn add_keyword_reports_new_keywords_only() {
    let mut kp = KeywordProcessor::new(false);
    assert!(kp.add_keyword("python", None, None));
    assert!(!kp.add_keyword("python", Some(scalar("py")), None));
}

#[test]
fn default_clean_name_is_the_keyword() {
    let mut kp = KeywordProcessor::new(false);
    kp.add_keyword("Python", None, None);
    assert_eq!(kp.get_keyword("python"), Some(scalar("Python")));
}

#[test]
fn insert_then_remove_restores_size() {
    let mut kp = KeywordProcessor::new(false);
    kp.add_keyword("apple", Some(scalar("fruit")), None);
    let before = kp.len();
    assert!(kp.add_keyword("pear", None, None));
    assert!(kp.remove_keyword("pear"));
    assert!(!kp.contains("pear"));
    assert_eq!(kp.len(), before);
    assert!(kp.contains("apple"));
}

#[test]
fn remove_missing_keyword_is_false() {
    let mut kp = KeywordProcessor::new(false);
    kp.add_keyword("apple", None, None);
    assert!(!kp.remove_keyword("pears"));
    assert!(!kp.remove_keyword("app"));
    assert_eq!(kp.len(), 1);
}

#[test]
fn swapcase_lookup_is_identical() {
    let mut kp = KeywordProcessor::new(false);
    kp.add_keyword("PyThOn", Some(scalar("py")), None);
    assert_eq!(kp.get_keyword("pYtHoN"), kp.get_keyword("PyThOn"));
    assert_eq!(kp.get_keyword("PYTHON"), Some(scalar("py")));
}

#[test]
fn case_sensitive_registry_distinguishes() {
    let mut kp = KeywordProcessor::new(true);
    kp.add_keyword("Apple", Some(scalar("brand")), None);
    assert!(kp.contains("Apple"));
    assert!(!kp.contains("apple"));
}

#[test]
fn case_override_on_insensitive_registry() {
    let mut kp = KeywordProcessor::new(false);
    kp.add_keyword("NASA", Some(scalar("agency")), Some(true));
    assert!(kp.contains("NASA"));
}

#[test]
fn remove_and_prune_keeps_prefix_keyword() {
    let mut kp = KeywordProcessor::new(false);
    kp.add_keyword("Apple", None, None);
    kp.add_keyword("App", None, None);
    assert!(kp.remove_keyword("Apple"));
    assert!(kp.contains("App"));
    assert!(!kp.contains("Apple"));
    assert_eq!(kp.len(), 1);
    let all = kp.get_all_keywords();
    for (k, _) in &all {
        assert!(k.to_lowercase() == "app");
    }
}

#[test]
fn get_item_and_del_item_key_errors() {
    let mut kp = KeywordProcessor::new(false);
    kp.add_keyword("known", None, None);
    match kp.get_item("missing") {
        Err(flashtext::errors::KpError::KeyNotFound(k)) => assert_eq!(k, "missing"),
        Ok(_) => panic!("found a payload for a missing key"),
    }
    match kp.del_item("absent") {
        Err(flashtext::errors::KpError::KeyNotFound(k)) => assert_eq!(k, "absent"),
        Ok(_) => panic!("deleted a missing key"),
    }
    assert!(kp.get_item("known").is_ok());
    assert!(kp.del_item("known").is_ok());
    assert!(!kp.contains("known"));
}

#[test]
fn set_item_registers_payload() {
    let mut kp = KeywordProcessor::new(false);
    kp.set_item("js", Payload::Multi(vec![String::from("javascript"), String::from("node")]));
    assert_eq!(
        kp.get_keyword("js"),
        Some(Payload::Multi(vec![String::from("javascript"), String::from("node")]))
    );
}

#[test]
fn list_bulk_insert_and_remove() {
    let mut kp = KeywordProcessor::new(false);
    let words = vec![String::from("one"), String::from("two"), String::from("three")];
    kp.add_keywords_from_list(&words);
    assert_eq!(kp.len(), 3);
    assert!(kp.contains("two"));
    kp.remove_keywords_from_list(&vec![String::from("two")]);
    assert_eq!(kp.len(), 2);
    assert!(!kp.contains("two"));
}

#[test]
fn error_message_names_the_key() {
    let e = flashtext::errors::KpError::KeyNotFound(String::from("zig"));
    assert_eq!(e.message(), "key not found: zig");
}

#[test]
fn get_all_keywords_lists_registered_entries() {
    let mut kp = KeywordProcessor::new(true);
    kp.add_keyword("ab", Some(scalar("x")), None);
    kp.add_keyword("ac", Some(scalar("y")), None);
    let mut all = kp.get_all_keywords();
    all.sort_by(|a, b| a.0.cmp(&b.0));
    assert_eq!(all.len(), 2);
    assert_eq!(all[0], (String::from("ab"), scalar("x")));
    assert_eq!(all[1], (String::from("ac"), scalar("y")));
}

#[test]
fn boundary_getter_returns_default_set() {
    let kp = KeywordProcessor::new(false);
    let b = kp.get_non_word_boundaries();
    assert_eq!(b.len(), 63);
    assert!(b.contains(&'a'));
    assert!(b.contains(&'Z'));
    assert!(b.contains(&'0'));
    assert!(b.contains(&'_'));
    assert!(!b.contains(&' '));
}
