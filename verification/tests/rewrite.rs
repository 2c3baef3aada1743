use flashtext::payload::Payload;
use flashtext::processor::KeywordProcessor;

fn scalar(s: &str) -> Payload {
    Payload::Scalar(String::from(s))
}

#[test]
fn replace_rewrites_matches() {
    let mut kp = KeywordProcessor::new(false);
    kp.add_keyword("New Delhi", Some(scalar("NCR")), None);
    kp.add_keyword("Big Apple", Some(scalar("New York")), None);
    let out = kp.replace_keywords("I love Big Apple and new delhi.", 0);
    assert_eq!(out, "I love New York and NCR.");
}

#[test]
fn replace_is_identity_without_matches() {
    let mut kp = KeywordProcessor::new(false);
    kp.add_keyword("python", None, None);
    let text = "nothing of note here";
    assert_eq!(kp.replace_keywords(text, 0), text);
    let (out, records) = kp.replace_keywords_with_records(text, 0);
    assert_eq!(out, text);
    assert!(records.is_empty());
}

#[test]
fn replacement_records_cover_original_slices() {
    let mut kp = KeywordProcessor::new(false);
    kp.add_keyword("Taj Mahal", Some(scalar("India")), None);
    let (out, records) = kp.replace_keywords_with_records("see the Taj Mahal now", 0);
    assert_eq!(out, "see the India now");
    assert_eq!(records.len(), 1);
    assert_eq!(records[0].original, "Taj Mahal");
    assert_eq!(records[0].replacement, "India");
    assert_eq!((records[0].start, records[0].end), (8, 17));
}

#[test]
fn multi_payload_replaces_with_first_element() {
    let mut kp = KeywordProcessor::new(false);
    kp.set_item("js", Payload::Multi(vec![String::from("javascript"), String::from("node")]));
    assert_eq!(kp.replace_keywords("try js", 0), "try javascript");
}

#[test]
fn reextracting_replaced_text_preserves_payloads() {
    // the clean names are registered keywords themselves, so a second
    // extraction sees exactly the payloads the replacement put in
    let mut kp = KeywordProcessor::new(false);
    kp.add_keyword("Big Apple", Some(scalar("Apple")), None);
    kp.add_keyword("Apple", None, None);
    let (out, records) = kp.replace_keywords_with_records("I love Big Apple", 0);
    assert_eq!(out, "I love Apple");
    let replaced: Vec<String> = records.iter().map(|r| r.replacement.clone()).collect();
    let re_extracted = kp.extract_keywords(out.as_str(), 0);
    assert_eq!(re_extracted, replaced);
}

#[test]
fn fuzzy_replace_consumes_whole_word() {
    let mut kp = KeywordProcessor::new(false);
    kp.add_keyword("Skype", Some(scalar("Skype")), None);
    assert_eq!(kp.replace_keywords("I use Skpe daily", 1), "I use Skype daily");
}

#[test]
fn sentences_split_and_tag() {
    let mut kp = KeywordProcessor::new(false);
    kp.add_keyword("Python", None, None);
    kp.add_keyword("Java", None, None);
    let pairs = kp.extract_sentences("I love Python. Java is good.", None);
    assert_eq!(pairs.len(), 2);
    assert_eq!(pairs[0].0, "I love Python.");
    assert_eq!(pairs[0].1, vec![String::from("Python")]);
    assert_eq!(pairs[1].0, " Java is good.");
    assert_eq!(pairs[1].1, vec![String::from("Java")]);
}

#[test]
fn sentences_without_matches_are_dropped() {
    let mut kp = KeywordProcessor::new(false);
    kp.add_keyword("Python", None, None);
    let pairs = kp.extract_sentences("Nothing here. Python wins! Still nothing.", None);
    assert_eq!(pairs.len(), 1);
    assert_eq!(pairs[0].0, " Python wins!");
}

#[test]
fn sentences_absorb_delimiter_runs() {
    let mut kp = KeywordProcessor::new(false);
    kp.add_keyword("wow", None, None);
    let pairs = kp.extract_sentences("wow!!! plain", None);
    assert_eq!(pairs.len(), 1);
    assert_eq!(pairs[0].0, "wow!!!");
}

#[test]
fn sentences_custom_delimiters() {
    let mut kp = KeywordProcessor::new(false);
    kp.add_keyword("left", None, None);
    kp.add_keyword("right", None, None);
    let pairs = kp.extract_sentences("left|right", Some(vec!['|']));
    assert_eq!(pairs.len(), 2);
    assert_eq!(pairs[0].0, "left|");
    assert_eq!(pairs[1].0, "right");
}

#[test]
fn parse_line_splits_on_arrow() {
    let (kw, cn) = flashtext::loader::parse_line("  java_2e => java  ");
    assert_eq!(kw, "java_2e");
    assert_eq!(cn, Some(String::from("java")));
    let (kw2, cn2) = flashtext::loader::parse_line("  plain keyword  ");
    assert_eq!(kw2, "plain keyword");
    assert_eq!(cn2, None);
    let (kw3, cn3) = flashtext::loader::parse_line("");
    assert_eq!(kw3, "");
    assert_eq!(cn3, None);
}

#[test]
fn json_paths_are_recognised() {
    assert!(flashtext::loader::is_json_path("keywords.json"));
    assert!(!flashtext::loader::is_json_path("keywords.txt"));
    assert!(!flashtext::loader::is_json_path("json"));
}

#[test]
fn render_first_picks_the_first_label() {
    assert_eq!(scalar("one").render_first(), "one");
    let multi = Payload::Multi(vec![String::from("a"), String::from("b")]);
    assert_eq!(multi.render_first(), "a");
    assert_eq!(Payload::Multi(vec![]).render_first(), "");
}
