use flashtext::payload::Payload;
use flashtext::processor::KeywordProcessor;

fn scalar(s: &str) -> Payload {
    Payload::Scalar(String::from(s))
}

#[test]
fn taj_mahal_and_delhi() {
    let mut kp = KeywordProcessor::new(false);
    kp.add_keyword("Taj Mahal", Some(scalar("India")), None);
    kp.add_keyword("Delhi", Some(scalar("capital")), None);
    let names = kp.extract_keywords("I love Taj Mahal and Delhi", 0);
    assert_eq!(names, vec![String::from("India"), String::from("capital")]);
    let spans = kp.extract_keywords_with_spans("I love Taj Mahal and Delhi", 0);
    assert_eq!(spans.len(), 2);
    assert_eq!((spans[0].clean_name.as_str(), spans[0].start, spans[0].end), ("India", 7, 16));
    assert_eq!((spans[1].clean_name.as_str(), spans[1].start, spans[1].end), ("capital", 21, 26));
}

#[test]
fn case_insensitive_by_default() {
    let mut kp = KeywordProcessor::new(false);
    kp.add_keyword("Python", Some(scalar("py")), None);
    assert_eq!(kp.extract_keywords("pyTHON is great", 0), vec![String::from("py")]);
}

#[test]
fn longest_match_wins() {
    let mut kp = KeywordProcessor::new(false);
    kp.add_keyword("New", None, None);
    kp.add_keyword("New York", None, None);
    assert_eq!(kp.extract_keywords("I am in New York", 0), vec![String::from("New York")]);
}

#[test]
fn word_boundary_blocks_inner_match() {
    let mut kp = KeywordProcessor::new(false);
    kp.add_keyword("cat", None, None);
    let names = kp.extract_keywords("category", 0);
    assert!(names.is_empty());
}

#[test]
fn fuzzy_match_consumes_misspelled_word() {
    let mut kp = KeywordProcessor::new(false);
    kp.add_keyword("Skype", Some(scalar("skype")), None);
    let spans = kp.extract_keywords_with_spans("I use Skpe", 1);
    assert_eq!(spans.len(), 1);
    assert_eq!(spans[0].clean_name, "skype");
    assert_eq!(spans[0].end, 10);
    assert_eq!(kp.extract_keywords("I use Skpe", 1), vec![String::from("skype")]);
}

#[test]
fn fuzzy_budget_zero_stays_exact() {
    let mut kp = KeywordProcessor::new(false);
    kp.add_keyword("Skype", Some(scalar("skype")), None);
    assert!(kp.extract_keywords("I use Skpe", 0).is_empty());
}

#[test]
fn multi_payload_emits_one_match_per_element() {
    let mut kp = KeywordProcessor::new(false);
    kp.set_item("js", Payload::Multi(vec![String::from("javascript"), String::from("node")]));
    let names = kp.extract_keywords("I code js daily", 0);
    assert_eq!(names, vec![String::from("javascript"), String::from("node")]);
    let spans = kp.extract_keywords_with_spans("I code js daily", 0);
    assert_eq!(spans.len(), 2);
    assert_eq!((spans[0].start, spans[0].end), (7, 9));
    assert_eq!((spans[1].start, spans[1].end), (7, 9));
}

#[test]
fn dict_loader_shares_clean_name() {
    let mut kp = KeywordProcessor::new(false);
    let dict = vec![(
        String::from("js"),
        flashtext::loader::DictValue::List(vec![
            String::from("javascript"),
            String::from("node"),
        ]),
    )];
    kp.add_keywords_from_dict(&dict);
    assert_eq!(
        kp.extract_keywords("I love javascript and node", 0),
        vec![String::from("js"), String::from("js")]
    );
}

#[test]
fn dict_loader_flat_form() {
    let mut kp = KeywordProcessor::new(false);
    let dict = vec![(String::from("keyword"), flashtext::loader::DictValue::Str(String::from("name")))];
    kp.add_keywords_from_dict(&dict);
    assert_eq!(kp.get_keyword("keyword"), Some(scalar("name")));
    kp.remove_keywords_from_dict(&dict);
    assert!(!kp.contains("keyword"));
}

#[test]
fn spans_are_ordered_disjoint_and_anchored() {
    let mut kp = KeywordProcessor::new(false);
    kp.add_keyword("aa", None, None);
    kp.add_keyword("bb", None, None);
    let text = "aa bb aa!bb aa";
    let spans = kp.extract_keywords_with_spans(text, 0);
    assert_eq!(spans.len(), 5);
    let chars: Vec<char> = text.chars().collect();
    let is_word = |c: char| c.is_ascii_alphanumeric() || c == '_';
    for w in spans.windows(2) {
        assert!(w[0].end <= w[1].start);
    }
    for s in &spans {
        assert!(s.start < s.end && s.end <= chars.len());
        assert!(s.start == 0 || !is_word(chars[s.start - 1]) || !is_word(chars[s.start]));
        assert!(s.end == chars.len() || !is_word(chars[s.end - 1]) || !is_word(chars[s.end]));
    }
}

/// A reference scan: at each boundary-anchored start, probe every candidate
/// end for the longest registered, boundary-anchored slice, then jump past it.
fn naive_scan(kp: &KeywordProcessor, text: &str) -> Vec<String> {
    let chars: Vec<char> = text.chars().collect();
    let n = chars.len();
    let is_word = |c: char| c.is_ascii_alphanumeric() || c == '_';
    let mut out = Vec::new();
    let mut i = 0;
    while i < n {
        if i > 0 && is_word(chars[i - 1]) && is_word(chars[i]) {
            i += 1;
            continue;
        }
        let mut best: Option<usize> = None;
        for j in (i + 1)..=n {
            let anchored = j == n || !is_word(chars[j - 1]) || !is_word(chars[j]);
            if !anchored {
                continue;
            }
            let slice: String = chars[i..j].iter().collect();
            if let Some(p) = kp.get_keyword(&slice) {
                let _ = p;
                best = Some(j);
            }
        }
        match best {
            Some(j) => {
                let slice: String = chars[i..j].iter().collect();
                match kp.get_keyword(&slice).unwrap() {
                    Payload::Scalar(s) => out.push(s),
                    Payload::Multi(v) => out.extend(v),
                }
                i = j;
            }
            None => i += 1,
        }
    }
    out
}

#[test]
fn exact_extraction_agrees_with_naive_scan() {
    let mut kp = KeywordProcessor::new(false);
    kp.add_keyword("he", Some(scalar("HE")), None);
    kp.add_keyword("hello", Some(scalar("HELLO")), None);
    kp.add_keyword("lo", Some(scalar("LO")), None);
    kp.add_keyword("hello lo", Some(scalar("PHRASE")), None);
    for text in [
        "hello he lo hell",
        "he hello lo",
        "hello lo he",
        "xhe he hex",
        "lo-he.hello",
        "",
        "unrelated words only",
    ] {
        let got = kp.extract_keywords(text, 0);
        let expected = naive_scan(&kp, text);
        assert_eq!(got, expected, "texts disagree on {:?}", text);
    }
    // the longest boundary-anchored occurrences, left to right
    assert_eq!(
        kp.extract_keywords("hello he lo hell", 0),
        vec![String::from("HELLO"), String::from("HE"), String::from("LO")]
    );
}

#[test]
fn empty_text_yields_nothing() {
    let mut kp = KeywordProcessor::new(false);
    kp.add_keyword("x", None, None);
    assert!(kp.extract_keywords("", 0).is_empty());
    assert!(kp.extract_keywords_with_spans("", 5).is_empty());
}

#[test]
fn keyword_at_text_edges() {
    let mut kp = KeywordProcessor::new(false);
    kp.add_keyword("go", None, None);
    let spans = kp.extract_keywords_with_spans("go and go", 0);
    assert_eq!(spans.len(), 2);
    assert_eq!((spans[0].start, spans[0].end), (0, 2));
    assert_eq!((spans[1].start, spans[1].end), (7, 9));
}

#[test]
fn custom_boundary_set_changes_tokenisation() {
    let mut kp = KeywordProcessor::new(false);
    kp.add_keyword("cat", None, None);
    assert!(kp.extract_keywords("cat_dog", 0).is_empty());
    // drop the underscore from the word characters
    kp.set_non_word_boundaries_str(
        "abcdefghijklmnopqrstuvwxyzABCDEFGHIJKLMNOPQRSTUVWXYZ0123456789",
    );
    assert_eq!(kp.extract_keywords("cat_dog", 0), vec![String::from("cat")]);
}

#[test]
fn get_next_word_reads_leading_word() {
    let kp = KeywordProcessor::new(false);
    assert_eq!(kp.get_next_word("hello world"), "hello");
    assert_eq!(kp.get_next_word(" leading"), "");
    assert_eq!(kp.get_next_word(""), "");
}

#[test]
fn cjk_next_word_is_one_character() {
    let kp = KeywordProcessor::new(false);
    // an ideograph outside the boundary set is a word of its own
    assert_eq!(kp.get_next_word("\u{65e5}\u{672c} test"), "\u{65e5}");
    assert_eq!(kp.get_next_word("latin"), "latin");
}

#[test]
fn fuzzy_two_edits_within_budget() {
    let mut kp = KeywordProcessor::new(false);
    kp.add_keyword("chocolate", Some(scalar("cocoa")), None);
    assert!(kp.extract_keywords("some chacolote here", 1).is_empty());
    assert_eq!(kp.extract_keywords("some chacolote here", 2), vec![String::from("cocoa")]);
}

#[test]
fn levensthein_reports_neighbors_within_budget() {
    let mut kp = KeywordProcessor::new(true);
    kp.add_keyword("apple", Some(scalar("fruit")), None);
    let hits = kp.levensthein("appl", 1);
    assert_eq!(hits.len(), 1);
    assert_eq!(hits[0].0, scalar("fruit"));
    assert_eq!(hits[0].1, 1);
    assert_eq!(hits[0].2, 5);
    assert!(kp.levensthein("grape", 1).is_empty());
    assert_eq!(kp.levensthein("apple", 2).len(), 1);
    assert_eq!(kp.levensthein("apple", 2)[0].1, 0);
}
