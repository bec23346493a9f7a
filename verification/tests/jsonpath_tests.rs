use json_diff::jsonpath::{JsonPath, PathIndex};

fn path_of(segs: Vec<PathIndex>) -> JsonPath {
    let mut p = JsonPath::new();
    for s in segs {
        p.extend(s);
    }
    p
}

fn key(s: &str) -> PathIndex {
    PathIndex::Key(s.to_string())
}

#[test]
fn test_regex() {
    let ss = "$.\"ss\".[3].\"[4]\".\"5\".\"hh\".*.<[0-9][a-z]>";
    let parsed = JsonPath::from_str(ss).unwrap();
    println!("{:?}", parsed);
    let expected = path_of(vec![
        key("ss"),
        PathIndex::Index(3),
        key("[4]"),
        key("5"),
        key("hh"),
        PathIndex::Any,
        PathIndex::Regex("[0-9][a-z]".to_string()),
    ]);
    assert_eq!(parsed, expected);
}

#[test]
fn parse_root_only() {
    let p = JsonPath::from_str("$").unwrap();
    assert_eq!(p, JsonPath::new());
}

#[test]
fn parse_bare_keys_and_index() {
    let p = JsonPath::from_str("$.a.[0].b").unwrap();
    assert_eq!(p, path_of(vec![key("a"), PathIndex::Index(0), key("b")]));
}

#[test]
fn parse_missing_root_marker() {
    assert!(JsonPath::from_str("a.b").is_err());
    assert!(JsonPath::from_str("").is_err());
}

#[test]
fn parse_malformed_bracket() {
    assert!(JsonPath::from_str("$.[x]").is_err());
    assert!(JsonPath::from_str("$.[]").is_err());
    assert!(JsonPath::from_str("$.[1").is_err());
}

#[test]
fn parse_invalid_regex_segment() {
    assert!(JsonPath::from_str("$.<[>").is_err());
}

#[test]
fn parse_empty_segment() {
    assert!(JsonPath::from_str("$..a").is_err());
    assert!(JsonPath::from_str("$.").is_err());
}

#[test]
fn show_renders_segments_dot_joined() {
    let p = path_of(vec![
        key("a"),
        PathIndex::Index(2),
        PathIndex::Any,
        PathIndex::Regex("x.*".to_string()),
    ]);
    assert_eq!(p.show(), "a.2.*.x.*");
    assert_eq!(JsonPath::new().show(), "");
}

#[test]
fn segment_to_string_decimal() {
    assert_eq!(PathIndex::Index(0).to_string(), "0");
    assert_eq!(PathIndex::Index(1234567890).to_string(), "1234567890");
    assert_eq!(PathIndex::Any.to_string(), "*");
    assert_eq!(key("hello").to_string(), "hello");
}

#[test]
fn rule_covers_itself() {
    let p = path_of(vec![key("a"), PathIndex::Index(1), key("b")]);
    let q = path_of(vec![key("a"), PathIndex::Index(1), key("b")]);
    assert!(p.can_ignore(&q));
}

#[test]
fn prefix_rule_covers_longer_candidate() {
    // Specified behaviour: a rule that is a strict prefix of the candidate
    // covers it, with no wildcard needed.
    let rule = path_of(vec![key("a")]);
    let cand = path_of(vec![key("a"), key("b"), PathIndex::Index(7)]);
    assert!(rule.can_ignore(&cand));
}

#[test]
fn longer_rule_covers_prefix_candidate() {
    // The asymmetric twin: a candidate that is a strict prefix of the rule
    // is also covered.
    let rule = path_of(vec![key("a"), key("b"), PathIndex::Index(7)]);
    let cand = path_of(vec![key("a")]);
    assert!(rule.can_ignore(&cand));
}

#[test]
fn single_wildcard_covers_everything() {
    let rule = path_of(vec![PathIndex::Any]);
    assert!(rule.can_ignore(&path_of(vec![key("x")])));
    assert!(rule.can_ignore(&path_of(vec![PathIndex::Index(0)])));
    assert!(rule.can_ignore(&path_of(vec![key("x"), key("y"), key("z")])));
}

#[test]
fn key_then_wildcard_covers_matching_heads() {
    let rule = path_of(vec![key("a"), PathIndex::Any]);
    assert!(rule.can_ignore(&path_of(vec![key("a"), key("b")])));
    assert!(rule.can_ignore(&path_of(vec![key("a"), PathIndex::Index(4), key("c")])));
    assert!(!rule.can_ignore(&path_of(vec![key("b"), key("a")])));
}

#[test]
fn mismatching_keys_not_covered() {
    let rule = path_of(vec![key("a")]);
    assert!(!rule.can_ignore(&path_of(vec![key("b")])));
    let rule2 = path_of(vec![key("a"), key("c")]);
    assert!(!rule2.can_ignore(&path_of(vec![key("a"), key("d"), key("e")])));
}

#[test]
fn key_index_kind_mismatch_not_covered() {
    let rule = path_of(vec![key("0")]);
    assert!(!rule.can_ignore(&path_of(vec![PathIndex::Index(0)])));
}

#[test]
fn regex_segment_covers_matching_key() {
    let rule = path_of(vec![PathIndex::Regex("^id.*".to_string())]);
    assert!(rule.can_ignore(&path_of(vec![key("idx")])));
    assert!(!rule.can_ignore(&path_of(vec![key("name")])));
}

#[test]
fn regex_segment_requires_full_match() {
    // A key is covered only when its whole text matches the pattern: an
    // unanchored fragment does not cover a longer key.
    let rule = path_of(vec![PathIndex::Regex("id".to_string())]);
    assert!(rule.can_ignore(&path_of(vec![key("id")])));
    assert!(!rule.can_ignore(&path_of(vec![key("idx")])));
    assert!(!rule.can_ignore(&path_of(vec![key("xid")])));
    // A trailing wildcard in the pattern itself widens it again.
    let rule2 = path_of(vec![PathIndex::Regex("id.*".to_string())]);
    assert!(rule2.can_ignore(&path_of(vec![key("idx")])));
}

#[test]
fn regex_segment_never_covers_index() {
    let rule = path_of(vec![PathIndex::Regex(".*".to_string())]);
    assert!(!rule.can_ignore(&path_of(vec![PathIndex::Index(3)])));
}

#[test]
fn regex_rule_parsed_from_text() {
    let rule = JsonPath::from_str("$.<^id.*>").unwrap();
    assert!(rule.can_ignore(&path_of(vec![key("idx")])));
    assert!(!rule.can_ignore(&path_of(vec![key("name")])));
}

#[test]
fn try_can_ignore_rejects_invalid_regex() {
    let bad = path_of(vec![PathIndex::Regex("[".to_string())]);
    let cand = path_of(vec![key("a")]);
    assert_eq!(bad.try_can_ignore(&cand), None);
    let good = path_of(vec![key("a")]);
    assert_eq!(good.try_can_ignore(&cand), Some(true));
}

#[test]
fn quoted_key_with_dot_inside() {
    let p = JsonPath::from_str("$.\"a.b\"").unwrap();
    assert_eq!(p, path_of(vec![key("a.b")]));
}
