use json_diff::command::{DiffCommand, JsonSrc};
use json_diff::diff::{diff_json, extract_json_pair, merge_diff, try_diff_json, JsonDiff};
use json_diff::jsonpath::{JsonPath, PathIndex};
use json_diff::tree::{Json, Leaf};

fn s(text: &str) -> Json {
    Json::Str(text.to_string())
}

fn num(text: &str) -> Json {
    Json::Num(text.to_string())
}

fn obj(fields: Vec<(&str, Json)>) -> Json {
    Json::Obj(fields.into_iter().map(|(k, v)| (k.to_string(), v)).collect())
}

fn command(key_only: bool, ignore_case: Vec<JsonPath>) -> DiffCommand {
    DiffCommand {
        key_only,
        replace_backslash: false,
        threading: false,
        ignore_case,
        json1: JsonSrc::Json(String::new()),
        json2: JsonSrc::Json(String::new()),
    }
}

fn entry_at<'a>(res: &'a [(JsonPath, JsonDiff)], rendered: &str) -> Option<&'a JsonDiff> {
    res.iter().find(|(p, _)| p.show() == rendered).map(|(_, d)| d)
}

fn glossary() -> Json {
    obj(vec![(
        "glossary",
        obj(vec![
            ("title", s("example glossary")),
            (
                "GlossDiv",
                obj(vec![
                    ("title", s("S")),
                    (
                        "GlossList",
                        obj(vec![(
                            "GlossEntry",
                            obj(vec![
                                ("ID", s("SGML")),
                                ("SortAs", s("SGML")),
                                ("GlossTerm", s("Standard Generalized Markup Language")),
                                ("Acronym", s("SGML")),
                                ("Abbrev", s("ISO 8879:1986")),
                                (
                                    "GlossDef",
                                    obj(vec![
                                        (
                                            "para",
                                            s("A meta-markup language, used to create markup \
                                               languages such as DocBook."),
                                        ),
                                        ("GlossSeeAlso", Json::Arr(vec![s("GML"), s("XML")])),
                                    ]),
                                ),
                                ("GlossSee", s("markup")),
                            ]),
                        )]),
                    ),
                ]),
            ),
        ]),
    )])
}

#[test]
fn test_extract() {
    assert!(vec!["a", "b"] == vec!["a", "b"]);
    let json = glossary();
    let res = extract_json_pair(&json, JsonPath::new());
    println!("res {:?}", res);
    assert_eq!(res.len(), 11);
    assert_eq!(res[0].0.show(), "glossary.title");
    assert_eq!(res[0].1, Leaf::Str("example glossary".to_string()));
    let rendered: Vec<String> = res.iter().map(|(p, _)| p.show()).collect();
    assert!(rendered.contains(&"glossary.GlossDiv.GlossList.GlossEntry.GlossDef.GlossSeeAlso.1"
        .to_string()));
}

#[test]
fn extract_scalar_root() {
    let res = extract_json_pair(&num("42"), JsonPath::new());
    assert_eq!(res.len(), 1);
    assert_eq!(res[0].0.show(), "");
    assert_eq!(res[0].1, Leaf::Num("42".to_string()));
}

#[test]
fn extract_empty_containers_have_no_leaves() {
    assert!(extract_json_pair(&Json::Arr(vec![]), JsonPath::new()).is_empty());
    assert!(extract_json_pair(&Json::Obj(vec![]), JsonPath::new()).is_empty());
}

#[test]
fn flatten_twice_identical() {
    let json = glossary();
    let a = extract_json_pair(&json, JsonPath::new());
    let b = extract_json_pair(&json, JsonPath::new());
    assert_eq!(a, b);
}

#[test]
fn compare_tree_with_itself_is_empty() {
    let json = glossary();
    let res = diff_json(&json, &json, &command(false, vec![]));
    assert!(res.is_empty());
}

#[test]
fn key_presence_mode_two_entries() {
    // {"a":1} against {"b":1}: a present-left-absent-right, b the reverse.
    let left = obj(vec![("a", num("1"))]);
    let right = obj(vec![("b", num("1"))]);
    let res = diff_json(&left, &right, &command(true, vec![]));
    assert_eq!(res.len(), 2);
    let a = entry_at(&res, "a").unwrap();
    assert_eq!(a.get_left(), Some(&Leaf::Num("1".to_string())));
    assert_eq!(a.get_right(), None);
    let b = entry_at(&res, "b").unwrap();
    assert_eq!(b.get_left(), None);
    assert_eq!(b.get_right(), Some(&Leaf::Num("1".to_string())));
}

#[test]
fn full_value_mode_same_two_entries() {
    // Absence never equals presence, so full-value mode reports the same
    // two paths as key-presence mode here.
    let left = obj(vec![("a", num("1"))]);
    let right = obj(vec![("b", num("1"))]);
    let res = diff_json(&left, &right, &command(false, vec![]));
    assert_eq!(res.len(), 2);
    assert!(entry_at(&res, "a").is_some());
    assert!(entry_at(&res, "b").is_some());
}

#[test]
fn scalar_equality_follows_number_rendering() {
    // The tree type carries a number as its canonical rendering, so the
    // engine's numeric equality is exactly serde_json's: 1 and 1.0 are
    // distinct numbers with distinct renderings, hence a diff.
    let one: serde_json::Value = serde_json::from_str("1").unwrap();
    let one_float: serde_json::Value = serde_json::from_str("1.0").unwrap();
    assert_ne!(one, one_float);
    assert_eq!(one.to_string(), "1");
    assert_eq!(one_float.to_string(), "1.0");

    let left = obj(vec![("a", num(&one.to_string()))]);
    let right = obj(vec![("a", num(&one_float.to_string()))]);
    let res = diff_json(&left, &right, &command(false, vec![]));
    assert_eq!(res.len(), 1);
    let d = entry_at(&res, "a").unwrap();
    assert_eq!(d.get_left(), Some(&Leaf::Num("1".to_string())));
    assert_eq!(d.get_right(), Some(&Leaf::Num("1.0".to_string())));
}

#[test]
fn equal_numbers_no_diff() {
    let left = obj(vec![("a", num("1"))]);
    let right = obj(vec![("a", num("1"))]);
    assert!(diff_json(&left, &right, &command(false, vec![])).is_empty());
}

#[test]
fn end_to_end_array_length_mismatch() {
    // left = {"x":[1,2,3]}, right = {"x":[1,2]}: exactly one entry, at
    // x.2, with left 3 and right absent.
    let left = obj(vec![("x", Json::Arr(vec![num("1"), num("2"), num("3")]))]);
    let right = obj(vec![("x", Json::Arr(vec![num("1"), num("2")]))]);
    let res = diff_json(&left, &right, &command(false, vec![]));
    assert_eq!(res.len(), 1);
    assert_eq!(res[0].0.show(), "x.2");
    let d = entry_at(&res, "x.2").unwrap();
    assert_eq!(d.get_left(), Some(&Leaf::Num("3".to_string())));
    assert_eq!(d.get_right(), None);
    assert!(d.is_diff(false));
    assert!(d.is_diff(true));
}

#[test]
fn ignore_rule_suppresses_path() {
    let left = obj(vec![("x", num("1")), ("y", num("2"))]);
    let right = obj(vec![("x", num("9")), ("y", num("3"))]);
    let rule = JsonPath::from_str("$.x").unwrap();
    let res = diff_json(&left, &right, &command(false, vec![rule]));
    assert_eq!(res.len(), 1);
    assert!(entry_at(&res, "y").is_some());
    assert!(entry_at(&res, "x").is_none());
}

#[test]
fn any_of_several_rules_suffices() {
    let left = obj(vec![("x", num("1")), ("y", num("2"))]);
    let right = obj(vec![("x", num("9")), ("y", num("3"))]);
    let rules = vec![
        JsonPath::from_str("$.a").unwrap(),
        JsonPath::from_str("$.x").unwrap(),
    ];
    let res = diff_json(&left, &right, &command(false, rules));
    assert_eq!(res.len(), 1);
    assert!(entry_at(&res, "y").is_some());
}

#[test]
fn wildcard_rule_suppresses_everything() {
    let left = obj(vec![("x", num("1")), ("y", num("2"))]);
    let right = obj(vec![("z", num("9"))]);
    let rule = JsonPath::from_str("$.*").unwrap();
    assert!(diff_json(&left, &right, &command(false, vec![rule])).is_empty());
}

#[test]
fn key_only_ignores_value_content() {
    let left = obj(vec![("a", num("1"))]);
    let right = obj(vec![("a", num("2"))]);
    assert!(diff_json(&left, &right, &command(true, vec![])).is_empty());
    assert_eq!(diff_json(&left, &right, &command(false, vec![])).len(), 1);
}

#[test]
fn null_and_bool_leaves_compared() {
    let left = obj(vec![("a", Json::Null), ("b", Json::Bool(true))]);
    let right = obj(vec![("a", Json::Bool(false)), ("b", Json::Bool(true))]);
    let res = diff_json(&left, &right, &command(false, vec![]));
    assert_eq!(res.len(), 1);
    let d = entry_at(&res, "a").unwrap();
    assert_eq!(d.get_left(), Some(&Leaf::Null));
    assert_eq!(d.get_right(), Some(&Leaf::Bool(false)));
}

#[test]
fn strategy_equivalence_merge_matches_diff() {
    // The two flattenings may be computed in any order or concurrently;
    // merging them yields exactly the sequential comparison.
    let left = glossary();
    let right = obj(vec![("glossary", obj(vec![("title", s("other"))]))]);
    let rules = vec![JsonPath::from_str("$.glossary.GlossDiv.GlossList.*").unwrap()];
    for key_only in [false, true] {
        let sequential = diff_json(&left, &right, &command(key_only, rules.clone()));
        let lp = extract_json_pair(&left, JsonPath::new());
        let rp = extract_json_pair(&right, JsonPath::new());
        let merged = merge_diff(&lp, &rp, &rules, key_only);
        assert_eq!(sequential, merged);
    }
}

#[test]
fn json_diff_accessors() {
    let mut d = JsonDiff::new();
    assert_eq!(d.get_left(), None);
    assert_eq!(d.get_right(), None);
    assert!(!d.is_diff(false));
    assert!(!d.is_diff(true));
    d.set_left(Leaf::Str("v".to_string()));
    assert!(d.is_diff(false));
    assert!(d.is_diff(true));
    d.set_right(Leaf::Str("v".to_string()));
    assert!(!d.is_diff(false));
    assert!(!d.is_diff(true));
    d.set_right(Leaf::Str("w".to_string()));
    assert!(d.is_diff(false));
    assert!(!d.is_diff(true));
}

#[test]
fn try_diff_json_checks_rules() {
    let left = obj(vec![("a", num("1"))]);
    let right = obj(vec![("a", num("2"))]);
    let mut bad = JsonPath::new();
    bad.extend(PathIndex::Regex("[".to_string()));
    assert!(try_diff_json(&left, &right, &command(false, vec![bad])).is_none());
    let ok = try_diff_json(&left, &right, &command(false, vec![])).unwrap();
    assert_eq!(ok.len(), 1);
}

#[test]
fn duplicate_path_does_not_share_extension() {
    // Copy-on-extend: extending a duplicate never touches the original.
    let mut parent = JsonPath::new();
    parent.extend(PathIndex::Key("a".to_string()));
    let mut child = parent.duplicate();
    child.extend(PathIndex::Index(0));
    assert_eq!(parent.show(), "a");
    assert_eq!(child.show(), "a.0");
}
