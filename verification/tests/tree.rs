use jw::json::{scalar_json_text, JsonValue};
use jw::path::PathSeg;
use jw::pathset::PathSet;
use jw::rows::{build_rows, expand_all, Row};

fn s(x: &str) -> String {
    x.to_string()
}

fn sample() -> JsonValue {
    JsonValue::Object(vec![
        (s("a"), JsonValue::Number(s("1"))),
        (s("b"), JsonValue::Array(vec![JsonValue::Bool(true), JsonValue::Null])),
        (s("c"), JsonValue::Object(vec![(s("d"), JsonValue::String(s("x")))])),
    ])
}

fn texts(rows: &[Row]) -> Vec<String> {
    rows.iter().map(|r| r.text.clone()).collect()
}

fn key(x: &str) -> PathSeg {
    PathSeg::String(x.to_string())
}

#[test]
fn collapsed_document_rows() {
    let set = PathSet::new();
    let rows = build_rows(&sample(), &set);
    assert_eq!(texts(&rows), vec!["{", "  \"a\": 1,", "  \"b\": [...],", "  \"c\": {...}", "}"]);
    assert!(!rows[0].selectable && rows[0].is_container);
    assert!(rows[1].selectable && !rows[1].is_container);
    assert!(rows[2].selectable && rows[2].is_container);
    assert!(!rows[4].selectable && !rows[4].is_container);
    assert_eq!(rows[3].path, vec![key("c")]);
}

#[test]
fn expand_all_opens_everything() {
    let mut set = PathSet::new();
    expand_all(&sample(), vec![], &mut set);
    assert_eq!(set.len(), 2);
    assert!(set.contains(&[key("b")]));
    assert!(set.contains(&[key("c")]));
    let rows = build_rows(&sample(), &set);
    assert_eq!(
        texts(&rows),
        vec![
            "{",
            "  \"a\": 1,",
            "  \"b\": [",
            "    true,",
            "    null",
            "  ],",
            "  \"c\": {",
            "    \"d\": \"x\"",
            "  }",
            "}",
        ]
    );
    assert_eq!(rows[3].path, vec![key("b"), PathSeg::Index(0)]);
    assert_eq!(rows[7].path, vec![key("c"), key("d")]);
    assert!(!rows[5].selectable && !rows[5].is_container);
    assert!(rows[6].selectable && rows[6].is_container);
}

#[test]
fn array_elements_collapse_and_open() {
    let doc = JsonValue::Array(vec![
        JsonValue::Object(vec![(s("k"), JsonValue::Number(s("1")))]),
        JsonValue::Array(vec![]),
    ]);
    let rows = build_rows(&doc, &PathSet::new());
    assert_eq!(texts(&rows), vec!["[", "  {...},", "  [...]", "]"]);
    assert!(rows[1].selectable && rows[1].is_container);
    assert_eq!(rows[1].path, vec![PathSeg::Index(0)]);
    let mut set = PathSet::new();
    expand_all(&doc, vec![], &mut set);
    let rows = build_rows(&doc, &set);
    assert_eq!(texts(&rows), vec!["[", "  {", "    \"k\": 1", "  },", "  [", "  ]", "]"]);
    // an open element of an array has no key: its opening row is not selectable
    assert!(!rows[1].selectable);
    assert!(rows[1].is_container);
    assert!(!rows[0].selectable);
    assert!(rows[2].selectable);
}

#[test]
fn collapsing_an_element_of_an_array() {
    let doc = JsonValue::Array(vec![JsonValue::Object(vec![])]);
    let rows = build_rows(&doc, &PathSet::new());
    assert_eq!(texts(&rows), vec!["[", "  {...}", "]"]);
}

#[test]
fn scalar_document_is_one_row() {
    let rows = build_rows(&JsonValue::String(s("hi")), &PathSet::new());
    assert_eq!(texts(&rows), vec!["\"hi\""]);
    assert!(rows[0].selectable);
    assert_eq!(rows[0].path, Vec::<PathSeg>::new());
}

#[test]
fn keys_and_strings_are_json_escaped() {
    let doc = JsonValue::Object(vec![(s("q\"k"), JsonValue::String(s("a\"b\\c\n\t\u{1}\u{1f}é")))]);
    let rows = build_rows(&doc, &PathSet::new());
    assert_eq!(rows[1].text, "  \"q\\\"k\": \"a\\\"b\\\\c\\n\\t\\u0001\\u001fé\"");
}

#[test]
fn scalar_texts() {
    assert_eq!(scalar_json_text(&JsonValue::Null), "null");
    assert_eq!(scalar_json_text(&JsonValue::Bool(false)), "false");
    assert_eq!(scalar_json_text(&JsonValue::Number(s("-2.5e3"))), "-2.5e3");
    assert_eq!(scalar_json_text(&JsonValue::String(s("\u{8}\u{c}\r"))), "\"\\b\\f\\r\"");
}

#[test]
fn path_set_insert_remove_and_order() {
    let mut set = PathSet::new();
    assert!(set.is_empty());
    set.insert(&[PathSeg::Index(2)]);
    set.insert(&[key("b")]);
    set.insert(&[key("a"), PathSeg::Index(1)]);
    set.insert(&[key("b")]);
    assert_eq!(set.len(), 3);
    assert_eq!(
        set.to_vec(),
        vec![vec![key("a"), PathSeg::Index(1)], vec![key("b")], vec![PathSeg::Index(2)]]
    );
    set.remove(&[key("b")]);
    set.remove(&[key("zzz")]);
    assert_eq!(set.len(), 2);
    assert!(!set.contains(&[key("b")]));
}
