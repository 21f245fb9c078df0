use jw::json::parse_document;
use jw::tui::{first_match_in, open_document, runs_jq};

#[test]
fn parse_document_reads_json() {
    let d = parse_document("{\"b\": 1, \"a\": [true, null, 1.5, \"x\", -3, 1e2]}").expect("valid JSON");
    assert_eq!(
        format!("{:?}", d),
        "Object([(\"a\", Array([Bool(true), Null, Number(\"1.5\"), String(\"x\"), Number(\"-3\"), Number(\"100.0\")])), (\"b\", Number(\"1\"))])"
    );
}

#[test]
fn parse_document_keeps_one_member_per_key() {
    let d = parse_document("{\"a\": 1, \"a\": 2}").expect("valid JSON");
    assert_eq!(format!("{:?}", d), "Object([(\"a\", Number(\"2\"))])");
}

#[test]
fn parse_document_refuses_invalid_json() {
    assert!(parse_document("").is_none());
    assert!(parse_document("{\"a\": }").is_none());
    assert!(parse_document("[1, 2] 3").is_none());
}

#[test]
fn open_document_opens_everything() {
    assert!(open_document("nope", "").is_none());
    let (_, b) = open_document("{\"a\": {\"b\": [1]}}", "in.json").expect("valid JSON");
    let texts: Vec<&str> = b.rows.iter().map(|r| r.text.as_str()).collect();
    assert_eq!(texts, vec!["{", "  \"a\": {", "    \"b\": [", "      1", "    ]", "  }", "}"]);
    assert_eq!(b.cursor, 0);
    assert!(b.selected.is_empty());
    assert_eq!(b.in_path, "in.json");
    assert_eq!(b.expanded.len(), 2);
}

#[test]
fn runs_jq_only_for_a_filter() {
    assert!(!runs_jq(""));
    assert!(runs_jq("."));
}

#[test]
fn first_match_in_searches_the_range() {
    let lowered: Vec<String> = ["{", "  \"name\": \"ada\",", "  \"team\": \"x\"", "}"].iter().map(|t| t.to_string()).collect();
    let term = "a".to_string();
    assert_eq!(first_match_in(&lowered, &term, 0, 4), Some(1));
    assert_eq!(first_match_in(&lowered, &term, 2, 4), Some(2));
    assert_eq!(first_match_in(&lowered, &term, 3, 4), None);
    assert_eq!(first_match_in(&lowered, &"".to_string(), 3, 4), Some(3));
    assert_eq!(first_match_in(&lowered, &"zzz".to_string(), 0, 4), None);
    assert_eq!(first_match_in(&lowered, &term, 4, 4), None);
}
