use jw::path::{is_identifier, path_to_jq, path_to_jq_all_arrays, path_less, path_eq, PathSeg};
use jw::command::{generate_jq_command, shell_single_quote};

fn key(s: &str) -> PathSeg {
    PathSeg::String(s.to_string())
}

#[test]
fn identifier_rules() {
    assert!(is_identifier("name"));
    assert!(is_identifier("_x9"));
    assert!(is_identifier("A_b_C"));
    assert!(!is_identifier(""));
    assert!(!is_identifier("9lives"));
    assert!(!is_identifier("a-b"));
    assert!(!is_identifier("a b"));
    assert!(!is_identifier("é"));
}

#[test]
fn jq_path_of_root_is_dot() {
    assert_eq!(path_to_jq(&[]), ".");
    assert_eq!(path_to_jq_all_arrays(&[]), ".");
}

#[test]
fn jq_path_identifiers_and_indices() {
    let p = vec![key("a"), PathSeg::Index(0), key("b")];
    assert_eq!(path_to_jq(&p), ".a[0].b");
    assert_eq!(path_to_jq_all_arrays(&p), ".a[].b");
    let q = vec![PathSeg::Index(12), key("x")];
    assert_eq!(path_to_jq(&q), ".[12].x");
    assert_eq!(path_to_jq_all_arrays(&q), ".[].x");
    assert_eq!(path_to_jq(&[PathSeg::Index(1234567890)]), ".[1234567890]");
}

#[test]
fn jq_path_quotes_other_keys() {
    let p = vec![key("a b"), key("c")];
    assert_eq!(path_to_jq(&p), ".[\"a b\"].c");
    let q = vec![key("x"), key("say \"hi\" \\ now")];
    assert_eq!(path_to_jq(&q), ".x[\"say \\\"hi\\\" \\\\ now\"]");
    assert_eq!(path_to_jq(&[key("")]), ".[\"\"]");
}

#[test]
fn paths_without_indices_agree() {
    let p = vec![key("a"), key("b c"), key("d")];
    assert_eq!(path_to_jq(&p), path_to_jq_all_arrays(&p));
}

#[test]
fn path_order_matches_derived_order() {
    #[derive(PartialEq, Eq, PartialOrd, Ord, Debug)]
    enum Seg {
        S(String),
        I(usize),
    }
    let samples: Vec<Vec<PathSeg>> = vec![
        vec![],
        vec![key("a")],
        vec![key("b")],
        vec![key("a"), PathSeg::Index(3)],
        vec![PathSeg::Index(0)],
        vec![PathSeg::Index(10)],
        vec![key("ab")],
        vec![key("Z")],
        vec![key("é")],
        vec![PathSeg::Index(2), key("a")],
    ];
    let conv = |p: &Vec<PathSeg>| -> Vec<Seg> {
        p.iter()
            .map(|s| match s {
                PathSeg::String(x) => Seg::S(x.clone()),
                PathSeg::Index(i) => Seg::I(*i),
            })
            .collect()
    };
    for a in &samples {
        for b in &samples {
            assert_eq!(path_less(a, b), conv(a) < conv(b));
            assert_eq!(path_eq(a, b), conv(a) == conv(b));
        }
    }
}

#[test]
fn shell_quote_plain_and_with_quote() {
    assert_eq!(shell_single_quote("abc"), "'abc'");
    assert_eq!(shell_single_quote(""), "''");
    assert_eq!(shell_single_quote("it's"), "'it'\"'\"'s'");
}

#[test]
fn command_of_nothing_is_empty() {
    let (f, c) = generate_jq_command(&[], "data.json");
    assert_eq!(f, "");
    assert_eq!(c, "");
}

#[test]
fn command_for_one_path_on_stdin() {
    let picked = vec![vec![key("name")]];
    let (f, c) = generate_jq_command(&picked, "");
    assert_eq!(f, "{ \".name\": .name }");
    assert_eq!(c, "jq '{ \".name\": .name }'");
}

#[test]
fn command_merges_array_elements_and_repeats() {
    let picked = vec![
        vec![key("items"), PathSeg::Index(0), key("id")],
        vec![key("items"), PathSeg::Index(1), key("id")],
        vec![key("total")],
        vec![key("total")],
    ];
    let (f, c) = generate_jq_command(&picked, "in.json");
    assert_eq!(f, "{ \".items[].id\": .items[].id, \".total\": .total }");
    assert_eq!(c, "jq '{ \".items[].id\": .items[].id, \".total\": .total }' 'in.json'");
}

#[test]
fn command_escapes_quoted_keys_and_path() {
    let picked = vec![vec![key("a b")]];
    let (f, c) = generate_jq_command(&picked, "it's.json");
    assert_eq!(f, "{ \".[\\\"a b\\\"]\": .[\"a b\"] }");
    assert_eq!(c, "jq '{ \".[\\\"a b\\\"]\": .[\"a b\"] }' 'it'\"'\"'s.json'");
}

#[test]
fn repicking_changes_nothing() {
    let picked = vec![vec![key("a")], vec![key("b")]];
    let mut again = vec![vec![key("a")], vec![key("b")]];
    again.push(vec![key("a")]);
    assert_eq!(generate_jq_command(&picked, "x"), generate_jq_command(&again, "x"));
}
