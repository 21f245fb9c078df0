use jw::command::{generate_jq_command, shell_single_quote};
use jw::json::JsonValue;
use jw::path::{path_to_jq, path_to_jq_all_arrays, PathSeg};
use jw::pathset::PathSet;
use jw::rows::{build_rows, expand_all, Row};
use jw::text::decimal_string;
use jw::tui::{Browser, Key};

/// Quote removal as a POSIX shell does it for words without backslashes or `$`.
fn unquote(w: &str) -> String {
    #[derive(PartialEq)]
    enum St {
        Plain,
        Single,
        Double,
    }
    let mut st = St::Plain;
    let mut out = String::new();
    for c in w.chars() {
        match st {
            St::Plain if c == '\'' => st = St::Single,
            St::Plain if c == '"' => st = St::Double,
            St::Single if c == '\'' => st = St::Plain,
            St::Double if c == '"' => st = St::Plain,
            _ => out.push(c),
        }
    }
    out
}

#[test]
fn shell_reads_quoted_words_back() {
    for s in ["", "plain", "it's", "''", "a'b'c", "{ \".a\": .a }", "x y\tz", "'\"'"] {
        assert_eq!(unquote(&shell_single_quote(s)), s);
    }
}

#[test]
fn distinct_paths_give_distinct_filters() {
    let paths: Vec<Vec<PathSeg>> = vec![
        vec![],
        vec![PathSeg::String("a".to_string())],
        vec![PathSeg::String("a.b".to_string())],
        vec![PathSeg::String("a".to_string()), PathSeg::String("b".to_string())],
        vec![PathSeg::Index(1), PathSeg::Index(1)],
        vec![PathSeg::Index(11)],
        vec![PathSeg::String("1".to_string())],
        vec![PathSeg::String("[1]".to_string())],
    ];
    for (i, p) in paths.iter().enumerate() {
        for (j, q) in paths.iter().enumerate() {
            assert_eq!(i == j, path_to_jq(p) == path_to_jq(q));
        }
    }
}

#[test]
fn decimal_reads_back() {
    for n in [0usize, 5, 10, 99, 100, 4096, 123456789] {
        assert_eq!(decimal_string(n).parse::<usize>().unwrap(), n);
    }
}

fn st(x: &str) -> String {
    x.to_string()
}

fn k(x: &str) -> PathSeg {
    PathSeg::String(x.to_string())
}

fn doc() -> JsonValue {
    JsonValue::Object(vec![
        (st("a"), JsonValue::Number(st("1"))),
        (st("b"), JsonValue::Array(vec![JsonValue::Bool(true), JsonValue::Object(vec![])])),
        (st("c"), JsonValue::Object(vec![(st("d"), JsonValue::String(st("x")))])),
    ])
}

fn shown(rows: &[Row]) -> Vec<(Vec<PathSeg>, String, bool, bool)> {
    rows.iter().map(|r| (r.path.clone(), r.text.clone(), r.selectable, r.is_container)).collect()
}

fn open_paths(b: &Browser) -> Vec<Vec<PathSeg>> {
    b.expanded.to_vec()
}

#[test]
fn dot_twice_across_frames_restores_the_view() {
    let d = doc();
    for row in 0..11 {
        let mut set = PathSet::new();
        expand_all(&d, vec![], &mut set);
        let mut b = Browser::new(&d, set, "");
        b.begin_frame(&d, 80, 24);
        for _ in 0..row {
            b.try_handle_key(Key::Down).unwrap();
        }
        b.begin_frame(&d, 80, 24);
        let before_rows = shown(&b.rows);
        let before_open = open_paths(&b);
        let before_cursor = b.cursor;
        b.try_handle_key(Key::Char('.')).unwrap();
        b.begin_frame(&d, 80, 24);
        b.try_handle_key(Key::Char('.')).unwrap();
        b.begin_frame(&d, 80, 24);
        assert_eq!(open_paths(&b), before_open);
        assert_eq!(b.cursor, before_cursor);
        assert_eq!(shown(&b.rows), before_rows);
    }
}

#[test]
fn dot_on_a_closed_element_opens_it_in_place() {
    let d = doc();
    let mut set = PathSet::new();
    set.insert(&[k("b")]);
    let mut b = Browser::new(&d, set, "");
    b.begin_frame(&d, 80, 24);
    for _ in 0..4 {
        b.try_handle_key(Key::Down).unwrap();
    }
    assert_eq!(b.rows[4].text, "    {...}");
    b.try_handle_key(Key::Char('.')).unwrap();
    b.begin_frame(&d, 80, 24);
    assert_eq!(b.cursor, 4);
    assert_eq!(b.rows[4].path, vec![k("b"), PathSeg::Index(1)]);
    assert!(b.rows[4].is_container);
    assert_eq!(b.rows[4].text, "    {");
    assert_eq!(b.rows[5].text, "    }");
}

#[test]
fn fully_open_rows_count_scalars_once_and_containers_twice() {
    let d = doc();
    let mut set = PathSet::new();
    expand_all(&d, vec![], &mut set);
    // scalars: 1, true, "x"; containers: the root, b, b[1], c
    assert_eq!(build_rows(&d, &set).len(), 3 + 2 * 4);
}

#[test]
fn opening_more_never_shows_fewer_rows() {
    let d = doc();
    let none = PathSet::new();
    let mut some = PathSet::new();
    some.insert(&[k("c")]);
    let mut all = PathSet::new();
    expand_all(&d, vec![], &mut all);
    let (n0, n1, n2) = (build_rows(&d, &none).len(), build_rows(&d, &some).len(), build_rows(&d, &all).len());
    assert!(n0 <= n1 && n1 <= n2);
    assert_eq!((n0, n1, n2), (5, 7, 11));
}

#[test]
fn paths_of_scalars_in_the_open_set_change_nothing() {
    let d = doc();
    let mut set = PathSet::new();
    set.insert(&[k("c")]);
    let before = shown(&build_rows(&d, &set));
    set.insert(&[k("a")]);
    set.insert(&[k("c"), k("d")]);
    set.insert(&[k("nowhere")]);
    assert_eq!(shown(&build_rows(&d, &set)), before);
}

#[test]
fn picking_every_path_twice_changes_nothing() {
    let picked = vec![vec![k("a")], vec![k("b"), PathSeg::Index(0)], vec![], vec![k("b"), PathSeg::Index(3)]];
    let mut twice = picked.clone();
    twice.extend(picked.clone());
    assert_eq!(generate_jq_command(&twice, "in.json"), generate_jq_command(&picked, "in.json"));
    let (filter, _) = generate_jq_command(&picked, "");
    assert_eq!(filter, "{ \".a\": .a, \".b[]\": .b[], \".\": . }");
}

#[test]
fn all_arrays_filters_agree_exactly_on_paths_of_the_same_shape() {
    let paths: Vec<Vec<PathSeg>> = vec![
        vec![],
        vec![PathSeg::Index(0)],
        vec![PathSeg::Index(7)],
        vec![k("b"), PathSeg::Index(0)],
        vec![k("b"), PathSeg::Index(2)],
        vec![k("b"), k("0")],
        vec![k("b")],
    ];
    let shape = |p: &Vec<PathSeg>| -> Vec<Option<String>> {
        p.iter()
            .map(|s| match s {
                PathSeg::Index(_) => None,
                PathSeg::String(x) => Some(x.clone()),
            })
            .collect()
    };
    for p in &paths {
        for q in &paths {
            assert_eq!(path_to_jq_all_arrays(p) == path_to_jq_all_arrays(q), shape(p) == shape(q));
        }
    }
}

#[test]
fn rows_are_indented_by_depth() {
    let d = doc();
    let mut set = PathSet::new();
    expand_all(&d, vec![], &mut set);
    for rows in [build_rows(&d, &set), build_rows(&d, &PathSet::new())] {
        for r in &rows {
            let n = 2 * r.path.len();
            assert!(r.text.starts_with(&" ".repeat(n)), "{:?}", r);
            assert!(!r.text[n..].starts_with(' '), "{:?}", r);
        }
    }
}

#[test]
fn space_selects_the_selectable_cursor_row() {
    let d = doc();
    let mut set = PathSet::new();
    expand_all(&d, vec![], &mut set);
    let mut b = Browser::new(&d, set, "");
    b.begin_frame(&d, 80, 24);
    b.try_handle_key(Key::Down).unwrap();
    b.try_handle_key(Key::Char(' ')).unwrap();
    b.begin_frame(&d, 80, 24);
    assert_eq!(b.selected.to_vec(), vec![vec![k("a")]]);
    assert!(b.rows[1].selectable);
}

#[test]
fn quoted_words_have_no_unquoted_character() {
    for s in ["", "a b", "it's", "$HOME `x` \\n", "''"] {
        let w = shell_single_quote(s);
        // outside quotes only quote characters occur
        let mut st = 0; // 0 plain, 1 single, 2 double
        for c in w.chars() {
            st = match (st, c) {
                (0, '\'') => 1,
                (0, '"') => 2,
                (0, _) => panic!("unquoted {:?} in {:?}", c, w),
                (1, '\'') => 0,
                (2, '"') => 0,
                (2, '$') | (2, '`') | (2, '\\') => panic!("active {:?} in {:?}", c, w),
                (x, _) => x,
            };
        }
        assert_eq!(st, 0);
    }
}
