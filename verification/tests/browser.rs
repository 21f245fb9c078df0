use jw::json::JsonValue;
use jw::path::PathSeg;
use jw::pathset::PathSet;
use jw::rows::expand_all;
use jw::tui::{
    layout, preview_text, prompt_key, range_indices, scroll_top, Action, Browser, JqOutcome, Key, PromptStep, RightCell,
};

fn s(x: &str) -> String {
    x.to_string()
}

fn key(x: &str) -> PathSeg {
    PathSeg::String(x.to_string())
}

fn sample() -> JsonValue {
    JsonValue::Object(vec![
        (s("a"), JsonValue::Number(s("1"))),
        (s("b"), JsonValue::Array(vec![JsonValue::Bool(true), JsonValue::Null])),
        (s("c"), JsonValue::Object(vec![(s("d"), JsonValue::String(s("Xyz")))])),
    ])
}

fn open_browser(doc: &JsonValue, in_path: &str) -> Browser {
    let mut set = PathSet::new();
    expand_all(doc, vec![], &mut set);
    Browser::new(doc, set, in_path)
}

fn press(b: &mut Browser, k: Key) -> Action {
    b.try_handle_key(k).expect("key faults")
}

#[test]
fn layout_of_a_terminal() {
    let l = layout(80, 24);
    assert_eq!((l.width, l.height, l.body_height, l.left_width, l.right_start, l.right_width), (80, 24, 22, 40, 41, 39));
    let tiny = layout(1, 1);
    assert_eq!((tiny.body_height, tiny.left_width, tiny.right_start, tiny.right_width), (1, 0, 1, 0));
}

#[test]
fn scrolling_follows_the_cursor() {
    assert_eq!(scroll_top(5, 2, 10), 2);
    assert_eq!(scroll_top(0, 15, 10), 6);
    assert_eq!(scroll_top(3, 7, 10), 3);
    for top in 0..20usize {
        for cursor in 0..20usize {
            let t = scroll_top(top, cursor, 4);
            assert!(t <= cursor && cursor < t + 4);
        }
    }
}

#[test]
fn range_indices_either_way() {
    assert_eq!(range_indices(2, 5), 2..=5);
    assert_eq!(range_indices(5, 2), 2..=5);
    assert_eq!(range_indices(3, 3), 3..=3);
}

#[test]
fn prompt_editing() {
    let mut q: Vec<char> = vec![];
    assert_eq!(prompt_key(&mut q, Key::Char('a')), PromptStep::Echo('a'));
    assert_eq!(prompt_key(&mut q, Key::Char('b')), PromptStep::Echo('b'));
    assert_eq!(prompt_key(&mut q, Key::Backspace), PromptStep::Redraw);
    assert_eq!(q, vec!['a']);
    assert_eq!(prompt_key(&mut q, Key::Up), PromptStep::Ignore);
    assert_eq!(prompt_key(&mut q, Key::Enter), PromptStep::Finish);
    assert_eq!(q, vec!['a']);
    assert_eq!(prompt_key(&mut q, Key::Esc), PromptStep::Finish);
    assert!(q.is_empty());
    assert_eq!(prompt_key(&mut q, Key::Backspace), PromptStep::Redraw);
    assert!(q.is_empty());
}

#[test]
fn first_frame_previews_the_root() {
    let doc = sample();
    let mut b = open_browser(&doc, "data.json");
    assert_eq!(b.rows.len(), 10);
    let plan = b.begin_frame(&doc, 80, 24);
    assert_eq!(plan.preview_filter.as_deref(), Some("{ \".\": . }"));
    assert_eq!(b.preview_cmd, "jq '{ \".\": . }' 'data.json'");
    // the command shown lags one frame behind
    assert_eq!(plan.wrapped_cmd, vec![String::new()]);
    b.set_preview_output("{\n  \".\": 1\n}\n");
    assert_eq!(b.preview_lines, vec!["{", "  \".\": 1", "}"]);
    let f = b.frame(&plan);
    assert_eq!(f.lines.len(), 22);
    let l0 = f.lines[0].left.as_ref().unwrap();
    assert!(l0.at_cursor && !l0.marked && !l0.in_visual);
    assert_eq!(l0.text, "{");
    assert!(f.lines[10].left.is_none());
    assert!(matches!(&f.lines[0].right, Some(RightCell::Title(t)) if t == "Preview:"));
    assert!(matches!(&f.lines[1].right, Some(RightCell::Command(t)) if t.is_empty()));
    assert!(matches!(&f.lines[2].right, Some(RightCell::Rule(39))));
    assert!(matches!(&f.lines[3].right, Some(RightCell::Output(t)) if t == "{"));
    assert!(matches!(&f.lines[5].right, Some(RightCell::Output(t)) if t == "}"));
    assert!(f.lines[6].right.is_none());
    assert!(f.footer.starts_with("NORMAL  /:search n:next"));
    assert_eq!(f.status, "cursor: .");
    // same targets: no new preview
    let plan2 = b.begin_frame(&doc, 80, 24);
    assert!(plan2.preview_filter.is_none());
    assert_eq!(plan2.wrapped_cmd.concat(), "jq '{ \".\": . }' 'data.json'");
}

#[test]
fn moving_and_quitting() {
    let doc = sample();
    let mut b = open_browser(&doc, "");
    assert!(matches!(press(&mut b, Key::Down), Action::Continue));
    assert_eq!(b.cursor, 1);
    press(&mut b, Key::Char('j'));
    assert_eq!(b.cursor, 2);
    press(&mut b, Key::Char('k'));
    press(&mut b, Key::Up);
    press(&mut b, Key::Up);
    assert_eq!(b.cursor, 0);
    press(&mut b, Key::Char('G'));
    assert_eq!(b.cursor, 9);
    press(&mut b, Key::Down);
    assert_eq!(b.cursor, 9);
    press(&mut b, Key::Char('g'));
    assert_eq!(b.cursor, 0);
    assert!(matches!(press(&mut b, Key::Char('q')), Action::Quit));
    assert!(matches!(press(&mut b, Key::Esc), Action::Quit));
    assert!(matches!(press(&mut b, Key::Char('/')), Action::Search));
    assert!(matches!(press(&mut b, Key::Char('z')), Action::Continue));
}

#[test]
fn enter_extracts_cursor_when_nothing_selected() {
    let doc = sample();
    let mut b = open_browser(&doc, "");
    press(&mut b, Key::Down);
    match press(&mut b, Key::Enter) {
        Action::Extract(p) => assert_eq!(p, vec![vec![key("a")]]),
        _ => panic!("expected an extraction"),
    }
}

#[test]
fn selecting_and_extracting() {
    let doc = sample();
    let mut b = open_browser(&doc, "");
    press(&mut b, Key::Char('G'));
    press(&mut b, Key::Up);
    press(&mut b, Key::Up); // row 7: "d"
    press(&mut b, Key::Char(' '));
    assert!(b.selected.contains(&[key("c"), key("d")]));
    press(&mut b, Key::Char(' '));
    assert!(b.selected.is_empty());
    press(&mut b, Key::Char(' '));
    press(&mut b, Key::Char('g'));
    press(&mut b, Key::Down); // "a"
    press(&mut b, Key::Tab);
    assert_eq!(b.cursor, 2);
    match press(&mut b, Key::Enter) {
        Action::Extract(p) => assert_eq!(p, vec![vec![key("a")], vec![key("c"), key("d")]]),
        _ => panic!("expected an extraction"),
    }
    let plan = b.begin_frame(&doc, 80, 24);
    assert_eq!(plan.preview_filter.as_deref(), Some("{ \".a\": .a, \".c.d\": .c.d }"));
    let f = b.frame(&plan);
    assert!(f.lines[1].left.as_ref().unwrap().marked);
    assert!(!f.lines[2].left.as_ref().unwrap().marked);
}

#[test]
fn visual_range_selection() {
    let doc = sample();
    let mut b = open_browser(&doc, "");
    press(&mut b, Key::Down);
    press(&mut b, Key::Char('v'));
    assert!(b.visual && b.visual_anchor == Some(1));
    press(&mut b, Key::Down);
    press(&mut b, Key::Down);
    press(&mut b, Key::Down);
    press(&mut b, Key::Down); // rows 1..=5
    let plan = b.begin_frame(&doc, 80, 24);
    let f = b.frame(&plan);
    assert!(f.lines[3].left.as_ref().unwrap().in_visual);
    assert!(!f.lines[6].left.as_ref().unwrap().in_visual);
    assert!(f.footer.starts_with("VISUAL"));
    press(&mut b, Key::Char(' '));
    // the closing row of "b" is not selectable
    assert_eq!(
        b.selected.to_vec(),
        vec![vec![key("a")], vec![key("b")], vec![key("b"), PathSeg::Index(0)], vec![key("b"), PathSeg::Index(1)]]
    );
    // the range's first row is selected now, so space takes the range out again
    press(&mut b, Key::Char(' '));
    assert!(b.selected.is_empty());
    press(&mut b, Key::Char('v'));
    assert!(!b.visual && b.visual_anchor.is_none());
}

#[test]
fn collapse_expand_and_parent() {
    let doc = sample();
    let mut b = open_browser(&doc, "");
    press(&mut b, Key::Down);
    press(&mut b, Key::Down);
    press(&mut b, Key::Down); // "true" inside b
    press(&mut b, Key::Left); // not open: go to parent row
    assert_eq!(b.cursor, 2);
    press(&mut b, Key::Left); // open: close it
    assert!(b.need_rebuild);
    b.begin_frame(&doc, 80, 24);
    assert_eq!(b.rows.len(), 7);
    assert_eq!(b.rows[2].text, "  \"b\": [...],");
    press(&mut b, Key::Right);
    b.begin_frame(&doc, 80, 24);
    assert_eq!(b.rows.len(), 10);
    press(&mut b, Key::Char('.'));
    press(&mut b, Key::Char('.'));
    b.begin_frame(&doc, 80, 24);
    assert_eq!(b.rows.len(), 10);
    press(&mut b, Key::Char('G'));
    press(&mut b, Key::Char('.')); // closing row: not a container
    assert!(!b.need_rebuild);
}

#[test]
fn cursor_stays_on_rows_after_collapse() {
    let doc = sample();
    let mut b = open_browser(&doc, "");
    press(&mut b, Key::Char('G'));
    press(&mut b, Key::Char('g'));
    press(&mut b, Key::Char('G'));
    assert_eq!(b.cursor, 9);
    // close "c" from its row
    for _ in 0..3 {
        press(&mut b, Key::Up);
    }
    press(&mut b, Key::Left);
    press(&mut b, Key::Char('G'));
    b.begin_frame(&doc, 80, 24);
    assert_eq!(b.rows.len(), 8);
    assert_eq!(b.cursor, 7);
}

#[test]
fn searching() {
    let doc = sample();
    let mut b = open_browser(&doc, "");
    b.apply_search("  XY ");
    assert_eq!(b.search_term, "xy");
    assert_eq!(b.cursor, 7);
    assert_eq!(b.last_search, Some(7));
    press(&mut b, Key::Char('g'));
    b.apply_search("\"");
    assert_eq!(b.cursor, 1);
    press(&mut b, Key::Char('n'));
    assert_eq!(b.cursor, 2);
    press(&mut b, Key::Char('n'));
    assert_eq!(b.cursor, 6);
    press(&mut b, Key::Char('n'));
    assert_eq!(b.cursor, 7);
    press(&mut b, Key::Char('n')); // wraps around
    assert_eq!(b.cursor, 1);
    b.apply_search("nothing-like-this");
    assert_eq!(b.cursor, 1);
    b.apply_search("   ");
    assert_eq!(b.search_term, "");
    press(&mut b, Key::Char('n'));
    assert_eq!(b.cursor, 1);
}

#[test]
fn faulting_keys_are_refused() {
    let doc = sample();
    let mut b = open_browser(&doc, "");
    press(&mut b, Key::Char('G'));
    press(&mut b, Key::Char('v'));
    for _ in 0..7 {
        press(&mut b, Key::Up);
    }
    press(&mut b, Key::Left); // close "b" while the anchor is on the last row
    b.begin_frame(&doc, 80, 24);
    assert_eq!(b.rows.len(), 7);
    assert_eq!(b.visual_anchor, Some(9));
    assert!(b.try_handle_key(Key::Char(' ')).is_none());
    assert!(b.try_handle_key(Key::Tab).is_none());
    assert!(b.selected.is_empty());
    press(&mut b, Key::Char('v'));
    press(&mut b, Key::Char('g'));
    // a stale last match beyond the rows, and nothing matches
    b.apply_search("1");
    assert_eq!(b.last_search, Some(1));
    b.last_search = Some(20);
    b.search_term = s("qqq");
    assert!(b.try_handle_key(Key::Char('n')).is_none());
    b.search_term = s("d");
    assert!(b.try_handle_key(Key::Char('n')).is_some());
    assert_eq!(b.cursor, 4);
}

fn outcome(success: bool) -> Option<JqOutcome> {
    Some(JqOutcome { success, stdout: s("{\"a\": 1}\n"), stderr: s("jq: error\n") })
}

#[test]
fn preview_text_of_each_outcome() {
    assert_eq!(preview_text("", outcome(true)), "");
    assert_eq!(preview_text("", None), "");
    assert_eq!(preview_text(".a", None), "Failed to run jq");
    assert_eq!(preview_text(".a", outcome(true)), "{\"a\": 1}\n");
    assert_eq!(preview_text(".a", outcome(false)), "jq: error\n");
}
