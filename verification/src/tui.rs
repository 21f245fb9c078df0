//! The decisions of the interactive browser: its state, how each key changes
//! it, what each frame shows, and which preview it asks for. The terminal
//! itself (drawing, reading keys, running `jq`) is left to the caller.
use vstd::prelude::*;
use vstd::string::StringExecFns;
use crate::command::{generate_jq_command, object_filter, jq_command};
use crate::json::{JsonValue, keys_distinct, parsed_document, parse_document};
use crate::path::{PathSeg, SegView, path_view, path_eq, copy_path, jq_path, path_to_jq};
use crate::pathset::{PathSet, paths_view};
use crate::rows::{Row, RowView, rows_view, build_rows, document_rows, container_paths, expand_all};
use crate::text::{
    truncate, truncated, wrap_text, wrapped, string_views, split_lines, lines_of, trim, trimmed,
    to_lowercase, lowercase, contains_str, has_substring,
};

verus! {

broadcast use vstd::string::group_string_axioms;

// ---------------------------------------------------------------------------
// Keys and actions
// ---------------------------------------------------------------------------

/// A key press, as far as the browser tells keys apart.
#[derive(Debug, Clone, Copy, PartialEq, Eq, Structural)]
pub enum Key {
    Char(char),
    Enter,
    Esc,
    Up,
    Down,
    Left,
    Right,
    Tab,
    Backspace,
    Other,
}

/// What the caller is to do after a key.
#[derive(Debug)]
pub enum Action {
    /// Draw the next frame.
    Continue,
    /// Leave without extracting anything.
    Quit,
    /// Leave and extract these paths.
    Extract(Vec<Vec<PathSeg>>),
    /// Read a search query (see `prompt_key`), then call `apply_search`.
    Search,
}

/// The value of an action.
pub enum ActionView {
    Continue,
    Quit,
    Extract(Seq<Seq<SegView>>),
    Search,
}

impl View for Action {
    type V = ActionView;

    open spec fn view(&self) -> ActionView {
        match self {
            Action::Continue => ActionView::Continue,
            Action::Quit => ActionView::Quit,
            Action::Extract(v) => ActionView::Extract(paths_view(v@)),
            Action::Search => ActionView::Search,
        }
    }
}

// ---------------------------------------------------------------------------
// Screen layout
// ---------------------------------------------------------------------------

/// Where the parts of the screen go, in character cells.
#[derive(Debug, Clone, Copy)]
pub struct Layout {
    pub width: usize,
    pub height: usize,
    /// Lines for the tree and the preview: all but the two bottom lines, at least one.
    pub body_height: usize,
    /// Width of the tree panel; the separator stands in this column.
    pub left_width: usize,
    /// First column of the preview panel.
    pub right_start: usize,
    /// Width of the preview panel.
    pub right_width: usize,
}

/// `a - b`, or 0 when `b` is larger.
pub open spec fn sat_sub(a: int, b: int) -> int {
    if a >= b {
        a - b
    } else {
        0
    }
}

/// The layout of a terminal `width` columns wide and `height` lines high.
pub open spec fn layout_of(width: nat, height: nat) -> Layout {
    let body = sat_sub(height as int, 2);
    let left = width / 2;
    Layout {
        width: width as usize,
        height: height as usize,
        body_height: (if body >= 1 { body } else { 1 }) as usize,
        left_width: left as usize,
        right_start: (left + 1) as usize,
        right_width: sat_sub(width as int, left + 1int) as usize,
    }
}

/// The layout of a terminal of the given size.
pub fn layout(width: u16, height: u16) -> (res: Layout)
    ensures
        res == layout_of(width as nat, height as nat),
{
    let w = width as usize;
    let h = height as usize;
    let body = h.saturating_sub(2);
    let body_height = if body >= 1 {
        body
    } else {
        1
    };
    let left = w / 2;
    Layout {
        width: w,
        height: h,
        body_height,
        left_width: left,
        right_start: left + 1,
        right_width: w.saturating_sub(left + 1),
    }
}

/// The first row shown, given the previous one, so that `cursor` stays on
/// screen: it moves up to the cursor, or down just far enough.
pub open spec fn scrolled_top(top: int, cursor: int, body_height: int) -> int {
    if cursor < top {
        cursor
    } else if cursor >= top + body_height {
        cursor - body_height + 1
    } else {
        top
    }
}

/// The first row to show so that `cursor` stays on screen.
pub fn scroll_top(top: usize, cursor: usize, body_height: usize) -> (res: usize)
    requires
        body_height >= 1,
    ensures
        res == scrolled_top(top as int, cursor as int, body_height as int),
        res <= cursor,
{
    if cursor < top {
        cursor
    } else if cursor - top >= body_height {
        cursor - body_height + 1
    } else {
        top
    }
}

/// The indices from the smaller of `a` and `b` to the larger, both included.
pub fn range_indices(a: usize, b: usize) -> (res: std::ops::RangeInclusive<usize>)
    ensures
        res@.start == if a <= b { a } else { b },
        res@.end == if a <= b { b } else { a },
        !res@.exhausted,
{
    if a <= b {
        a..=b
    } else {
        b..=a
    }
}

// ---------------------------------------------------------------------------
// Search prompt
// ---------------------------------------------------------------------------

/// What the caller is to do after a key typed at the search prompt.
#[derive(Debug, PartialEq, Eq)]
pub enum PromptStep {
    /// The query is complete: call `apply_search` with it.
    Finish,
    /// Redraw the prompt line with the whole query.
    Redraw,
    /// Show this one character after what is on the prompt line.
    Echo(char),
    /// Nothing changed.
    Ignore,
}

/// Edits the search query with one key: Enter finishes, Esc empties the
/// query and finishes, Backspace drops the last character, and a character
/// is added at the end.
pub fn prompt_key(query: &mut Vec<char>, key: Key) -> (step: PromptStep)
    ensures
        key == Key::Enter ==> step == PromptStep::Finish && final(query)@ == old(query)@,
        key == Key::Esc ==> step == PromptStep::Finish && final(query)@.len() == 0,
        key == Key::Backspace ==> step == PromptStep::Redraw && final(query)@ == (if old(
            query,
        )@.len() > 0 {
            old(query)@.drop_last()
        } else {
            old(query)@
        }),
        forall|c: char|
            key == Key::Char(c) ==> step == PromptStep::Echo(c) && final(query)@ == old(
                query,
            )@.push(c),
        !(key is Enter || key is Esc || key is Backspace || key is Char) ==> step
            == PromptStep::Ignore && final(query)@ == old(query)@,
{
    match key {
        Key::Enter => PromptStep::Finish,
        Key::Esc => {
            query.clear();
            PromptStep::Finish
        },
        Key::Backspace => {
            if query.len() > 0 {
                let _ = query.pop();
            }
            PromptStep::Redraw
        },
        Key::Char(c) => {
            query.push(c);
            PromptStep::Echo(c)
        },
        _ => PromptStep::Ignore,
    }
}

// ---------------------------------------------------------------------------
// Browser state
// ---------------------------------------------------------------------------

/// The state of the browser between two frames.
pub struct Browser {
    /// The rows of the tree view (stale while `need_rebuild` is set).
    pub rows: Vec<Row>,
    /// The paths of the containers shown open.
    pub expanded: PathSet,
    /// The paths selected for extraction.
    pub selected: PathSet,
    /// The index of the row under the cursor.
    pub cursor: usize,
    /// The index of the first row on screen.
    pub top: usize,
    /// Whether visual (range) mode is on.
    pub visual: bool,
    /// Where the visual range started.
    pub visual_anchor: Option<usize>,
    /// The current search term, trimmed and in lower case.
    pub search_term: String,
    /// The row of the last match found.
    pub last_search: Option<usize>,
    /// Whether the rows are to be built again before the next frame.
    pub need_rebuild: bool,
    /// The file the document was read from, empty for standard input.
    pub in_path: String,
    /// The paths the preview was last computed for.
    pub last_preview_paths: Vec<Vec<PathSeg>>,
    /// The command of the current preview.
    pub preview_cmd: String,
    /// The output lines of the current preview.
    pub preview_lines: Vec<String>,
}

/// Whether a row's text contains the search term once put in lower case.
pub open spec fn row_matches(text: Seq<char>, term: Seq<char>) -> bool {
    has_substring(lowercase(text), term)
}

/// The first index in `from..to` whose row matches `term`.
pub open spec fn first_match(rows: Seq<RowView>, term: Seq<char>, from: int, to: int) -> Option<int>
    decreases to - from,
{
    if from >= to {
        None
    } else if row_matches(rows[from].text, term) {
        Some(from)
    } else {
        first_match(rows, term, from + 1, to)
    }
}

/// A match found by `first_match` lies in the range searched and matches.
pub proof fn lemma_first_match_in_range(rows: Seq<RowView>, term: Seq<char>, from: int, to: int)
    ensures
        first_match(rows, term, from, to) matches Some(i) ==> from <= i < to && row_matches(
            rows[i].text,
            term,
        ),
    decreases to - from,
{
    if from < to && !row_matches(rows[from].text, term) {
        lemma_first_match_in_range(rows, term, from + 1, to);
    }
}

/// A row found by `first_row_with_path` exists and has that path.
pub proof fn lemma_first_row_with_path(rows: Seq<RowView>, p: Seq<SegView>, from: int)
    ensures
        first_row_with_path(rows, p, from) matches Some(i) ==> from <= i < rows.len()
            && rows[i].path == p,
    decreases rows.len() - from,
{
    if from < rows.len() && rows[from].path != p {
        lemma_first_row_with_path(rows, p, from + 1);
    }
}

/// The paths of the selectable rows with index from `lo` to `hi`.
pub open spec fn selectable_paths(rows: Seq<RowView>, lo: int, hi: int) -> Set<Seq<SegView>> {
    Set::new(|p: Seq<SegView>| exists|i: int| lo <= i <= hi && rows[i].selectable && rows[i].path == p)
}

/// The index of the first row whose path is `p`.
pub open spec fn first_row_with_path(rows: Seq<RowView>, p: Seq<SegView>, from: int) -> Option<int>
    decreases rows.len() - from,
{
    if from >= rows.len() {
        None
    } else if rows[from].path == p {
        Some(from)
    } else {
        first_row_with_path(rows, p, from + 1)
    }
}

impl Browser {
    /// The state's invariant.
    pub open spec fn wf(&self) -> bool {
        &&& self.rows@.len() >= 1
        &&& self.cursor < self.rows@.len()
        &&& self.expanded.wf()
        &&& self.selected.wf()
        &&& (self.last_search matches Some(ls) ==> ls < usize::MAX)
    }

    /// The rows' values.
    pub open spec fn row_views(&self) -> Seq<RowView> {
        rows_view(self.rows@)
    }

    /// The path of the row under the cursor.
    pub open spec fn cursor_path(&self) -> Seq<SegView> {
        self.row_views()[self.cursor as int].path
    }

    /// The paths a preview or an extraction is for: the selected paths in
    /// order, or the cursor's path when nothing is selected.
    pub open spec fn targets(&self) -> Seq<Seq<SegView>> {
        if self.selected.paths().len() == 0 {
            seq![self.cursor_path()]
        } else {
            self.selected.paths()
        }
    }

    /// The last row index.
    pub open spec fn last_row(&self) -> int {
        self.rows@.len() - 1
    }

    /// The smaller and larger ends of the rows a range key acts on: the
    /// visual range when visual mode has an anchor, the cursor's row otherwise.
    pub open spec fn key_range(&self) -> (int, int) {
        if self.visual && self.visual_anchor is Some {
            let a = self.visual_anchor->0 as int;
            let c = self.cursor as int;
            if a <= c { (a, c) } else { (c, a) }
        } else {
            (self.cursor as int, self.cursor as int)
        }
    }

    /// Where `n` starts looking for the next match.
    pub open spec fn search_start(&self) -> int {
        match self.last_search {
            Some(ls) => ls + 1,
            None => self.cursor + 1,
        }
    }

    /// The row `n` moves to.
    pub open spec fn next_match(&self) -> Option<int> {
        let rows = self.row_views();
        let start = self.search_start();
        match first_match(rows, self.search_term@, start, rows.len() as int) {
            Some(i) => Some(i),
            None => first_match(
                rows,
                self.search_term@,
                0,
                if start <= rows.len() { start } else { rows.len() as int },
            ),
        }
    }

    /// Whether `key` makes the browser index past its rows: a range key
    /// (space or Tab) in visual mode with the anchor beyond the last row, or
    /// `n` when it would look from beyond the last row and no row matches.
    pub open spec fn key_faults(&self, key: Key) -> bool {
        let rows = self.row_views();
        ||| (key == Key::Char(' ') || key == Key::Tab) && self.visual && self.visual_anchor is Some
            && self.visual_anchor->0 >= rows.len()
        ||| key == Key::Char('n') && self.search_term@.len() > 0 && self.search_start()
            > rows.len() && first_match(rows, self.search_term@, 0, rows.len() as int) is None
    }
}

/// How the browser `o` becomes `n` on `key`, answering `a`.
///
/// - `q`, Esc: quit; Enter: extract the targets (the selected paths, or the
///   cursor's path); `/`: ask for a search query. The state stays as it is.
/// - `j`/Down and `k`/Up move the cursor by one row within the rows; `g` and
///   `G` move it to the first and last row.
/// - `h`/Left closes the cursor's container when it is open, and otherwise
///   moves to the row of the parent path, if there is one.
/// - `l`/Right opens the cursor's container; `.` opens or closes it.
/// - `v` turns visual mode on (anchored at the cursor) or off.
/// - Space selects the selectable rows of the range, or unselects them when
///   the range's first row is selectable and selected; Tab selects them and
///   moves down one row.
/// - `n` moves to the next row matching the search term, wrapping around.
/// - Any other key changes nothing.
pub open spec fn key_step(o: Browser, n: Browser, key: Key, a: ActionView) -> bool {
    let rows = o.row_views();
    let c = o.cursor as int;
    let last = o.last_row();
    let cur = rows[c];
    if key == Key::Char('q') || key == Key::Esc {
        n == o && a == ActionView::Quit
    } else if key == Key::Enter {
        n == o && a == ActionView::Extract(o.targets())
    } else if key == Key::Char('j') || key == Key::Down {
        n == Browser { cursor: (if c + 1 <= last { c + 1 } else { last }) as usize, ..o }
            && a == ActionView::Continue
    } else if key == Key::Char('k') || key == Key::Up {
        n == Browser { cursor: (if c >= 1 { c - 1 } else { 0 }) as usize, ..o } && a
            == ActionView::Continue
    } else if key == Key::Char('g') {
        n == Browser { cursor: 0, ..o } && a == ActionView::Continue
    } else if key == Key::Char('G') {
        n == Browser { cursor: last as usize, ..o } && a == ActionView::Continue
    } else if key == Key::Char('h') || key == Key::Left {
        a == ActionView::Continue && if o.expanded@.contains(cur.path) {
            n == Browser { expanded: n.expanded, need_rebuild: true, ..o } && n.expanded@
                == o.expanded@.remove(cur.path)
        } else if cur.path.len() > 0 {
            match first_row_with_path(rows, cur.path.drop_last(), 0) {
                Some(i) => n == Browser { cursor: i as usize, ..o },
                None => n == o,
            }
        } else {
            n == o
        }
    } else if key == Key::Char('l') || key == Key::Right {
        a == ActionView::Continue && if cur.is_container {
            n == Browser { expanded: n.expanded, need_rebuild: true, ..o } && n.expanded@
                == o.expanded@.insert(cur.path)
        } else {
            n == o
        }
    } else if key == Key::Char('.') {
        a == ActionView::Continue && if cur.is_container {
            n == Browser { expanded: n.expanded, need_rebuild: true, ..o } && n.expanded@ == (
            if o.expanded@.contains(cur.path) {
                o.expanded@.remove(cur.path)
            } else {
                o.expanded@.insert(cur.path)
            })
        } else {
            n == o
        }
    } else if key == Key::Char('v') {
        a == ActionView::Continue && if o.visual {
            n == Browser { visual: false, visual_anchor: None, ..o }
        } else {
            n == Browser { visual: true, visual_anchor: Some(o.cursor), ..o }
        }
    } else if key == Key::Char(' ') {
        let (lo, hi) = o.key_range();
        let range = selectable_paths(rows, lo, hi);
        let unselect = rows[lo].selectable && o.selected@.contains(rows[lo].path);
        a == ActionView::Continue && n == Browser { selected: n.selected, ..o } && n.selected@ == (
        if unselect {
            o.selected@.difference(range)
        } else {
            o.selected@.union(range)
        })
    } else if key == Key::Tab {
        let (lo, hi) = o.key_range();
        a == ActionView::Continue && n == Browser {
            selected: n.selected,
            cursor: (if c + 1 <= last { c + 1 } else { last }) as usize,
            ..o
        } && n.selected@ == o.selected@.union(selectable_paths(rows, lo, hi))
    } else if key == Key::Char('/') {
        n == o && a == ActionView::Search
    } else if key == Key::Char('n') {
        a == ActionView::Continue && if o.search_term@.len() > 0 {
            match o.next_match() {
                Some(i) => n == Browser { cursor: i as usize, last_search: Some(i as usize), ..o },
                None => n == o,
            }
        } else {
            n == o
        }
    } else {
        n == o && a == ActionView::Continue
    }
}

/// The first index in `from..to` whose text contains `term`.
pub open spec fn first_text_match(texts: Seq<Seq<char>>, term: Seq<char>, from: int, to: int) -> Option<int>
    decreases to - from,
{
    if from >= to {
        None
    } else if has_substring(texts[from], term) {
        Some(from)
    } else {
        first_text_match(texts, term, from + 1, to)
    }
}

/// The views of some strings.
pub open spec fn texts_view(v: Seq<String>) -> Seq<Seq<char>> {
    v.map_values(|t: String| t@)
}

/// Searching the rows is searching their texts in lower case.
proof fn lemma_first_match_lowered(rows: Seq<RowView>, texts: Seq<Seq<char>>, term: Seq<char>, from: int, to: int)
    requires
        0 <= from,
        to <= texts.len(),
        forall|j: int| 0 <= j < to ==> #[trigger] texts[j] == lowercase(rows[j].text),
    ensures
        first_match(rows, term, from, to) == first_text_match(texts, term, from, to),
    decreases to - from,
{
    if from < to {
        lemma_first_match_lowered(rows, texts, term, from + 1, to);
        assert(texts[from] == lowercase(rows[from].text));
    }
}

/// The first index in `from..to` whose text in `lowered` (the rows' texts
/// already in lower case) contains `term`.
pub fn first_match_in(lowered: &Vec<String>, term: &String, from: usize, to: usize) -> (res: Option<usize>)
    requires
        to <= lowered@.len(),
    ensures
        match first_text_match(texts_view(lowered@), term@, from as int, to as int) {
            Some(i) => res == Some(i as usize),
            None => res is None,
        },
{
    let ghost tv = texts_view(lowered@);
    let mut i = from;
    while i < to
        invariant
            from <= i,
            to <= lowered@.len(),
            tv == texts_view(lowered@),
            first_text_match(tv, term@, i as int, to as int) == first_text_match(tv, term@, from as int, to as int),
        decreases to - i,
    {
        assert(tv[i as int] == lowered@[i as int]@);
        if contains_str(lowered[i].as_str(), term.as_str()) {
            return Some(i);
        }
        i = i + 1;
    }
    None
}

/// The first index in `from..to` whose row matches `term`.
fn find_match(rows: &Vec<Row>, term: &String, from: usize, to: usize) -> (res: Option<usize>)
    requires
        to <= rows@.len(),
    ensures
        match first_match(rows_view(rows@), term@, from as int, to as int) {
            Some(i) => res == Some(i as usize),
            None => res is None,
        },
{
    let mut lowered: Vec<String> = Vec::new();
    let mut j: usize = 0;
    while j < to
        invariant
            j <= to <= rows@.len(),
            lowered@.len() == j,
            forall|k: int| 0 <= k < j ==> #[trigger] lowered@[k]@ == lowercase(rows_view(rows@)[k].text),
        decreases to - j,
    {
        assert(rows_view(rows@)[j as int].text == rows@[j as int].text@);
        lowered.push(to_lowercase(rows[j].text.as_str()));
        j = j + 1;
    }
    proof {
        let tv = texts_view(lowered@);
        assert forall|k: int| 0 <= k < to implies #[trigger] tv[k] == lowercase(rows_view(rows@)[k].text) by {
            assert(tv[k] == lowered@[k]@);
        }
        lemma_first_match_lowered(rows_view(rows@), tv, term@, from as int, to as int);
    }
    first_match_in(&lowered, term, from, to)
}

/// The index of the first row whose path is `p`.
fn find_row_with_path(rows: &Vec<Row>, p: &[PathSeg]) -> (res: Option<usize>)
    ensures
        match first_row_with_path(rows_view(rows@), path_view(p@), 0) {
            Some(i) => res == Some(i as usize),
            None => res is None,
        },
{
    let mut i: usize = 0;
    while i < rows.len()
        invariant
            i <= rows@.len(),
            first_row_with_path(rows_view(rows@), path_view(p@), i as int) == first_row_with_path(
                rows_view(rows@),
                path_view(p@),
                0,
            ),
        decreases rows.len() - i,
    {
        assert(rows_view(rows@)[i as int].path == path_view(rows@[i as int].path@));
        if path_eq(rows[i].path.as_slice(), p) {
            return Some(i);
        }
        i = i + 1;
    }
    None
}

/// Adds (or, with `unselect`, takes out) the paths of the selectable rows
/// from `lo` to `hi`.
fn select_range(selected: &mut PathSet, rows: &Vec<Row>, lo: usize, hi: usize, unselect: bool)
    requires
        old(selected).wf(),
        lo <= hi < rows@.len(),
    ensures
        final(selected).wf(),
        final(selected)@ == if unselect {
            old(selected)@.difference(selectable_paths(rows_view(rows@), lo as int, hi as int))
        } else {
            old(selected)@.union(selectable_paths(rows_view(rows@), lo as int, hi as int))
        },
{
    let ghost rv = rows_view(rows@);
    let ghost start = selected@;
    let mut i = lo;
    assert(selectable_paths(rv, lo as int, lo - 1) =~= Set::<Seq<SegView>>::empty());
    assert(start.difference(Set::empty()) =~= start);
    assert(start.union(Set::empty()) =~= start);
    loop
        invariant_except_break
            selected@ == if unselect {
                start.difference(selectable_paths(rv, lo as int, i - 1))
            } else {
                start.union(selectable_paths(rv, lo as int, i - 1))
            },
        invariant
            lo <= i <= hi < rows@.len(),
            rv == rows_view(rows@),
            selected.wf(),
        ensures
            selected.wf(),
            selected@ == if unselect {
                start.difference(selectable_paths(rv, lo as int, hi as int))
            } else {
                start.union(selectable_paths(rv, lo as int, hi as int))
            },
        decreases hi - i,
    {
        let ghost before = selectable_paths(rv, lo as int, i - 1);
        let ghost after = selectable_paths(rv, lo as int, i as int);
        assert(rv[i as int].path == path_view(rows@[i as int].path@));
        assert(rv[i as int].selectable == rows@[i as int].selectable);
        if rows[i].selectable {
            assert(after =~= before.insert(rv[i as int].path)) by {
                assert forall|q: Seq<SegView>| after.contains(q) implies before.insert(
                    rv[i as int].path,
                ).contains(q) by {
                    let j = choose|j: int| lo <= j <= i && rv[j].selectable && rv[j].path == q;
                    if j < i {
                        assert(before.contains(q));
                    }
                }
                assert forall|q: Seq<SegView>| before.contains(q) implies after.contains(q) by {
                    let j = choose|j: int| lo <= j <= i - 1 && rv[j].selectable && rv[j].path == q;
                    assert(lo <= j <= i && rv[j].selectable && rv[j].path == q);
                }
                assert(lo <= i <= i && rv[i as int].selectable && rv[i as int].path == rv[i as int].path);
            }
            if unselect {
                selected.remove(rows[i].path.as_slice());
            } else {
                selected.insert(rows[i].path.as_slice());
            }
        } else {
            assert(after =~= before) by {
                assert forall|q: Seq<SegView>| after.contains(q) implies before.contains(q) by {
                    let j = choose|j: int| lo <= j <= i && rv[j].selectable && rv[j].path == q;
                    assert(j < i);
                }
                assert forall|q: Seq<SegView>| before.contains(q) implies after.contains(q) by {
                    let j = choose|j: int| lo <= j <= i - 1 && rv[j].selectable && rv[j].path == q;
                    assert(lo <= j <= i && rv[j].selectable && rv[j].path == q);
                }
            }
        }
        assert(selected@ =~= if unselect {
            start.difference(after)
        } else {
            start.union(after)
        });
        if i == hi {
            break;
        }
        i = i + 1;
    }
}

impl Browser {
    /// A browser on a document whose rows are built with `expanded` open,
    /// with the cursor on the first row, nothing selected and no preview yet.
    pub fn new(data: &JsonValue, expanded: PathSet, in_path: &str) -> (b: Browser)
        requires
            expanded.wf(),
        ensures
            b.wf(),
            b.row_views() == document_rows(*data, expanded@),
            b.expanded == expanded,
            b.selected@ == Set::<Seq<SegView>>::empty(),
            b.cursor == 0,
            b.top == 0,
            !b.visual,
            b.visual_anchor is None,
            b.search_term@.len() == 0,
            b.last_search is None,
            !b.need_rebuild,
            b.in_path@ == in_path@,
            b.last_preview_paths@.len() == 0,
            b.preview_cmd@.len() == 0,
            b.preview_lines@.len() == 0,
    {
        let rows = build_rows(data, &expanded);
        Browser {
            rows,
            expanded,
            selected: PathSet::new(),
            cursor: 0,
            top: 0,
            visual: false,
            visual_anchor: None,
            search_term: String::new(),
            last_search: None,
            need_rebuild: false,
            in_path: String::from_str(in_path),
            last_preview_paths: Vec::new(),
            preview_cmd: String::new(),
            preview_lines: Vec::new(),
        }
    }

    /// The paths to extract: the selected paths in order, or the cursor's
    /// path when nothing is selected.
    pub fn target_paths(&self) -> (res: Vec<Vec<PathSeg>>)
        requires
            self.wf(),
        ensures
            paths_view(res@) == self.targets(),
    {
        if self.selected.is_empty() {
            let mut v: Vec<Vec<PathSeg>> = Vec::new();
            v.push(copy_path(self.rows[self.cursor].path.as_slice()));
            assert(paths_view(v@) =~= self.targets());
            v
        } else {
            self.selected.to_vec()
        }
    }

    /// Applies one key (see `key_step`); the caller must first rule out the
    /// keys that `key_faults` names.
    pub fn handle_key(&mut self, key: Key) -> (a: Action)
        requires
            old(self).wf(),
            !old(self).key_faults(key),
        ensures
            final(self).wf(),
            key_step(*old(self), *final(self), key, a@),
    {
        let ghost o = *self;
        let ghost rows = self.row_views();
        let last = self.rows.len() - 1;
        let c = self.cursor;
        assert(rows[c as int].path == path_view(self.rows@[c as int].path@));
        assert(rows[c as int].is_container == self.rows@[c as int].is_container);
        if key == Key::Char('q') || key == Key::Esc {
            Action::Quit
        } else if key == Key::Enter {
            Action::Extract(self.target_paths())
        } else if key == Key::Char('j') || key == Key::Down {
            self.cursor = if c < last { c + 1 } else { last };
            Action::Continue
        } else if key == Key::Char('k') || key == Key::Up {
            self.cursor = if c >= 1 { c - 1 } else { 0 };
            Action::Continue
        } else if key == Key::Char('g') {
            self.cursor = 0;
            Action::Continue
        } else if key == Key::Char('G') {
            self.cursor = last;
            Action::Continue
        } else if key == Key::Char('h') || key == Key::Left {
            if self.expanded.contains(self.rows[c].path.as_slice()) {
                self.expanded.remove(self.rows[c].path.as_slice());
                self.need_rebuild = true;
            } else if self.rows[c].path.len() > 0 {
                let mut parent = copy_path(self.rows[c].path.as_slice());
                let _ = parent.pop();
                assert(path_view(parent@) =~= rows[c as int].path.drop_last());
                proof {
                    lemma_first_row_with_path(rows, path_view(parent@), 0);
                }
                match find_row_with_path(&self.rows, parent.as_slice()) {
                    Some(i) => {
                        self.cursor = i;
                    },
                    None => {},
                }
            }
            Action::Continue
        } else if key == Key::Char('l') || key == Key::Right {
            if self.rows[c].is_container {
                self.expanded.insert(self.rows[c].path.as_slice());
                self.need_rebuild = true;
            }
            Action::Continue
        } else if key == Key::Char('.') {
            if self.rows[c].is_container {
                if self.expanded.contains(self.rows[c].path.as_slice()) {
                    self.expanded.remove(self.rows[c].path.as_slice());
                } else {
                    self.expanded.insert(self.rows[c].path.as_slice());
                }
                self.need_rebuild = true;
            }
            Action::Continue
        } else if key == Key::Char('v') {
            if self.visual {
                self.visual = false;
                self.visual_anchor = None;
            } else {
                self.visual = true;
                self.visual_anchor = Some(c);
            }
            Action::Continue
        } else if key == Key::Char(' ') || key == Key::Tab {
            let (lo, hi) = match self.visual_anchor {
                Some(a) => if self.visual {
                    if a <= c { (a, c) } else { (c, a) }
                } else {
                    (c, c)
                },
                None => (c, c),
            };
            assert((lo as int, hi as int) == o.key_range());
            assert(rows[lo as int].path == path_view(self.rows@[lo as int].path@));
            assert(rows[lo as int].selectable == self.rows@[lo as int].selectable);
            if key == Key::Char(' ') {
                let unselect = self.rows[lo].selectable && self.selected.contains(
                    self.rows[lo].path.as_slice(),
                );
                select_range(&mut self.selected, &self.rows, lo, hi, unselect);
            } else {
                select_range(&mut self.selected, &self.rows, lo, hi, false);
                self.cursor = if c < last { c + 1 } else { last };
            }
            Action::Continue
        } else if key == Key::Char('/') {
            Action::Search
        } else if key == Key::Char('n') {
            if !self.search_term.as_str().is_empty() {
                let n = self.rows.len();
                let start: usize = match self.last_search {
                    Some(ls) => ls + 1,
                    None => c + 1,
                };
                let found = if start <= n {
                    match find_match(&self.rows, &self.search_term, start, n) {
                        Some(i) => Some(i),
                        None => find_match(&self.rows, &self.search_term, 0, start),
                    }
                } else {
                    find_match(&self.rows, &self.search_term, 0, n)
                };
                proof {
                    lemma_first_match_in_range(rows, o.search_term@, start as int, n as int);
                    lemma_first_match_in_range(rows, o.search_term@, 0, start as int);
                    lemma_first_match_in_range(rows, o.search_term@, 0, n as int);
                    if start > n {
                        assert(first_match(rows, o.search_term@, start as int, n as int) is None);
                    }
                }
                match found {
                    Some(f) => {
                        self.cursor = f;
                        self.last_search = Some(f);
                    },
                    None => {},
                }
            }
            Action::Continue
        } else {
            Action::Continue
        }
    }
}

/// How a frame's start (`begin_frame` on a terminal `width` by `height`)
/// changes the browser `o` into `n`: the rows are built again from `data`
/// if a key asked for it, the cursor is kept on a row and on screen, and when
/// the targets differ from the last previewed ones they become the previewed
/// targets and the preview command becomes their command. Nothing else changes.
pub open spec fn frame_step(o: Browser, n: Browser, data: JsonValue, width: nat, height: nat) -> bool {
    let rows = if o.need_rebuild {
        document_rows(data, o.expanded@)
    } else {
        o.row_views()
    };
    let cur = if o.cursor < rows.len() { o.cursor as int } else { rows.len() - 1 };
    let lay = layout_of(width, height);
    &&& n.row_views() == rows
    &&& !n.need_rebuild
    &&& n.cursor == cur
    &&& n.top == scrolled_top(o.top as int, cur, lay.body_height as int)
    &&& if n.targets() == paths_view(o.last_preview_paths@) {
        n == (Browser { rows: n.rows, need_rebuild: false, cursor: n.cursor, top: n.top, ..o })
    } else {
        &&& paths_view(n.last_preview_paths@) == n.targets()
        &&& n.preview_cmd@ == jq_command(object_filter(n.targets()), o.in_path@)
        &&& n == (Browser {
            rows: n.rows,
            need_rebuild: false,
            cursor: n.cursor,
            top: n.top,
            last_preview_paths: n.last_preview_paths,
            preview_cmd: n.preview_cmd,
            ..o
        })
    }
}

/// How a finished search query changes `o` into `n`: the search term becomes
/// the query trimmed and in lower case, and when it is not empty the cursor
/// moves to the first matching row after it (without wrapping around).
pub open spec fn search_step(o: Browser, n: Browser, query: Seq<char>) -> bool {
    let term = lowercase(trimmed(query));
    let found = if term.len() > 0 {
        first_match(o.row_views(), term, o.cursor + 1, o.rows@.len() as int)
    } else {
        None
    };
    &&& n.search_term@ == term
    &&& match found {
        Some(i) => n == (Browser {
            search_term: n.search_term,
            cursor: i as usize,
            last_search: Some(i as usize),
            ..o
        }),
        None => n == (Browser { search_term: n.search_term, ..o }),
    }
}

/// How the output of a preview changes `o` into `n`: only the preview lines
/// change, to the lines of the output.
pub open spec fn preview_step(o: Browser, n: Browser, output: Seq<char>) -> bool {
    &&& n == (Browser { preview_lines: n.preview_lines, ..o })
    &&& string_views(n.preview_lines@) == lines_of(output)
}

/// One thing that happens to the browser in a session.
pub enum Event {
    /// A key press, with the action it answered.
    Key(Key, ActionView),
    /// The start of a frame on a document and a terminal size.
    Frame(JsonValue, nat, nat),
    /// A finished search query.
    Search(Seq<char>),
    /// The output of a preview command.
    Preview(Seq<char>),
}

/// How one event changes the browser `o` into `n`.
pub open spec fn browser_step(o: Browser, n: Browser, ev: Event) -> bool {
    match ev {
        Event::Key(k, a) => key_step(o, n, k, a),
        Event::Frame(data, w, h) => frame_step(o, n, data, w, h),
        Event::Search(q) => search_step(o, n, q),
        Event::Preview(out) => preview_step(o, n, out),
    }
}

/// Whether `states` is a session: each state follows from the one before by
/// the event between them.
pub open spec fn is_session(states: Seq<Browser>, events: Seq<Event>) -> bool {
    &&& states.len() == events.len() + 1
    &&& forall|i: int| 0 <= i < events.len() ==> browser_step(states[i], states[i + 1], #[trigger] events[i])
}

impl Browser {
    /// Applies one key, as `handle_key` does, unless `key_faults` names it:
    /// then nothing changes and `None` comes back (where the browser would
    /// index past its rows).
    pub fn try_handle_key(&mut self, key: Key) -> (res: Option<Action>)
        requires
            old(self).wf(),
        ensures
            final(self).wf(),
            old(self).key_faults(key) ==> res is None && *final(self) == *old(self),
            !old(self).key_faults(key) ==> (res matches Some(a) && key_step(
                *old(self),
                *final(self),
                key,
                a@,
            )),
    {
        let n = self.rows.len();
        if (key == Key::Char(' ') || key == Key::Tab) && self.visual {
            if let Some(a) = self.visual_anchor {
                if a >= n {
                    return None;
                }
            }
        }
        if key == Key::Char('n') && !self.search_term.as_str().is_empty() {
            let start_past_end = match self.last_search {
                Some(ls) => ls >= n,
                None => self.cursor >= n,
            };
            if start_past_end && find_match(&self.rows, &self.search_term, 0, n).is_none() {
                return None;
            }
        }
        Some(self.handle_key(key))
    }

    /// Takes a finished search query: the search term becomes the query
    /// trimmed and in lower case, and when it is not empty the cursor moves
    /// to the first row after it that matches (without wrapping around).
    pub fn apply_search(&mut self, query: &str)
        requires
            old(self).wf(),
        ensures
            final(self).wf(),
            search_step(*old(self), *final(self), query@),
    {
        let ghost o = *self;
        let t = trim(query);
        let term = to_lowercase(t.as_str());
        self.search_term = term;
        if !self.search_term.as_str().is_empty() {
            let n = self.rows.len();
            let found = find_match(&self.rows, &self.search_term, self.cursor + 1, n);
            proof {
                lemma_first_match_in_range(o.row_views(), self.search_term@, o.cursor + 1, n as int);
            }
            if let Some(i) = found {
                self.cursor = i;
                self.last_search = Some(i);
            }
        }
    }

    /// Keeps the output of the preview command, cut into lines as
    /// `str::lines` cuts it.
    pub fn set_preview_output(&mut self, output: &str)
        ensures
            preview_step(*old(self), *final(self), output@),
    {
        self.preview_lines = split_lines(output);
    }
}

/// What came of running `jq` for a preview.
pub struct JqOutcome {
    /// Whether `jq` exited successfully.
    pub success: bool,
    /// What it wrote to standard output.
    pub stdout: String,
    /// What it wrote to standard error.
    pub stderr: String,
}

/// The message shown when `jq` could not be run.
pub open spec fn jq_failed_text() -> Seq<char> {
    seq!['F', 'a', 'i', 'l', 'e', 'd', ' ', 't', 'o', ' ', 'r', 'u', 'n', ' ', 'j', 'q']
}

/// The preview text for `filter`: nothing for an empty filter; otherwise,
/// given what came of running `jq` on it (`None` when it could not be run or
/// waited for), its output when it succeeded, its error output when it
/// failed, and a message saying that it could not be run.
pub fn preview_text(filter: &str, outcome: Option<JqOutcome>) -> (res: String)
    ensures
        res@ == (if filter@.len() == 0 {
            Seq::<char>::empty()
        } else {
            match outcome {
                None => jq_failed_text(),
                Some(o) => if o.success {
                    o.stdout@
                } else {
                    o.stderr@
                },
            }
        }),
{
    if !runs_jq(filter) {
        return String::new();
    }
    match outcome {
        None => {
            let text = "Failed to run jq";
            proof {
                reveal_strlit("Failed to run jq");
            }
            assert(text@ =~= jq_failed_text());
            text.to_owned()
        },
        Some(o) => if o.success {
            o.stdout
        } else {
            o.stderr
        },
    }
}

/// The browser a session starts with on the JSON text `text` (read from
/// `in_path`, empty for standard input): the document serde_json reads, with
/// every object and array open, the cursor on the first row and nothing
/// selected; `None` when `text` is not valid JSON. Every object of the
/// document has distinct keys, so the laws that need it hold in the session.
pub fn open_document(text: &str, in_path: &str) -> (res: Option<(JsonValue, Browser)>)
    ensures
        res is None <==> parsed_document(text@) is None,
        res matches Some((d, b)) ==> {
            &&& parsed_document(text@) == Some(d)
            &&& keys_distinct(d)
            &&& b.wf()
            &&& !b.need_rebuild
            &&& b.expanded@ == container_paths(d, Seq::empty())
            &&& b.row_views() == document_rows(d, b.expanded@)
            &&& b.selected@ == Set::<Seq<SegView>>::empty()
            &&& b.cursor == 0
            &&& b.in_path@ == in_path@
        },
{
    match parse_document(text) {
        None => None,
        Some(d) => {
            let mut expanded = PathSet::new();
            expand_all(&d, Vec::new(), &mut expanded);
            proof {
                assert(path_view(Seq::<PathSeg>::empty()) =~= Seq::<SegView>::empty());
                assert(Set::<Seq<SegView>>::empty() + container_paths(d, Seq::empty()) =~= container_paths(
                    d,
                    Seq::empty(),
                ));
            }
            let b = Browser::new(&d, expanded, in_path);
            Some((d, b))
        },
    }
}

/// Whether a preview runs `jq` for `filter`: only for a filter that is not
/// empty.
pub fn runs_jq(filter: &str) -> (b: bool)
    ensures
        b == (filter@.len() > 0),
{
    !filter.is_empty()
}

/// Whether two lists of paths are equal.
fn path_lists_eq(a: &Vec<Vec<PathSeg>>, b: &Vec<Vec<PathSeg>>) -> (r: bool)
    ensures
        r == (paths_view(a@) == paths_view(b@)),
{
    if a.len() != b.len() {
        assert(paths_view(a@).len() != paths_view(b@).len());
        return false;
    }
    let mut i: usize = 0;
    while i < a.len()
        invariant
            i <= a@.len() == b@.len(),
            forall|j: int| 0 <= j < i ==> path_view(a@[j]@) == path_view(b@[j]@),
        decreases a.len() - i,
    {
        if !path_eq(a[i].as_slice(), b[i].as_slice()) {
            assert(paths_view(a@)[i as int] != paths_view(b@)[i as int]);
            return false;
        }
        i = i + 1;
    }
    assert(paths_view(a@) =~= paths_view(b@));
    true
}

/// What the caller needs to draw a frame: the layout, the preview command
/// cut to the preview's width, and the filter of a preview to compute first.
pub struct FramePlan {
    pub layout: Layout,
    /// The lines of the preview command shown (the command as it was before
    /// this frame's preview request, as the screen shows it one frame late).
    pub wrapped_cmd: Vec<String>,
    /// A filter to run `jq` with (on the input) when the targets changed;
    /// its output goes to `set_preview_output`.
    pub preview_filter: Option<String>,
}

impl Browser {
    /// Starts a frame on a terminal of the given size: builds the rows again
    /// if a key asked for it, keeps the cursor on a row and on screen, and
    /// asks for a new preview when the targets differ from the last ones.
    pub fn begin_frame(&mut self, data: &JsonValue, width: u16, height: u16) -> (plan: FramePlan)
        requires
            old(self).wf(),
        ensures
            final(self).wf(),
            frame_step(*old(self), *final(self), *data, width as nat, height as nat),
            plan.layout == layout_of(width as nat, height as nat),
            string_views(plan.wrapped_cmd@) == wrapped(
                old(self).preview_cmd@,
                layout_of(width as nat, height as nat).right_width as nat,
            ),
            final(self).targets() == paths_view(old(self).last_preview_paths@) ==> plan.preview_filter is None,
            final(self).targets() != paths_view(old(self).last_preview_paths@) ==> (plan.preview_filter matches Some(f)
                && f@ == object_filter(final(self).targets())),
    {
        if self.need_rebuild {
            self.rows = build_rows(data, &self.expanded);
            self.need_rebuild = false;
        }
        let last = self.rows.len() - 1;
        if self.cursor > last {
            self.cursor = last;
        }
        let lay = layout(width, height);
        let wrapped_cmd = wrap_text(self.preview_cmd.as_str(), lay.right_width);
        self.top = scroll_top(self.top, self.cursor, lay.body_height);
        let targets = self.target_paths();
        if path_lists_eq(&targets, &self.last_preview_paths) {
            FramePlan { layout: lay, wrapped_cmd, preview_filter: None }
        } else {
            let (filter, cmd) = generate_jq_command(targets.as_slice(), self.in_path.as_str());
            self.last_preview_paths = targets;
            self.preview_cmd = cmd;
            FramePlan { layout: lay, wrapped_cmd, preview_filter: Some(filter) }
        }
    }
}

// ---------------------------------------------------------------------------
// Frames
// ---------------------------------------------------------------------------

/// One row of the tree panel as shown.
#[derive(Debug)]
pub struct LeftCell {
    /// The row is selectable and selected (shown with a bar in the margin).
    pub marked: bool,
    /// The row lies in the visual range.
    pub in_visual: bool,
    /// The row is under the cursor.
    pub at_cursor: bool,
    /// The row's text, cut to the panel's width.
    pub text: String,
}

/// One line of the preview panel as shown.
#[derive(Debug)]
pub enum RightCell {
    /// The panel's title.
    Title(String),
    /// A line of the preview command.
    Command(String),
    /// A horizontal rule this many cells wide under the command.
    Rule(usize),
    /// A line of the preview output, cut to the panel's width.
    Output(String),
}

/// One line of the body of the screen.
#[derive(Debug)]
pub struct BodyLine {
    pub left: Option<LeftCell>,
    pub right: Option<RightCell>,
}

/// What a frame shows.
#[derive(Debug)]
pub struct Frame {
    /// The body lines from the top of the screen.
    pub lines: Vec<BodyLine>,
    /// The key help on the line before the last.
    pub footer: String,
    /// The cursor's jq path on the last line.
    pub status: String,
}

/// The key help shown after the mode name.
pub open spec fn footer_help() -> Seq<char> {
    "  /:search n:next  Space:toggle  Tab:toggle+down  v:visual  .:expand/collapse  Enter:extract  q:quit"@
}

/// The footer of a frame: the mode and the key help, cut to the width.
pub open spec fn footer_text(visual: bool, width: nat) -> Seq<char> {
    truncated((if visual { "VISUAL"@ } else { "NORMAL"@ }) + footer_help(), width)
}

/// The status line of a frame: the cursor's jq path, cut to the width.
pub open spec fn status_text(path: Seq<SegView>, width: nat) -> Seq<char> {
    truncated("cursor: "@ + jq_path(path, false), width)
}

/// Whether row `idx` is in the visual range of `b`.
pub open spec fn in_visual_range(b: Browser, idx: int) -> bool {
    b.visual && b.visual_anchor is Some && {
        let a = b.visual_anchor->0 as int;
        let c = b.cursor as int;
        if a <= c {
            a <= idx <= c
        } else {
            c <= idx <= a
        }
    }
}

/// Whether `cell` shows body line `i` of the tree panel of `b`.
pub open spec fn left_cell_shows(b: Browser, lay: Layout, i: int, cell: Option<LeftCell>) -> bool {
    let idx = b.top + i;
    let rows = b.row_views();
    if idx < rows.len() {
        cell matches Some(c) && {
            &&& c.marked == (rows[idx].selectable && b.selected@.contains(rows[idx].path))
            &&& c.in_visual == in_visual_range(b, idx)
            &&& c.at_cursor == (idx == b.cursor)
            &&& c.text@ == truncated(rows[idx].text, sat_sub(lay.left_width as int, 3) as nat)
        }
    } else {
        cell is None
    }
}

/// Whether `cell` shows body line `i` of the preview panel: the title, the
/// lines of the command, a rule, then the output lines.
pub open spec fn right_cell_shows(
    b: Browser,
    lay: Layout,
    cmd: Seq<Seq<char>>,
    i: int,
    cell: Option<RightCell>,
) -> bool {
    let rw = lay.right_width as nat;
    let k = cmd.len() as int;
    let out = string_views(b.preview_lines@);
    if rw == 0 {
        cell is None
    } else if i == 0 {
        cell matches Some(RightCell::Title(t)) && t@ == truncated("Preview:"@, rw)
    } else if i <= k {
        cell matches Some(RightCell::Command(t)) && t@ == cmd[i - 1]
    } else if i == k + 1 {
        cell == Some(RightCell::Rule(rw as usize))
    } else if i - k - 2 < out.len() {
        cell matches Some(RightCell::Output(t)) && t@ == truncated(out[i - k - 2], rw)
    } else {
        cell is None
    }
}

impl Browser {
    /// The contents of the frame that `plan` started.
    pub fn frame(&self, plan: &FramePlan) -> (f: Frame)
        requires
            self.wf(),
        ensures
            f.lines@.len() == plan.layout.body_height,
            forall|i: int|
                0 <= i < f.lines@.len() ==> left_cell_shows(*self, plan.layout, i, #[trigger] f.lines@[i].left),
            forall|i: int|
                0 <= i < f.lines@.len() ==> right_cell_shows(
                    *self,
                    plan.layout,
                    string_views(plan.wrapped_cmd@),
                    i,
                    #[trigger] f.lines@[i].right,
                ),
            f.footer@ == footer_text(self.visual, plan.layout.width as nat),
            f.status@ == status_text(self.cursor_path(), plan.layout.width as nat),
    {
        let lay = plan.layout;
        let ghost cmd = string_views(plan.wrapped_cmd@);
        let k = plan.wrapped_cmd.len();
        let max_line_len = lay.left_width.saturating_sub(3);
        let mut lines: Vec<BodyLine> = Vec::new();
        let mut i: usize = 0;
        while i < lay.body_height
            invariant
                self.wf(),
                lay == plan.layout,
                k == plan.wrapped_cmd@.len(),
                cmd == string_views(plan.wrapped_cmd@),
                max_line_len == sat_sub(lay.left_width as int, 3),
                lines@.len() == i,
                i <= lay.body_height,
                forall|j: int| 0 <= j < i ==> left_cell_shows(*self, lay, j, #[trigger] lines@[j].left),
                forall|j: int| 0 <= j < i ==> right_cell_shows(*self, lay, cmd, j, #[trigger] lines@[j].right),
            decreases lay.body_height - i,
        {
            let n = self.rows.len();
            let left = if self.top < n && i < n - self.top {
                let idx = self.top + i;
                let row = &self.rows[idx];
                let marked = row.selectable && self.selected.contains(row.path.as_slice());
                let in_visual = match self.visual_anchor {
                    Some(a) => self.visual && range_indices(a, self.cursor).contains(&idx),
                    None => false,
                };
                let text = truncate(row.text.as_str(), max_line_len);
                Some(LeftCell { marked, in_visual, at_cursor: idx == self.cursor, text })
            } else {
                None
            };
            let right = if lay.right_width == 0 {
                None
            } else if i == 0 {
                let t = truncate("Preview:", lay.right_width);
                Some(RightCell::Title(t))
            } else if i <= k {
                let t = plan.wrapped_cmd[i - 1].clone();
                Some(RightCell::Command(t))
            } else if i - 1 == k {
                Some(RightCell::Rule(lay.right_width))
            } else if i - 1 - k - 1 < self.preview_lines.len() {
                let t = truncate(self.preview_lines[i - 1 - k - 1].as_str(), lay.right_width);
                Some(RightCell::Output(t))
            } else {
                None
            };
            let line = BodyLine { left, right };
            proof {
                assert(left_cell_shows(*self, lay, i as int, line.left));
                assert(right_cell_shows(*self, lay, cmd, i as int, line.right));
            }
            lines.push(line);
            i = i + 1;
        }
        let mut footer_full = String::new();
        if self.visual {
            footer_full.append("VISUAL");
        } else {
            footer_full.append("NORMAL");
        }
        footer_full.append("  /:search n:next  Space:toggle  Tab:toggle+down  v:visual  .:expand/collapse  Enter:extract  q:quit");
        let footer = truncate(footer_full.as_str(), lay.width);
        let mut status_full = String::from_str("cursor: ");
        let jq = path_to_jq(self.rows[self.cursor].path.as_slice());
        status_full.append(jq.as_str());
        let status = truncate(status_full.as_str(), lay.width);
        assert(self.row_views()[self.cursor as int].path == path_view(self.rows@[self.cursor as int].path@));
        Frame { lines, footer, status }
    }
}

} // verus!
