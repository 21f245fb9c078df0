//! What searching and selecting do, stated over the rows themselves.
use vstd::prelude::*;
use crate::path::SegView;
use crate::rows::RowView;
use crate::text::{lowercase, trimmed};
use crate::tui::{Browser, Key, ActionView, key_step, search_step, row_matches, first_match};

verus! {

/// `first_match` finds the least matching index of its range, or says that
/// none matches.
proof fn lemma_first_match_least(rows: Seq<RowView>, term: Seq<char>, from: int, to: int)
    ensures
        match first_match(rows, term, from, to) {
            Some(i) => from <= i < to && row_matches(rows[i].text, term) && forall|j: int|
                from <= j < i ==> !row_matches(#[trigger] rows[j].text, term),
            None => forall|j: int| from <= j < to ==> !row_matches(#[trigger] rows[j].text, term),
        },
    decreases to - from,
{
    if from < to {
        lemma_first_match_least(rows, term, from + 1, to);
        if !row_matches(rows[from].text, term) {
            match first_match(rows, term, from + 1, to) {
                Some(i) => {
                    assert forall|j: int| from <= j < i implies !row_matches(#[trigger] rows[j].text, term) by {
                        if j > from {
                        }
                    }
                },
                None => {
                    assert forall|j: int| from <= j < to implies !row_matches(#[trigger] rows[j].text, term) by {
                        if j > from {
                        }
                    }
                },
            }
        }
    }
}

/// Whether some row with index in `from..to` matches `term`.
pub open spec fn some_match(rows: Seq<RowView>, term: Seq<char>, from: int, to: int) -> bool {
    exists|i: int| from <= i < to && row_matches(#[trigger] rows[i].text, term)
}

/// Whether `i` is the least index in `from..to` of a row matching `term`.
pub open spec fn least_match(rows: Seq<RowView>, term: Seq<char>, from: int, to: int, i: int) -> bool {
    &&& from <= i < to
    &&& row_matches(rows[i].text, term)
    &&& forall|j: int| from <= j < i ==> !row_matches(#[trigger] rows[j].text, term)
}

proof fn lemma_first_match_is_least(rows: Seq<RowView>, term: Seq<char>, from: int, to: int)
    ensures
        some_match(rows, term, from, to) ==> (first_match(rows, term, from, to) matches Some(i)
            && least_match(rows, term, from, to, i)),
        !some_match(rows, term, from, to) ==> first_match(rows, term, from, to) is None,
{
    lemma_first_match_least(rows, term, from, to);
    match first_match(rows, term, from, to) {
        Some(i) => {
            assert(row_matches(rows[i].text, term));
        },
        None => {},
    }
}

/// A finished search query keeps the query trimmed and in lower case as the
/// term. When the term is not empty and some row after the cursor matches
/// it, the cursor moves forward to the nearest such row, which becomes the
/// last match; the cursor's own row never counts. Otherwise the cursor and
/// the last match stay where they were.
pub proof fn lemma_search_moves_forward(o: Browser, n: Browser, query: Seq<char>)
    requires
        search_step(o, n, query),
    ensures
        n.search_term@ == lowercase(trimmed(query)),
        n.rows == o.rows,
        n.expanded == o.expanded,
        n.selected == o.selected,
        ({
            let rows = o.row_views();
            let term = n.search_term@;
            let c = o.cursor as int;
            if term.len() > 0 && some_match(rows, term, c + 1, rows.len() as int) {
                &&& c < n.cursor
                &&& least_match(rows, term, c + 1, rows.len() as int, n.cursor as int)
                &&& n.last_search == Some(n.cursor)
            } else {
                &&& n.cursor == o.cursor
                &&& n.last_search == o.last_search
            }
        }),
{
    let rows = o.row_views();
    let term = n.search_term@;
    let c = o.cursor as int;
    assert(rows.len() == o.rows@.len());
    assert(o.rows@.len() == o.rows.len());
    lemma_first_match_is_least(rows, term, c + 1, rows.len() as int);
}

/// `n` with a term that is not empty moves the cursor to the nearest row
/// that matches it, looking from the row after the last match (or after the
/// cursor, before any match) to the last row, and then from the first row
/// on; with no matching row, or with an empty term, nothing changes.
pub proof fn lemma_next_match_wraps(o: Browser, n: Browser, a: ActionView)
    requires
        key_step(o, n, Key::Char('n'), a),
    ensures
        ({
            let rows = o.row_views();
            let term = o.search_term@;
            let len = rows.len() as int;
            let start = match o.last_search {
                Some(ls) => ls + 1,
                None => o.cursor + 1,
            };
            let wrap_end = if start <= len { start } else { len };
            if term.len() > 0 && some_match(rows, term, start, len) {
                &&& least_match(rows, term, start, len, n.cursor as int)
                &&& n.last_search == Some(n.cursor)
                &&& n.rows == o.rows && n.selected == o.selected && n.expanded == o.expanded
            } else if term.len() > 0 && some_match(rows, term, 0, wrap_end) {
                &&& least_match(rows, term, 0, wrap_end, n.cursor as int)
                &&& n.last_search == Some(n.cursor)
                &&& n.rows == o.rows && n.selected == o.selected && n.expanded == o.expanded
            } else {
                n == o
            }
        }),
{
    let rows = o.row_views();
    let term = o.search_term@;
    let len = rows.len() as int;
    let start = o.search_start();
    let wrap_end = if start <= len { start } else { len };
    assert(rows.len() == o.rows@.len());
    assert(o.rows@.len() == o.rows.len());
    lemma_first_match_is_least(rows, term, start, len);
    lemma_first_match_is_least(rows, term, 0, wrap_end);
}

/// The rows space and Tab act on: from the visual anchor to the cursor in
/// visual mode, the cursor's row otherwise.
pub open spec fn acted_rows(o: Browser) -> (int, int) {
    let c = o.cursor as int;
    match o.visual_anchor {
        Some(a) => if !o.visual {
            (c, c)
        } else if (a as int) < c {
            (a as int, c)
        } else {
            (c, a as int)
        },
        None => (c, c),
    }
}

/// Whether `p` is the path of a selectable row with index from `lo` to `hi`.
pub open spec fn selectable_in(rows: Seq<RowView>, lo: int, hi: int, p: Seq<SegView>) -> bool {
    exists|r: int| 0 <= r < rows.len() && lo <= r <= hi && (#[trigger] rows[r]).selectable && rows[r].path == p
}

/// Tab adds to the selection the path of every selectable row it acts on
/// (the whole visual range in visual mode) and nothing else, and moves the
/// cursor down one row unless it is on the last one.
pub proof fn lemma_tab_selects_range(o: Browser, n: Browser, a: ActionView)
    requires
        o.wf(),
        !o.key_faults(Key::Tab),
        key_step(o, n, Key::Tab, a),
    ensures
        ({
            let rows = o.row_views();
            let (lo, hi) = acted_rows(o);
            forall|p: Seq<SegView>|
                n.selected@.contains(p) <==> (o.selected@.contains(p) || selectable_in(rows, lo, hi, p))
        }),
        n.cursor == (if o.cursor + 1 < o.rows@.len() { o.cursor + 1 } else { o.cursor as int }),
        n.rows == o.rows,
        n.expanded == o.expanded,
        a == ActionView::Continue,
{
    let rows = o.row_views();
    let (lo, hi) = acted_rows(o);
    assert(o.key_range() == acted_rows(o));
    assert(rows.len() == o.rows@.len());
    assert(o.rows@.len() == o.rows.len());
    if o.visual && o.visual_anchor is Some {
        assert(o.visual_anchor->0 < rows.len());
    }
    assert forall|p: Seq<SegView>| n.selected@.contains(p) <==> (o.selected@.contains(p) || selectable_in(rows, lo, hi, p)) by {
        if !o.selected@.contains(p) && n.selected@.contains(p) {
            let r = choose|r: int| lo <= r <= hi && rows[r].selectable && rows[r].path == p;
            assert(selectable_in(rows, lo, hi, p));
        }
        if selectable_in(rows, lo, hi, p) {
            let r = choose|r: int| 0 <= r < rows.len() && lo <= r <= hi && (#[trigger] rows[r]).selectable && rows[r].path == p;
            assert(crate::tui::selectable_paths(rows, lo, hi).contains(p));
        }
    }
}

/// Space selects the paths of the selectable rows it acts on; when the first
/// of those rows is selectable and already selected it takes those paths out
/// of the selection instead. Nothing else changes.
pub proof fn lemma_space_toggles_range(o: Browser, n: Browser, a: ActionView)
    requires
        o.wf(),
        !o.key_faults(Key::Char(' ')),
        key_step(o, n, Key::Char(' '), a),
    ensures
        ({
            let rows = o.row_views();
            let (lo, hi) = acted_rows(o);
            let unselect = rows[lo].selectable && o.selected@.contains(rows[lo].path);
            forall|p: Seq<SegView>|
                n.selected@.contains(p) <==> if unselect {
                    o.selected@.contains(p) && !selectable_in(rows, lo, hi, p)
                } else {
                    o.selected@.contains(p) || selectable_in(rows, lo, hi, p)
                }
        }),
        n.cursor == o.cursor,
        n.rows == o.rows,
        n.expanded == o.expanded,
        a == ActionView::Continue,
{
    let rows = o.row_views();
    let (lo, hi) = acted_rows(o);
    assert(o.key_range() == acted_rows(o));
    assert(rows.len() == o.rows@.len());
    if o.visual && o.visual_anchor is Some {
        assert(o.visual_anchor->0 < rows.len());
    }
    assert forall|p: Seq<SegView>| selectable_in(rows, lo, hi, p) <==> crate::tui::selectable_paths(rows, lo, hi).contains(p) by {
        if crate::tui::selectable_paths(rows, lo, hi).contains(p) {
            let r = choose|r: int| lo <= r <= hi && rows[r].selectable && rows[r].path == p;
            assert(selectable_in(rows, lo, hi, p));
        }
        if selectable_in(rows, lo, hi, p) {
            let r = choose|r: int| 0 <= r < rows.len() && lo <= r <= hi && (#[trigger] rows[r]).selectable && rows[r].path == p;
            assert(crate::tui::selectable_paths(rows, lo, hi).contains(p));
        }
    }
}

} // verus!
