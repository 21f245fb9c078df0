//! What holds of every state of a session on one document.
use vstd::prelude::*;
use crate::json::{JsonValue, keys_distinct};
use crate::path::SegView;
use crate::rows::document_rows;
use crate::tui::{Browser, Key, ActionView, Event, key_step, browser_step, is_session};
use crate::tree_laws::lemma_toggle_expand_twice_across_frames;

verus! {

// ---------------------------------------------------------------------------
// The rows are the document's rows
// ---------------------------------------------------------------------------

/// Whether the browser's rows are the rows of `data` for its open set,
/// unless a key has asked for them to be built again.
pub open spec fn shows_document(b: Browser, data: JsonValue) -> bool {
    !b.need_rebuild ==> b.row_views() == document_rows(data, b.expanded@)
}

/// Whether every frame among `events` is drawn from `data`.
pub open spec fn frames_on(events: Seq<Event>, data: JsonValue) -> bool {
    forall|i: int|
        0 <= i < events.len() ==> (#[trigger] events[i] matches Event::Frame(d, _, _) ==> d == data)
}

/// One event keeps `shows_document`, and after a frame the rows are the
/// document's rows.
pub proof fn lemma_step_shows_document(o: Browser, n: Browser, ev: Event, data: JsonValue)
    requires
        browser_step(o, n, ev),
        shows_document(o, data),
        ev matches Event::Frame(d, _, _) ==> d == data,
    ensures
        shows_document(n, data),
        ev is Frame ==> !n.need_rebuild && n.row_views() == document_rows(data, n.expanded@),
{
    match ev {
        Event::Key(k, a) => {
            if !n.need_rebuild {
                assert(n.rows == o.rows && n.expanded == o.expanded && !o.need_rebuild);
            }
        },
        Event::Frame(d, w, h) => {
            assert(n.expanded == o.expanded);
        },
        Event::Search(q) => {
            assert(n.rows == o.rows && n.expanded == o.expanded && n.need_rebuild == o.need_rebuild);
        },
        Event::Preview(out) => {
            assert(n.rows == o.rows && n.expanded == o.expanded && n.need_rebuild == o.need_rebuild);
        },
    }
}

/// In a session whose frames are drawn from `data` and which starts showing
/// `data` (as `Browser::new` does), every state shows `data`.
pub proof fn lemma_session_shows_document(states: Seq<Browser>, events: Seq<Event>, data: JsonValue)
    requires
        is_session(states, events),
        frames_on(events, data),
        shows_document(states[0], data),
    ensures
        forall|i: int| 0 <= i < states.len() ==> shows_document(#[trigger] states[i], data),
    decreases events.len(),
{
    if events.len() > 0 {
        let m = events.len() - 1;
        let s2 = states.drop_last();
        let e2 = events.drop_last();
        assert(is_session(s2, e2)) by {
            assert forall|i: int| 0 <= i < e2.len() implies browser_step(s2[i], s2[i + 1], #[trigger] e2[i]) by {
                assert(browser_step(states[i], states[i + 1], events[i]));
            }
        }
        assert(frames_on(e2, data)) by {
            assert forall|i: int| 0 <= i < e2.len() implies (#[trigger] e2[i] matches Event::Frame(d, _, _) ==> d
                == data) by {
                assert(e2[i] == events[i]);
            }
        }
        lemma_session_shows_document(s2, e2, data);
        assert(shows_document(states[m], data)) by {
            assert(s2[m] == states[m]);
        }
        assert(browser_step(states[m], states[m + 1], events[m]));
        assert(events[m] matches Event::Frame(d, _, _) ==> d == data);
        lemma_step_shows_document(states[m], states[m + 1], events[m], data);
        assert forall|i: int| 0 <= i < states.len() implies shows_document(#[trigger] states[i], data) by {
            if i <= m {
                assert(s2[i] == states[i]);
            }
        }
    }
}

/// Pressing `.` twice in a session on a document with distinct keys, with
/// a frame after each press, shows the tree as it was before the first
/// press: the same open set, cursor and rows. As in the program, the first
/// press follows a frame. Every document that `parse_document` reads (and so
/// the one `open_document` starts a session on) has distinct keys.
pub proof fn lemma_session_toggle_twice(
    states: Seq<Browser>,
    events: Seq<Event>,
    data: JsonValue,
    i: int,
)
    requires
        is_session(states, events),
        frames_on(events, data),
        shows_document(states[0], data),
        keys_distinct(data),
        1 <= i,
        i + 4 <= events.len(),
        states[i].wf(),
        events[i - 1] is Frame,
        events[i] matches Event::Key(k, _) && k == Key::Char('.'),
        events[i + 1] is Frame,
        events[i + 2] matches Event::Key(k, _) && k == Key::Char('.'),
        events[i + 3] is Frame,
    ensures
        states[i + 4].expanded@ == states[i].expanded@,
        states[i + 4].cursor == states[i].cursor,
        states[i + 4].row_views() == states[i].row_views(),
{
    lemma_session_shows_document(states, events, data);
    assert(browser_step(states[i - 1], states[i], events[i - 1]));
    lemma_step_shows_document(states[i - 1], states[i], events[i - 1], data);
    let (w1, h1) = match events[i + 1] {
        Event::Frame(d, w, h) => (w, h),
        _ => (0nat, 0nat),
    };
    let (w2, h2) = match events[i + 3] {
        Event::Frame(d, w, h) => (w, h),
        _ => (0nat, 0nat),
    };
    let a1 = match events[i] {
        Event::Key(k, a) => a,
        _ => ActionView::Continue,
    };
    let a2 = match events[i + 2] {
        Event::Key(k, a) => a,
        _ => ActionView::Continue,
    };
    assert(browser_step(states[i], states[i + 1], events[i]));
    assert(browser_step(states[i + 1], states[i + 2], events[i + 1]));
    assert(browser_step(states[i + 2], states[i + 3], events[i + 2]));
    assert(browser_step(states[i + 3], states[i + 4], events[i + 3]));
    assert(events[i + 1] matches Event::Frame(d, _, _) ==> d == data);
    assert(events[i + 3] matches Event::Frame(d, _, _) ==> d == data);
    lemma_toggle_expand_twice_across_frames(
        data,
        w1,
        h1,
        w2,
        h2,
        states[i],
        states[i + 1],
        states[i + 2],
        states[i + 3],
        states[i + 4],
        a1,
        a2,
    );
}

// ---------------------------------------------------------------------------
// Where selected and extracted paths come from
// ---------------------------------------------------------------------------

/// Whether `ev`, happening to `o`, is space or Tab pressed with `p` the path
/// of a selectable row of the range it acts on.
pub open spec fn selects_at(o: Browser, ev: Event, p: Seq<SegView>) -> bool {
    let rows = o.row_views();
    let (lo, hi) = o.key_range();
    &&& ev matches Event::Key(k, _) && (k == Key::Char(' ') || k == Key::Tab)
    &&& exists|r: int| 0 <= r < rows.len() && lo <= r <= hi && (#[trigger] rows[r]).selectable && rows[r].path == p
}

/// Whether no key of the session is one that `key_faults` names, and every
/// state meets the browser's invariant (as `try_handle_key` keeps it).
pub open spec fn well_run(states: Seq<Browser>, events: Seq<Event>) -> bool {
    &&& forall|i: int| 0 <= i < states.len() ==> (#[trigger] states[i]).wf()
    &&& forall|i: int|
        0 <= i < events.len() ==> (#[trigger] events[i] matches Event::Key(k, _) ==> !states[i].key_faults(k))
}

/// One event adds a path to the selection only by selecting it from a
/// selectable row of the range that space or Tab acts on.
pub proof fn lemma_step_selected(o: Browser, n: Browser, ev: Event, p: Seq<SegView>)
    requires
        browser_step(o, n, ev),
        o.wf(),
        ev matches Event::Key(k, _) ==> !o.key_faults(k),
        n.selected@.contains(p),
        !o.selected@.contains(p),
    ensures
        selects_at(o, ev, p),
{
    match ev {
        Event::Key(k, a) => {
            let rows = o.row_views();
            let (lo, hi) = o.key_range();
            assert(k == Key::Char(' ') || k == Key::Tab);
            let r = choose|r: int| lo <= r <= hi && rows[r].selectable && rows[r].path == p;
            if o.visual && o.visual_anchor is Some {
                assert(o.visual_anchor->0 < rows.len());
            }
            assert(0 <= r < rows.len());
        },
        Event::Frame(d, w, h) => {
            assert(n.selected == o.selected);
        },
        Event::Search(q) => {
            assert(n.selected == o.selected);
        },
        Event::Preview(out) => {
            assert(n.selected == o.selected);
        },
    }
}

/// Over a whole session, every path that became selected was the path of a
/// selectable row of the range that a space or Tab press acted on.
pub proof fn lemma_session_selected(states: Seq<Browser>, events: Seq<Event>, j: int, p: Seq<SegView>)
    requires
        is_session(states, events),
        well_run(states, events),
        0 <= j < states.len(),
        states[j].selected@.contains(p),
        !states[0].selected@.contains(p),
    ensures
        exists|i: int| 0 <= i < j && selects_at(states[i], #[trigger] events[i], p),
    decreases j,
{
    let m = j - 1;
    assert(browser_step(states[m], states[m + 1], events[m]));
    assert(states[m].wf());
    assert(events[m] matches Event::Key(k, _) ==> !states[m].key_faults(k));
    if states[m].selected@.contains(p) {
        lemma_session_selected(states, events, m, p);
        let i = choose|i: int| 0 <= i < m && selects_at(states[i], #[trigger] events[i], p);
        assert(selects_at(states[i], events[i], p));
    } else {
        lemma_step_selected(states[m], states[m + 1], events[m], p);
        assert(selects_at(states[m], events[m], p));
    }
}

/// In a session that starts with nothing selected, every path that Enter
/// extracts is the cursor's path at that moment or was selected from a
/// selectable row by an earlier space or Tab press.
pub proof fn lemma_session_extracted(
    states: Seq<Browser>,
    events: Seq<Event>,
    j: int,
    ps: Seq<Seq<SegView>>,
    p: Seq<SegView>,
)
    requires
        is_session(states, events),
        well_run(states, events),
        states[0].selected@ == Set::<Seq<SegView>>::empty(),
        0 <= j < events.len(),
        events[j] matches Event::Key(k, a) && a == ActionView::Extract(ps),
        ps.contains(p),
    ensures
        p == states[j].cursor_path() || exists|i: int| 0 <= i < j && selects_at(states[i], #[trigger] events[i], p),
{
    assert(browser_step(states[j], states[j + 1], events[j]));
    let o = states[j];
    assert(ps == o.targets());
    if o.selected.paths().len() != 0 {
        assert(o.selected@.contains(p));
        lemma_session_selected(states, events, j, p);
    }
}

} // verus!
