//! Properties of the library that relate several calls or hold of every input.
use vstd::prelude::*;
use crate::command::{shell_quoted, shell_escape, shell_escape_char, jq_command};
use crate::path::{
    SegView, jq_path, seg_selector, key_selector, identifier, escape_key, key_escape_char,
    is_ascii_alpha, is_ascii_alnum,
};
use crate::json::{JsonValue, is_container};
use crate::rows::{
    node_rows, member_rows, element_rows, document_rows, container_paths, member_container_paths,
    element_container_paths,
};
use crate::text::{decimal, digit_char};
use crate::tui::{
    Browser, Key, ActionView, Event, key_step, browser_step, is_session, scrolled_top,
    selectable_paths, status_text,
};

verus! {

/// Pressing `.` twice on the same row leaves the set of open containers as it was.
pub proof fn lemma_toggle_expand_twice(
    o: Browser,
    m: Browser,
    n: Browser,
    a1: ActionView,
    a2: ActionView,
)
    requires
        o.wf(),
        key_step(o, m, Key::Char('.'), a1),
        key_step(m, n, Key::Char('.'), a2),
    ensures
        n.expanded@ == o.expanded@,
        n.selected == o.selected,
        n.cursor == o.cursor,
        n.rows == o.rows,
{
    let p = o.row_views()[o.cursor as int].path;
    if o.row_views()[o.cursor as int].is_container {
        assert(m.rows == o.rows && m.cursor == o.cursor);
        if o.expanded@.contains(p) {
            assert(o.expanded@.remove(p).insert(p) =~= o.expanded@);
        } else {
            assert(o.expanded@.insert(p).remove(p) =~= o.expanded@);
        }
    }
}

/// Pressing space twice on a selectable row outside visual mode leaves the
/// selection as it was.
pub proof fn lemma_toggle_select_twice(
    o: Browser,
    m: Browser,
    n: Browser,
    a1: ActionView,
    a2: ActionView,
)
    requires
        o.wf(),
        !o.visual,
        o.row_views()[o.cursor as int].selectable,
        key_step(o, m, Key::Char(' '), a1),
        key_step(m, n, Key::Char(' '), a2),
    ensures
        n.selected@ == o.selected@,
        n.cursor == o.cursor,
{
    let rows = o.row_views();
    let c = o.cursor as int;
    let p = rows[c].path;
    let one = selectable_paths(rows, c, c);
    assert(one =~= set![p]) by {
        assert forall|q: Seq<SegView>| one.contains(q) implies q == p by {
            let i = choose|i: int| c <= i <= c && rows[i].selectable && rows[i].path == q;
        }
        assert(c <= c <= c && rows[c].selectable && rows[c].path == p);
    }
    assert(m.rows == o.rows && m.cursor == o.cursor && !m.visual);
    if o.selected@.contains(p) {
        assert(o.selected@.difference(one).union(one) =~= o.selected@);
    } else {
        assert(o.selected@.union(one).difference(one) =~= o.selected@);
    }
}

/// Pressing `v` twice leaves visual mode as it was.
pub proof fn lemma_toggle_visual_twice(o: Browser, m: Browser, n: Browser, a1: ActionView, a2: ActionView)
    requires
        o.wf(),
        !o.visual,
        o.visual_anchor is None,
        key_step(o, m, Key::Char('v'), a1),
        key_step(m, n, Key::Char('v'), a2),
    ensures
        n == o,
{
}

/// After scrolling, the cursor's row is on screen.
pub proof fn lemma_scroll_keeps_cursor_visible(top: int, cursor: int, body_height: int)
    requires
        body_height >= 1,
        cursor >= 0,
    ensures
        scrolled_top(top, cursor, body_height) <= cursor < scrolled_top(top, cursor, body_height)
            + body_height,
{
}

/// Whether a path has no array index in it.
pub open spec fn no_indices(p: Seq<SegView>) -> bool {
    forall|i: int| 0 <= i < p.len() ==> !(#[trigger] p[i] is Index)
}

/// A path without array indices gives the same filter whether indices are
/// written `[i]` or `[]`.
pub proof fn lemma_jq_path_without_indices(p: Seq<SegView>)
    requires
        no_indices(p),
    ensures
        jq_path(p, true) == jq_path(p, false),
    decreases p.len(),
{
    if p.len() > 0 {
        assert(!(p[p.len() - 1] is Index));
        assert(no_indices(p.drop_last())) by {
            assert forall|i: int| 0 <= i < p.drop_last().len() implies !(
            #[trigger] p.drop_last()[i] is Index) by {
                assert(p.drop_last()[i] == p[i]);
            }
        }
        lemma_jq_path_without_indices(p.drop_last());
    }
}

/// The number a digit character stands for.
pub open spec fn digit_value(c: char) -> nat {
    (c as u32 - '0' as u32) as nat
}

/// The number a string of decimal digits stands for.
pub open spec fn decimal_value(s: Seq<char>) -> nat
    decreases s.len(),
{
    if s.len() == 0 {
        0
    } else {
        decimal_value(s.drop_last()) * 10 + digit_value(s.last())
    }
}

proof fn lemma_digit_value(d: nat)
    requires
        d < 10,
    ensures
        digit_value(digit_char(d)) == d,
{
    if d == 0 {
    } else if d == 1 {
    } else if d == 2 {
    } else if d == 3 {
    } else if d == 4 {
    } else if d == 5 {
    } else if d == 6 {
    } else if d == 7 {
    } else if d == 8 {
    } else {
    }
}

/// The decimal notation of a number reads back as that number.
pub proof fn lemma_decimal_round_trip(n: nat)
    ensures
        decimal_value(decimal(n)) == n,
    decreases n,
{
    if n < 10 {
        let s = seq![digit_char(n)];
        assert(decimal(n) == s);
        assert(s.drop_last() =~= Seq::<char>::empty());
        assert(decimal_value(Seq::<char>::empty()) == 0);
        lemma_digit_value(n);
        assert(decimal_value(s) == decimal_value(s.drop_last()) * 10 + digit_value(s.last()));
    } else {
        lemma_decimal_round_trip(n / 10);
        let s = decimal(n / 10).push(digit_char(n % 10));
        assert(s.drop_last() =~= decimal(n / 10));
        lemma_digit_value(n % 10);
        assert(decimal(n) == s);
        assert(decimal_value(s) == decimal_value(s.drop_last()) * 10 + digit_value(s.last()));
        assert((n / 10) * 10 + n % 10 == n);
    }
}

/// The quoting states of a POSIX shell while it reads a word.
pub enum QuoteState {
    Plain,
    InSingle,
    InDouble,
}

/// The characters the shell keeps of `w` after quote removal, reading from
/// state `st`, for words that hold no backslash, `$` or backquote inside
/// double quotes (the only words `shell_quoted` writes): a quote character
/// opens or closes its kind of quoting and is dropped, every other character
/// is kept.
pub open spec fn unquote_from(w: Seq<char>, st: QuoteState) -> Seq<char>
    decreases w.len(),
{
    if w.len() == 0 {
        Seq::empty()
    } else {
        let c = w[0];
        let rest = w.drop_first();
        match st {
            QuoteState::Plain => if c == '\'' {
                unquote_from(rest, QuoteState::InSingle)
            } else if c == '"' {
                unquote_from(rest, QuoteState::InDouble)
            } else {
                seq![c] + unquote_from(rest, QuoteState::Plain)
            },
            QuoteState::InSingle => if c == '\'' {
                unquote_from(rest, QuoteState::Plain)
            } else {
                seq![c] + unquote_from(rest, QuoteState::InSingle)
            },
            QuoteState::InDouble => if c == '"' {
                unquote_from(rest, QuoteState::Plain)
            } else {
                seq![c] + unquote_from(rest, QuoteState::InDouble)
            },
        }
    }
}

/// `shell_escape` of a longer string, taken from the front.
proof fn lemma_shell_escape_front(s: Seq<char>)
    requires
        s.len() > 0,
    ensures
        shell_escape(s) == shell_escape_char(s[0]) + shell_escape(s.drop_first()),
    decreases s.len(),
{
    if s.len() == 1 {
        assert(s.drop_last() =~= Seq::<char>::empty());
        assert(s.drop_first() =~= Seq::<char>::empty());
        assert(shell_escape_char(s[0]) + Seq::<char>::empty() =~= shell_escape_char(s[0]));
        assert(Seq::<char>::empty() + shell_escape_char(s[0]) =~= shell_escape_char(s[0]));
    } else {
        lemma_shell_escape_front(s.drop_last());
        assert(s.drop_last().drop_first() =~= s.drop_first().drop_last());
        assert(s.drop_first().last() == s.last());
        assert(s.drop_last()[0] == s[0]);
        assert(shell_escape(s) =~= shell_escape_char(s[0]) + shell_escape(s.drop_first()));
    }
}

/// Reading, inside single quotes, the escape of `s` and then `tail` gives
/// `s` followed by what `tail` gives.
proof fn lemma_unquote_escaped(s: Seq<char>, tail: Seq<char>)
    ensures
        unquote_from(shell_escape(s) + tail, QuoteState::InSingle) == s + unquote_from(
            tail,
            QuoteState::InSingle,
        ),
    decreases s.len(),
{
    if s.len() == 0 {
        assert(shell_escape(s) + tail =~= tail);
        assert(s + unquote_from(tail, QuoteState::InSingle) =~= unquote_from(tail, QuoteState::InSingle));
    } else {
        lemma_shell_escape_front(s);
        let c = s[0];
        let rest = s.drop_first();
        lemma_unquote_escaped(rest, tail);
        let w = shell_escape(s) + tail;
        let r = shell_escape(rest) + tail;
        if c == '\'' {
            // '"'"' then the rest
            let w1 = seq!['"', '\'', '"', '\''] + r;
            let w2 = seq!['\'', '"', '\''] + r;
            let w3 = seq!['"', '\''] + r;
            let w4 = seq!['\''] + r;
            assert(w =~= seq!['\''] + w1);
            assert(w.drop_first() =~= w1);
            assert(w1.drop_first() =~= w2);
            assert(w2.drop_first() =~= w3);
            assert(w3.drop_first() =~= w4);
            assert(w4.drop_first() =~= r);
            assert(unquote_from(w4, QuoteState::Plain) == unquote_from(r, QuoteState::InSingle));
            assert(unquote_from(w3, QuoteState::InDouble) == unquote_from(w4, QuoteState::Plain));
            assert(unquote_from(w2, QuoteState::InDouble) == seq!['\''] + unquote_from(
                w3,
                QuoteState::InDouble,
            ));
            assert(unquote_from(w1, QuoteState::Plain) == unquote_from(w2, QuoteState::InDouble));
            assert(unquote_from(w, QuoteState::InSingle) == unquote_from(w1, QuoteState::Plain));
            assert(s =~= seq!['\''] + rest);
            assert(unquote_from(w, QuoteState::InSingle) =~= s + unquote_from(tail, QuoteState::InSingle));
        } else {
            assert(w =~= seq![c] + r);
            assert(w.drop_first() =~= r);
            assert(unquote_from(w, QuoteState::InSingle) =~= s + unquote_from(tail, QuoteState::InSingle));
        }
    }
}

/// The shell reads a word written by `shell_single_quote` back as the
/// original string, whatever quotes it holds.
pub proof fn lemma_shell_quote_round_trip(s: Seq<char>)
    ensures
        unquote_from(shell_quoted(s), QuoteState::Plain) == s,
{
    let q = shell_quoted(s);
    assert(q.drop_first() =~= shell_escape(s) + seq!['\'']);
    lemma_unquote_escaped(s, seq!['\'']);
    assert(seq!['\''].drop_first() =~= Seq::<char>::empty());
    assert(seq!['\''][0] == '\'');
    assert(unquote_from(seq!['\''], QuoteState::InSingle) == unquote_from(
        Seq::<char>::empty(),
        QuoteState::Plain,
    ));
    assert(unquote_from(seq!['\''], QuoteState::InSingle) == Seq::<char>::empty());
    assert(q[0] == '\'');
    assert(s + Seq::<char>::empty() =~= s);
}

/// Whether a POSIX shell, reading `w` from state `st`, meets no unquoted
/// character and ends outside quotes: every character of `w` is a quote
/// that opens or closes quoting, a character inside single quotes, or a
/// character inside double quotes other than `$`, a backquote or a
/// backslash (the ones the shell still acts on there). Such a text holds no
/// unquoted blank or operator, so the shell reads it as exactly one word.
pub open spec fn fully_quoted(w: Seq<char>, st: QuoteState) -> bool
    decreases w.len(),
{
    if w.len() == 0 {
        st is Plain
    } else {
        let c = w[0];
        let rest = w.drop_first();
        match st {
            QuoteState::Plain => if c == '\'' {
                fully_quoted(rest, QuoteState::InSingle)
            } else if c == '"' {
                fully_quoted(rest, QuoteState::InDouble)
            } else {
                false
            },
            QuoteState::InSingle => if c == '\'' {
                fully_quoted(rest, QuoteState::Plain)
            } else {
                fully_quoted(rest, QuoteState::InSingle)
            },
            QuoteState::InDouble => if c == '"' {
                fully_quoted(rest, QuoteState::Plain)
            } else if c == '$' || c == '`' || c == '\\' {
                false
            } else {
                fully_quoted(rest, QuoteState::InDouble)
            },
        }
    }
}

/// Reading, inside single quotes, the escape of `s` and then `tail` meets an
/// unquoted character exactly when reading `tail` there does.
proof fn lemma_escaped_fully_quoted(s: Seq<char>, tail: Seq<char>)
    ensures
        fully_quoted(shell_escape(s) + tail, QuoteState::InSingle) == fully_quoted(tail, QuoteState::InSingle),
    decreases s.len(),
{
    if s.len() == 0 {
        assert(shell_escape(s) + tail =~= tail);
    } else {
        lemma_shell_escape_front(s);
        let c = s[0];
        let rest = s.drop_first();
        lemma_escaped_fully_quoted(rest, tail);
        let w = shell_escape(s) + tail;
        let r = shell_escape(rest) + tail;
        if c == '\'' {
            let w1 = seq!['"', '\'', '"', '\''] + r;
            let w2 = seq!['\'', '"', '\''] + r;
            let w3 = seq!['"', '\''] + r;
            let w4 = seq!['\''] + r;
            assert(w =~= seq!['\''] + w1);
            assert(w.drop_first() =~= w1);
            assert(w1.drop_first() =~= w2);
            assert(w2.drop_first() =~= w3);
            assert(w3.drop_first() =~= w4);
            assert(w4.drop_first() =~= r);
            assert(fully_quoted(w4, QuoteState::Plain) == fully_quoted(r, QuoteState::InSingle));
            assert(fully_quoted(w3, QuoteState::InDouble) == fully_quoted(w4, QuoteState::Plain));
            assert(fully_quoted(w2, QuoteState::InDouble) == fully_quoted(w3, QuoteState::InDouble));
            assert(fully_quoted(w1, QuoteState::Plain) == fully_quoted(w2, QuoteState::InDouble));
            assert(fully_quoted(w, QuoteState::InSingle) == fully_quoted(w1, QuoteState::Plain));
        } else {
            assert(w =~= seq![c] + r);
            assert(w.drop_first() =~= r);
        }
    }
}

/// A POSIX shell reads the text `shell_single_quote` writes as exactly one
/// word (no character of it stands unquoted, and the quotes are closed at
/// the end), and that word is the original string.
pub proof fn lemma_shell_quote_one_word(s: Seq<char>)
    ensures
        fully_quoted(shell_quoted(s), QuoteState::Plain),
        unquote_from(shell_quoted(s), QuoteState::Plain) == s,
{
    lemma_shell_quote_round_trip(s);
    let q = shell_quoted(s);
    assert(q.drop_first() =~= shell_escape(s) + seq!['\'']);
    lemma_escaped_fully_quoted(s, seq!['\'']);
    assert(seq!['\''].drop_first() =~= Seq::<char>::empty());
    assert(fully_quoted(seq!['\''], QuoteState::InSingle) == fully_quoted(Seq::<char>::empty(), QuoteState::Plain));
    assert(q[0] == '\'');
}

// ---------------------------------------------------------------------------
// Reading a jq path filter back
// ---------------------------------------------------------------------------

/// Whether `c` may continue a name after `.` in jq.
pub open spec fn is_name_char(c: char) -> bool {
    is_ascii_alnum(c) || c == '_'
}

/// Whether `c` may start a name after `.` in jq.
pub open spec fn is_name_start(c: char) -> bool {
    is_ascii_alpha(c) || c == '_'
}

/// Whether `c` is an ASCII digit.
pub open spec fn is_digit(c: char) -> bool {
    '0' <= c && c <= '9'
}

/// Length of the longest prefix of `r` made of name characters.
pub open spec fn name_run(r: Seq<char>) -> nat
    decreases r.len(),
{
    if r.len() > 0 && is_name_char(r[0]) {
        1 + name_run(r.drop_first())
    } else {
        0
    }
}

/// A name run is no longer than the text and starts with its first character.
pub proof fn lemma_name_run_bound(r: Seq<char>)
    ensures
        name_run(r) <= r.len(),
        r.len() > 0 && is_name_char(r[0]) ==> name_run(r) >= 1,
    decreases r.len(),
{
    if r.len() > 0 && is_name_char(r[0]) {
        lemma_name_run_bound(r.drop_first());
    }
}

/// Length of the longest prefix of `r` made of digits.
pub open spec fn digit_run(r: Seq<char>) -> nat
    decreases r.len(),
{
    if r.len() > 0 && is_digit(r[0]) {
        1 + digit_run(r.drop_first())
    } else {
        0
    }
}

/// The contents of a quoted jq key up to its closing `"`: the key with each
/// backslash escape undone, and how many characters it takes before the quote.
pub open spec fn quoted_body(r: Seq<char>) -> Option<(Seq<char>, nat)>
    decreases r.len(),
{
    if r.len() == 0 {
        None
    } else if r[0] == '"' {
        Some((Seq::empty(), 0))
    } else if r[0] == '\\' {
        if r.len() < 2 {
            None
        } else {
            match quoted_body(r.skip(2)) {
                Some((k, n)) => Some((seq![r[1]] + k, n + 2)),
                None => None,
            }
        }
    } else {
        match quoted_body(r.drop_first()) {
            Some((k, n)) => Some((seq![r[0]] + k, n + 1)),
            None => None,
        }
    }
}

/// `rest` with `seg` in front, when there is a `rest`.
pub open spec fn cons_seg(seg: SegView, rest: Option<Seq<SegView>>) -> Option<Seq<SegView>> {
    match rest {
        Some(t) => Some(seq![seg] + t),
        None => None,
    }
}

/// The path that a run of jq selectors selects: `.name` (or a bare name
/// right after the root dot), `["key"]` with backslash escapes, `[n]`, and
/// `[]` (every element), read as index 0.
/// `None` when `r` is not such a run.
pub open spec fn parse_selectors(r: Seq<char>, first: bool) -> Option<Seq<SegView>>
    decreases r.len(),
{
    if r.len() == 0 {
        Some(Seq::empty())
    } else if r[0] == '[' && r.len() >= 2 && r[1] == '"' {
        match quoted_body(r.skip(2)) {
            Some((k, n)) => {
                let m = n as int;
                let after = r.skip(2 + m + 1);
                if 2 + m + 1 <= r.len() && after.len() > 0 && after[0] == ']' {
                    cons_seg(SegView::Key(k), parse_selectors(after.drop_first(), false))
                } else {
                    None
                }
            },
            None => None,
        }
    } else if r[0] == '[' && r.len() >= 2 && r[1] == ']' {
        cons_seg(SegView::Index(0), parse_selectors(r.skip(2), false))
    } else if r[0] == '[' {
        let d = digit_run(r.drop_first()) as int;
        if d > 0 && r.len() > d + 1 && r[d + 1] == ']' && decimal_value(r.subrange(1, d + 1))
            <= usize::MAX {
            cons_seg(
                SegView::Index(decimal_value(r.subrange(1, d + 1)) as usize),
                parse_selectors(r.skip(d + 2), false),
            )
        } else {
            None
        }
    } else if r[0] == '.' && !first {
        let n = name_run(r.drop_first()) as int;
        proof {
            lemma_name_run_bound(r.drop_first());
        }
        if n > 0 && is_name_start(r[1]) {
            cons_seg(SegView::Key(r.subrange(1, n + 1)), parse_selectors(r.skip(n + 1), false))
        } else {
            None
        }
    } else if first && is_name_start(r[0]) {
        let n = name_run(r) as int;
        proof {
            lemma_name_run_bound(r);
        }
        cons_seg(SegView::Key(r.take(n)), parse_selectors(r.skip(n), false))
    } else {
        None
    }
}

/// The path that a jq path filter such as `.a[0]["b c"]` selects.
pub open spec fn parse_jq_path(f: Seq<char>) -> Option<Seq<SegView>> {
    if f.len() > 0 && f[0] == '.' {
        parse_selectors(f.drop_first(), true)
    } else {
        None
    }
}

/// The selectors of the steps of `p` from step `i` on.
pub open spec fn selectors_from(p: Seq<SegView>, i: int, all_arrays: bool) -> Seq<char>
    decreases p.len() - i,
{
    if i < 0 || i >= p.len() {
        Seq::empty()
    } else {
        seg_selector(p[i], i == 0, all_arrays) + selectors_from(p, i + 1, all_arrays)
    }
}

/// A path step with any index replaced by index 0.
pub open spec fn erase_seg(s: SegView) -> SegView {
    match s {
        SegView::Index(_) => SegView::Index(0),
        SegView::Key(k) => SegView::Key(k),
    }
}

/// `p` with every index replaced by index 0.
pub open spec fn erase_indices(p: Seq<SegView>) -> Seq<SegView> {
    p.map_values(|s: SegView| erase_seg(s))
}

/// Whether two paths agree step by step up to the values of their indices.
pub open spec fn same_shape(p: Seq<SegView>, q: Seq<SegView>) -> bool {
    &&& p.len() == q.len()
    &&& forall|i: int|
        0 <= i < p.len() ==> (p[i] is Index && q[i] is Index) || #[trigger] p[i] == #[trigger] q[i]
}

proof fn lemma_selectors_drop_last(p: Seq<SegView>, i: int, ap: bool)
    requires
        0 <= i < p.len(),
    ensures
        selectors_from(p, i, ap) == selectors_from(p.drop_last(), i, ap) + seg_selector(
            p.last(),
            p.len() == 1,
            ap,
        ),
    decreases p.len() - i,
{
    if i == p.len() - 1 {
        assert(selectors_from(p, i + 1, ap) == Seq::<char>::empty());
        assert(selectors_from(p.drop_last(), i, ap) == Seq::<char>::empty());
        assert(seg_selector(p[i], i == 0, ap) + Seq::<char>::empty() =~= Seq::<char>::empty()
            + seg_selector(p.last(), p.len() == 1, ap));
    } else {
        lemma_selectors_drop_last(p, i + 1, ap);
        assert(p.drop_last()[i] == p[i]);
        assert(selectors_from(p, i, ap) =~= selectors_from(p.drop_last(), i, ap) + seg_selector(
            p.last(),
            p.len() == 1,
            ap,
        ));
    }
}

/// A jq path is the root dot followed by the selectors of its steps.
proof fn lemma_jq_path_front(p: Seq<SegView>, ap: bool)
    ensures
        jq_path(p, ap) == seq!['.'] + selectors_from(p, 0, ap),
    decreases p.len(),
{
    if p.len() == 0 {
        assert(seq!['.'] + Seq::<char>::empty() =~= seq!['.']);
    } else {
        lemma_jq_path_front(p.drop_last(), ap);
        lemma_selectors_drop_last(p, 0, ap);
        if p.len() == 1 {
            assert(selectors_from(p.drop_last(), 0, ap) == Seq::<char>::empty());
        }
        assert(jq_path(p, ap) =~= seq!['.'] + selectors_from(p, 0, ap));
    }
}

/// Every character of a decimal notation is a digit.
proof fn lemma_decimal_digits(n: nat)
    ensures
        decimal(n).len() >= 1,
        forall|i: int| 0 <= i < decimal(n).len() ==> is_digit(#[trigger] decimal(n)[i]),
    decreases n,
{
    if n >= 10 {
        lemma_decimal_digits(n / 10);
        let d = decimal(n / 10);
        assert forall|i: int| 0 <= i < decimal(n).len() implies is_digit(#[trigger] decimal(n)[i]) by {
            if i < d.len() {
                assert(decimal(n)[i] == d[i]);
            } else {
                lemma_digit_char_is_digit(n % 10);
            }
        }
    } else {
        lemma_digit_char_is_digit(n);
    }
}

proof fn lemma_digit_char_is_digit(d: nat)
    requires
        d < 10,
    ensures
        is_digit(digit_char(d)),
{
}

/// The digit run of digits followed by a non-digit is exactly those digits.
proof fn lemma_digit_run(ds: Seq<char>, t: Seq<char>)
    requires
        forall|i: int| 0 <= i < ds.len() ==> is_digit(#[trigger] ds[i]),
        t.len() > 0 && !is_digit(t[0]),
    ensures
        digit_run(ds + t) == ds.len(),
    decreases ds.len(),
{
    if ds.len() == 0 {
        assert(ds + t =~= t);
    } else {
        assert((ds + t).drop_first() =~= ds.drop_first() + t);
        assert(is_digit(ds[0]));
        lemma_digit_run(ds.drop_first(), t);
    }
}

/// The name run of name characters followed by something else is exactly those characters.
proof fn lemma_name_run(k: Seq<char>, t: Seq<char>)
    requires
        forall|i: int| 0 <= i < k.len() ==> is_name_char(#[trigger] k[i]),
        t.len() == 0 || !is_name_char(t[0]),
    ensures
        name_run(k + t) == k.len(),
    decreases k.len(),
{
    if k.len() == 0 {
        assert(k + t =~= t);
    } else {
        assert((k + t).drop_first() =~= k.drop_first() + t);
        assert(is_name_char(k[0]));
        lemma_name_run(k.drop_first(), t);
    }
}

/// `escape_key`, taken from the front.
proof fn lemma_escape_key_front(k: Seq<char>)
    requires
        k.len() > 0,
    ensures
        escape_key(k) == key_escape_char(k[0]) + escape_key(k.drop_first()),
    decreases k.len(),
{
    if k.len() == 1 {
        assert(k.drop_last() =~= Seq::<char>::empty());
        assert(k.drop_first() =~= Seq::<char>::empty());
        assert(key_escape_char(k[0]) + Seq::<char>::empty() =~= key_escape_char(k[0]));
        assert(Seq::<char>::empty() + key_escape_char(k[0]) =~= key_escape_char(k[0]));
    } else {
        lemma_escape_key_front(k.drop_last());
        assert(k.drop_last().drop_first() =~= k.drop_first().drop_last());
        assert(k.drop_first().last() == k.last());
        assert(k.drop_last()[0] == k[0]);
        assert(escape_key(k) =~= key_escape_char(k[0]) + escape_key(k.drop_first()));
    }
}

/// A quoted key's body, closed by `"`, reads back as the key.
proof fn lemma_quoted_body(k: Seq<char>, t: Seq<char>)
    ensures
        quoted_body(escape_key(k) + seq!['"'] + t) == Some((k, escape_key(k).len())),
    decreases k.len(),
{
    let r = escape_key(k) + seq!['"'] + t;
    if k.len() == 0 {
        assert(escape_key(k) == Seq::<char>::empty());
        assert(r[0] == '"');
    } else {
        lemma_escape_key_front(k);
        let c = k[0];
        let rest = k.drop_first();
        lemma_quoted_body(rest, t);
        let r2 = escape_key(rest) + seq!['"'] + t;
        if c == '\\' {
            assert(r =~= seq!['\\', '\\'] + r2);
            assert(r.skip(2) =~= r2);
        } else if c == '"' {
            assert(r =~= seq!['\\', '"'] + r2);
            assert(r.skip(2) =~= r2);
        } else {
            assert(r =~= seq![c] + r2);
            assert(r.drop_first() =~= r2);
        }
        assert(seq![c] + rest =~= k);
    }
}

/// The selector of a later step starts with `.` or `[`.
proof fn lemma_later_selector_start(p: Seq<SegView>, i: int, ap: bool)
    requires
        1 <= i < p.len(),
    ensures
        selectors_from(p, i, ap).len() > 0,
        selectors_from(p, i, ap)[0] == '.' || selectors_from(p, i, ap)[0] == '[',
{
    let sel = seg_selector(p[i], false, ap);
    match p[i] {
        SegView::Index(n) => {
            assert(sel[0] == '[');
        },
        SegView::Key(k) => {
            assert(sel[0] == '.' || sel[0] == '[');
        },
    }
    assert(selectors_from(p, i, ap)[0] == sel[0]);
}

proof fn lemma_parse_index(n: usize, first: bool, ap: bool, rest: Seq<char>)
    requires
        rest.len() == 0 || rest[0] == '.' || rest[0] == '[',
    ensures
        parse_selectors(seg_selector(SegView::Index(n), first, ap) + rest, first) == cons_seg(
            if ap {
                SegView::Index(0)
            } else {
                SegView::Index(n)
            },
            parse_selectors(rest, false),
        ),
{
    let r = seg_selector(SegView::Index(n), first, ap) + rest;
    if ap {
        assert(r =~= seq!['[', ']'] + rest);
        assert(r.skip(2) =~= rest);
    } else {
        let d = decimal(n as nat);
        lemma_decimal_digits(n as nat);
        lemma_decimal_round_trip(n as nat);
        assert(r =~= seq!['['] + d + seq![']'] + rest);
        assert(r.drop_first() =~= d + (seq![']'] + rest));
        lemma_digit_run(d, seq![']'] + rest);
        assert(r[1] == d[0]);
        assert(r[d.len() + 1int] == ']');
        assert(r.subrange(1, d.len() + 1int) =~= d);
        assert(r.skip(d.len() + 2int) =~= rest);
    }
}

proof fn lemma_parse_name(k: Seq<char>, first: bool, rest: Seq<char>)
    requires
        identifier(k),
        rest.len() == 0 || rest[0] == '.' || rest[0] == '[',
    ensures
        parse_selectors(key_selector(k, first) + rest, first) == cons_seg(
            SegView::Key(k),
            parse_selectors(rest, false),
        ),
{
    let r = key_selector(k, first) + rest;
    assert forall|j: int| 0 <= j < k.len() implies is_name_char(#[trigger] k[j]) by {
        if j == 0 {
        }
    }
    lemma_name_run(k, rest);
    if first {
        assert(r =~= k + rest);
        assert(r.take(k.len() as int) =~= k);
        assert(r.skip(k.len() as int) =~= rest);
    } else {
        assert(r =~= seq!['.'] + k + rest);
        assert(r.drop_first() =~= k + rest);
        assert(r[1] == k[0]);
        assert(r.subrange(1, k.len() + 1int) =~= k);
        assert(r.skip(k.len() + 1int) =~= rest);
    }
}

proof fn lemma_parse_quoted(k: Seq<char>, first: bool, rest: Seq<char>)
    requires
        !identifier(k),
    ensures
        parse_selectors(key_selector(k, first) + rest, first) == cons_seg(
            SegView::Key(k),
            parse_selectors(rest, false),
        ),
{
    let r = key_selector(k, first) + rest;
    let e = escape_key(k);
    lemma_quoted_body(k, seq![']'] + rest);
    assert(r =~= seq!['[', '"'] + e + seq!['"', ']'] + rest);
    assert(r.skip(2) =~= e + seq!['"'] + (seq![']'] + rest));
    assert(r.skip(2 + e.len() + 1int) =~= seq![']'] + rest);
    assert((seq![']'] + rest).drop_first() =~= rest);
}

/// Reading one step's selector, followed by the next selectors, gives the step
/// (with its index read as 0 when it was written `[]`) before what they give.
proof fn lemma_parse_one(seg: SegView, first: bool, ap: bool, rest: Seq<char>)
    requires
        rest.len() == 0 || rest[0] == '.' || rest[0] == '[',
    ensures
        parse_selectors(seg_selector(seg, first, ap) + rest, first) == cons_seg(
            if ap {
                erase_seg(seg)
            } else {
                seg
            },
            parse_selectors(rest, false),
        ),
{
    match seg {
        SegView::Index(n) => {
            lemma_parse_index(n, first, ap, rest);
        },
        SegView::Key(k) => {
            if identifier(k) {
                lemma_parse_name(k, first, rest);
            } else {
                lemma_parse_quoted(k, first, rest);
            }
        },
    }
}

/// Reading the selectors of `p` from step `i` on gives back the steps from
/// `i` on (with indices read as 0 when they were written `[]`).
proof fn lemma_parse_selectors(p: Seq<SegView>, i: int, ap: bool)
    requires
        0 <= i <= p.len(),
    ensures
        parse_selectors(selectors_from(p, i, ap), i == 0) == Some(
            if ap {
                erase_indices(p).skip(i)
            } else {
                p.skip(i)
            },
        ),
    decreases p.len() - i,
{
    let e = erase_indices(p);
    if i == p.len() {
        assert(p.skip(i) =~= Seq::<SegView>::empty());
        assert(e.skip(i) =~= Seq::<SegView>::empty());
    } else {
        lemma_parse_selectors(p, i + 1, ap);
        let rest = selectors_from(p, i + 1, ap);
        assert(p.skip(i) =~= seq![p[i]] + p.skip(i + 1));
        assert(e.skip(i) =~= seq![e[i]] + e.skip(i + 1));
        assert(e[i] == erase_seg(p[i]));
        if i + 1 < p.len() {
            lemma_later_selector_start(p, i + 1, ap);
        } else {
            assert(rest.len() == 0);
        }
        lemma_parse_one(p[i], i == 0, ap, rest);
    }
}

/// Reading the filter of a path (with indices written out) back as jq
/// selectors gives the path: the filter selects exactly the node picked.
pub proof fn lemma_jq_path_reads_back(p: Seq<SegView>)
    ensures
        parse_jq_path(jq_path(p, false)) == Some(p),
{
    lemma_jq_path_front(p, false);
    let f = jq_path(p, false);
    assert(f.drop_first() =~= selectors_from(p, 0, false));
    lemma_parse_selectors(p, 0, false);
    assert(p.skip(0) =~= p);
}

/// Reading the filter of a path with every index written `[]` back gives
/// the path with every index read as 0.
pub proof fn lemma_jq_path_all_arrays_reads_back(p: Seq<SegView>)
    ensures
        parse_jq_path(jq_path(p, true)) == Some(erase_indices(p)),
{
    lemma_jq_path_front(p, true);
    let f = jq_path(p, true);
    assert(f.drop_first() =~= selectors_from(p, 0, true));
    lemma_parse_selectors(p, 0, true);
    assert(erase_indices(p).skip(0) =~= erase_indices(p));
}

/// Two paths get the same filter with indices written `[]` exactly when they
/// agree step by step up to the values of their indices.
pub proof fn lemma_jq_path_all_arrays_same(p: Seq<SegView>, q: Seq<SegView>)
    ensures
        (jq_path(p, true) == jq_path(q, true)) <==> same_shape(p, q),
{
    lemma_jq_path_all_arrays_reads_back(p);
    lemma_jq_path_all_arrays_reads_back(q);
    let ep = erase_indices(p);
    let eq = erase_indices(q);
    if same_shape(p, q) {
        assert(ep =~= eq) by {
            assert forall|i: int| 0 <= i < ep.len() implies ep[i] == eq[i] by {
                assert(ep[i] == erase_seg(p[i]));
                assert(eq[i] == erase_seg(q[i]));
            }
        }
        lemma_erase_same_path(p, q);
    }
    if jq_path(p, true) == jq_path(q, true) {
        assert(ep == eq);
        assert(ep.len() == p.len() && eq.len() == q.len());
        assert forall|i: int| 0 <= i < p.len() implies (p[i] is Index && q[i] is Index) || #[trigger] p[i]
            == #[trigger] q[i] by {
            assert(ep[i] == erase_seg(p[i]));
            assert(eq[i] == erase_seg(q[i]));
        }
    }
}

/// Paths that agree up to index values get the same filter with indices written `[]`.
proof fn lemma_erase_same_path(p: Seq<SegView>, q: Seq<SegView>)
    requires
        same_shape(p, q),
    ensures
        jq_path(p, true) == jq_path(q, true),
    decreases p.len(),
{
    if p.len() > 0 {
        assert(same_shape(p.drop_last(), q.drop_last())) by {
            assert forall|i: int| 0 <= i < p.drop_last().len() implies (p.drop_last()[i] is Index
                && q.drop_last()[i] is Index) || #[trigger] p.drop_last()[i]
                == #[trigger] q.drop_last()[i] by {
                assert(p.drop_last()[i] == p[i]);
                assert(q.drop_last()[i] == q[i]);
            }
        }
        lemma_erase_same_path(p.drop_last(), q.drop_last());
        let k = p.len() - 1;
        assert((p[k] is Index && q[k] is Index) || p[k] == q[k]);
    }
}

/// Different paths get different filters.
pub proof fn lemma_jq_path_injective(p: Seq<SegView>, q: Seq<SegView>)
    requires
        jq_path(p, false) == jq_path(q, false),
    ensures
        p == q,
{
    lemma_jq_path_reads_back(p);
    lemma_jq_path_reads_back(q);
}

// ---------------------------------------------------------------------------
// Rows and the set of open containers
// ---------------------------------------------------------------------------

/// Number of scalar values in `v` (a scalar counts itself).
pub open spec fn scalar_count(v: JsonValue) -> nat
    decreases v,
{
    match v {
        JsonValue::Object(m) => member_scalar_count(m@),
        JsonValue::Array(a) => element_scalar_count(a@),
        _ => 1,
    }
}

/// Number of scalar values in the given members.
pub open spec fn member_scalar_count(items: Seq<(String, JsonValue)>) -> nat
    decreases items,
{
    if items.len() == 0 {
        0
    } else {
        member_scalar_count(items.drop_last()) + scalar_count(items.last().1)
    }
}

/// Number of scalar values in the given elements.
pub open spec fn element_scalar_count(items: Seq<JsonValue>) -> nat
    decreases items,
{
    if items.len() == 0 {
        0
    } else {
        element_scalar_count(items.drop_last()) + scalar_count(items.last())
    }
}

/// Number of objects and arrays in `v` (a container counts itself).
pub open spec fn container_count(v: JsonValue) -> nat
    decreases v,
{
    match v {
        JsonValue::Object(m) => 1 + member_container_count(m@),
        JsonValue::Array(a) => 1 + element_container_count(a@),
        _ => 0,
    }
}

/// Number of objects and arrays in the given members.
pub open spec fn member_container_count(items: Seq<(String, JsonValue)>) -> nat
    decreases items,
{
    if items.len() == 0 {
        0
    } else {
        member_container_count(items.drop_last()) + container_count(items.last().1)
    }
}

/// Number of objects and arrays in the given elements.
pub open spec fn element_container_count(items: Seq<JsonValue>) -> nat
    decreases items,
{
    if items.len() == 0 {
        0
    } else {
        element_container_count(items.drop_last()) + container_count(items.last())
    }
}

proof fn lemma_full_node_rows(
    v: JsonValue,
    q: Seq<SegView>,
    indent: Seq<char>,
    is_last: bool,
    key: Option<Seq<char>>,
    e: Set<Seq<SegView>>,
)
    requires
        q.len() == 0 || e.contains(q) || !is_container(v),
        container_paths(v, q).subset_of(e),
    ensures
        node_rows(v, q, indent, is_last, key, e).len() == scalar_count(v) + 2 * container_count(v),
    decreases v,
{
    match v {
        JsonValue::Object(m) => {
            lemma_full_member_rows(m@, m@.len(), q, indent + seq![' ', ' '], e);
        },
        JsonValue::Array(a) => {
            lemma_full_element_rows(a@, a@.len(), q, indent + seq![' ', ' '], e);
        },
        _ => {},
    }
}

proof fn lemma_full_member_rows(
    items: Seq<(String, JsonValue)>,
    total: nat,
    q: Seq<SegView>,
    indent: Seq<char>,
    e: Set<Seq<SegView>>,
)
    requires
        member_container_paths(items, q).subset_of(e),
    ensures
        member_rows(items, total, q, indent, e).len() == member_scalar_count(items) + 2
            * member_container_count(items),
    decreases items,
{
    if items.len() > 0 {
        let (k, v) = items.last();
        let cp = q.push(SegView::Key(k@));
        lemma_full_member_rows(items.drop_last(), total, q, indent, e);
        if is_container(v) {
            assert(e.contains(cp));
        }
        lemma_full_node_rows(v, cp, indent, items.len() == total, Some(k@), e);
    }
}

proof fn lemma_full_element_rows(
    items: Seq<JsonValue>,
    total: nat,
    q: Seq<SegView>,
    indent: Seq<char>,
    e: Set<Seq<SegView>>,
)
    requires
        element_container_paths(items, q).subset_of(e),
    ensures
        element_rows(items, total, q, indent, e).len() == element_scalar_count(items) + 2
            * element_container_count(items),
    decreases items,
{
    if items.len() > 0 {
        let v = items.last();
        let cp = q.push(SegView::Index((items.len() - 1) as usize));
        lemma_full_element_rows(items.drop_last(), total, q, indent, e);
        if is_container(v) {
            assert(e.contains(cp));
        }
        lemma_full_node_rows(v, cp, indent, items.len() == total, None, e);
    }
}

/// With every object and array open (as `expand_all` leaves them), a document
/// has one row per scalar and two per object or array.
pub proof fn lemma_fully_open_row_count(v: JsonValue, e: Set<Seq<SegView>>)
    requires
        container_paths(v, Seq::empty()).subset_of(e),
    ensures
        document_rows(v, e).len() == scalar_count(v) + 2 * container_count(v),
{
    lemma_full_node_rows(v, Seq::empty(), Seq::empty(), true, None, e);
}

proof fn lemma_node_rows_monotone(
    v: JsonValue,
    q: Seq<SegView>,
    indent: Seq<char>,
    is_last: bool,
    key: Option<Seq<char>>,
    e1: Set<Seq<SegView>>,
    e2: Set<Seq<SegView>>,
)
    requires
        e1.subset_of(e2),
    ensures
        node_rows(v, q, indent, is_last, key, e1).len() <= node_rows(v, q, indent, is_last, key, e2).len(),
    decreases v,
{
    match v {
        JsonValue::Object(m) => {
            lemma_member_rows_monotone(m@, m@.len(), q, indent + seq![' ', ' '], e1, e2);
        },
        JsonValue::Array(a) => {
            lemma_element_rows_monotone(a@, a@.len(), q, indent + seq![' ', ' '], e1, e2);
        },
        _ => {},
    }
}

proof fn lemma_member_rows_monotone(
    items: Seq<(String, JsonValue)>,
    total: nat,
    q: Seq<SegView>,
    indent: Seq<char>,
    e1: Set<Seq<SegView>>,
    e2: Set<Seq<SegView>>,
)
    requires
        e1.subset_of(e2),
    ensures
        member_rows(items, total, q, indent, e1).len() <= member_rows(items, total, q, indent, e2).len(),
    decreases items,
{
    if items.len() > 0 {
        let (k, v) = items.last();
        lemma_member_rows_monotone(items.drop_last(), total, q, indent, e1, e2);
        lemma_node_rows_monotone(v, q.push(SegView::Key(k@)), indent, items.len() == total, Some(k@), e1, e2);
    }
}

proof fn lemma_element_rows_monotone(
    items: Seq<JsonValue>,
    total: nat,
    q: Seq<SegView>,
    indent: Seq<char>,
    e1: Set<Seq<SegView>>,
    e2: Set<Seq<SegView>>,
)
    requires
        e1.subset_of(e2),
    ensures
        element_rows(items, total, q, indent, e1).len() <= element_rows(items, total, q, indent, e2).len(),
    decreases items,
{
    if items.len() > 0 {
        lemma_element_rows_monotone(items.drop_last(), total, q, indent, e1, e2);
        lemma_node_rows_monotone(
            items.last(),
            q.push(SegView::Index((items.len() - 1) as usize)),
            indent,
            items.len() == total,
            None,
            e1,
            e2,
        );
    }
}

/// Opening more containers never gives fewer rows.
pub proof fn lemma_rows_monotone(v: JsonValue, e1: Set<Seq<SegView>>, e2: Set<Seq<SegView>>)
    requires
        e1.subset_of(e2),
    ensures
        document_rows(v, e1).len() <= document_rows(v, e2).len(),
{
    lemma_node_rows_monotone(v, Seq::empty(), Seq::empty(), true, None, e1, e2);
}

proof fn lemma_node_rows_ignore(
    v: JsonValue,
    q: Seq<SegView>,
    indent: Seq<char>,
    is_last: bool,
    key: Option<Seq<char>>,
    e: Set<Seq<SegView>>,
    x: Set<Seq<SegView>>,
)
    requires
        x.disjoint(container_paths(v, q)),
        is_container(v) && q.len() > 0 ==> !x.contains(q),
    ensures
        node_rows(v, q, indent, is_last, key, e.union(x)) == node_rows(v, q, indent, is_last, key, e),
    decreases v,
{
    match v {
        JsonValue::Object(m) => {
            lemma_member_rows_ignore(m@, m@.len(), q, indent + seq![' ', ' '], e, x);
        },
        JsonValue::Array(a) => {
            lemma_element_rows_ignore(a@, a@.len(), q, indent + seq![' ', ' '], e, x);
        },
        _ => {},
    }
}

proof fn lemma_member_rows_ignore(
    items: Seq<(String, JsonValue)>,
    total: nat,
    q: Seq<SegView>,
    indent: Seq<char>,
    e: Set<Seq<SegView>>,
    x: Set<Seq<SegView>>,
)
    requires
        x.disjoint(member_container_paths(items, q)),
    ensures
        member_rows(items, total, q, indent, e.union(x)) == member_rows(items, total, q, indent, e),
    decreases items,
{
    if items.len() > 0 {
        let (k, v) = items.last();
        let cp = q.push(SegView::Key(k@));
        lemma_member_rows_ignore(items.drop_last(), total, q, indent, e, x);
        if is_container(v) {
            assert(member_container_paths(items, q).contains(cp));
        }
        lemma_node_rows_ignore(v, cp, indent, items.len() == total, Some(k@), e, x);
    }
}

proof fn lemma_element_rows_ignore(
    items: Seq<JsonValue>,
    total: nat,
    q: Seq<SegView>,
    indent: Seq<char>,
    e: Set<Seq<SegView>>,
    x: Set<Seq<SegView>>,
)
    requires
        x.disjoint(element_container_paths(items, q)),
    ensures
        element_rows(items, total, q, indent, e.union(x)) == element_rows(items, total, q, indent, e),
    decreases items,
{
    if items.len() > 0 {
        let v = items.last();
        let cp = q.push(SegView::Index((items.len() - 1) as usize));
        lemma_element_rows_ignore(items.drop_last(), total, q, indent, e, x);
        if is_container(v) {
            assert(element_container_paths(items, q).contains(cp));
        }
        lemma_node_rows_ignore(v, cp, indent, items.len() == total, None, e, x);
    }
}

/// Adding to the open set paths that are no object's or array's path (those
/// of scalars, or of nothing in the document) changes no row.
pub proof fn lemma_rows_ignore_other_paths(v: JsonValue, e: Set<Seq<SegView>>, x: Set<Seq<SegView>>)
    requires
        x.disjoint(container_paths(v, Seq::empty())),
    ensures
        document_rows(v, e.union(x)) == document_rows(v, e),
{
    lemma_node_rows_ignore(v, Seq::empty(), Seq::empty(), true, None, e, x);
}

// ---------------------------------------------------------------------------
// The open set over a session
// ---------------------------------------------------------------------------

/// Keys that can open the container under the cursor.
pub open spec fn opening_key(k: Key) -> bool {
    k == Key::Char('l') || k == Key::Right || k == Key::Char('.')
}

/// Keys that can close the container under the cursor.
pub open spec fn closing_key(k: Key) -> bool {
    k == Key::Char('h') || k == Key::Left || k == Key::Char('.')
}

/// Whether `ev`, happening to `o`, is an opening key pressed on the
/// container row whose path is `p`.
pub open spec fn opens_at(o: Browser, ev: Event, p: Seq<SegView>) -> bool {
    &&& ev matches Event::Key(k, _) && opening_key(k)
    &&& o.row_views()[o.cursor as int].is_container
    &&& o.cursor_path() == p
}

/// Whether `ev`, happening to `o`, is a closing key pressed on the row whose
/// path is `p`.
pub open spec fn closes_at(o: Browser, ev: Event, p: Seq<SegView>) -> bool {
    &&& ev matches Event::Key(k, _) && closing_key(k)
    &&& o.cursor_path() == p
}

/// One event changes the open set only by opening the cursor's container
/// (on an opening key) or closing the cursor's row (on a closing key); frames,
/// searches, previews and all other keys leave it as it is.
pub proof fn lemma_step_open_set(o: Browser, n: Browser, ev: Event)
    requires
        browser_step(o, n, ev),
    ensures
        n.expanded@ == o.expanded@
            || (opens_at(o, ev, o.cursor_path()) && n.expanded@ == o.expanded@.insert(o.cursor_path()))
            || (closes_at(o, ev, o.cursor_path()) && n.expanded@ == o.expanded@.remove(o.cursor_path())),
        !(ev matches Event::Key(k, _) && (opening_key(k) || closing_key(k))) ==> n.expanded@
            == o.expanded@,
{
    match ev {
        Event::Key(k, a) => {},
        Event::Frame(d, w, h) => {
            assert(n.expanded == o.expanded);
        },
        Event::Search(q) => {
            assert(n.expanded == o.expanded);
        },
        Event::Preview(out) => {
            assert(n.expanded == o.expanded);
        },
    }
}

/// Over a whole session, every path that became open was opened by an
/// opening key on that container's row, and every path that stopped being
/// open was closed by a closing key on that row.
pub proof fn lemma_session_open_set(states: Seq<Browser>, events: Seq<Event>, p: Seq<SegView>)
    requires
        is_session(states, events),
    ensures
        states.last().expanded@.contains(p) && !states[0].expanded@.contains(p) ==> exists|i: int|
            0 <= i < events.len() && opens_at(states[i], #[trigger] events[i], p),
        !states.last().expanded@.contains(p) && states[0].expanded@.contains(p) ==> exists|i: int|
            0 <= i < events.len() && closes_at(states[i], #[trigger] events[i], p),
    decreases events.len(),
{
    if events.len() > 0 {
        let m = events.len() - 1;
        let s2 = states.drop_last();
        let e2 = events.drop_last();
        assert(is_session(s2, e2)) by {
            assert forall|i: int| 0 <= i < e2.len() implies browser_step(s2[i], s2[i + 1], #[trigger] e2[i]) by {
                assert(browser_step(states[i], states[i + 1], events[i]));
            }
        }
        lemma_session_open_set(s2, e2, p);
        assert(browser_step(states[m], states[m + 1], events[m]));
        lemma_step_open_set(states[m], states[m + 1], events[m]);
        assert(states.last() == states[m + 1]);
        assert(s2.last() == states[m]);
        assert(s2[0] == states[0]);
        if states.last().expanded@.contains(p) && !states[0].expanded@.contains(p) {
            if s2.last().expanded@.contains(p) {
                let i = choose|i: int| 0 <= i < e2.len() && opens_at(s2[i], #[trigger] e2[i], p);
                assert(opens_at(states[i], events[i], p));
            } else {
                assert(opens_at(states[m], events[m], p));
            }
        }
        if !states.last().expanded@.contains(p) && states[0].expanded@.contains(p) {
            if !s2.last().expanded@.contains(p) {
                let i = choose|i: int| 0 <= i < e2.len() && closes_at(s2[i], #[trigger] e2[i], p);
                assert(closes_at(states[i], events[i], p));
            } else {
                assert(closes_at(states[m], events[m], p));
            }
        }
    }
}

/// The status line names the row under the cursor exactly: it never runs
/// past the width, and when it is not cut it is `cursor: ` followed by a jq
/// path that reads back as the cursor's path, indices and all.
pub proof fn lemma_status_shows_cursor_path(path: Seq<SegView>, width: nat)
    ensures
        status_text(path, width).len() <= width,
        status_text(path, width).len() < width ==> {
            let s = status_text(path, width);
            &&& s.len() >= 8
            &&& s.take(8) == seq!['c', 'u', 'r', 's', 'o', 'r', ':', ' ']
            &&& parse_jq_path(s.skip(8)) == Some(path)
        },
{
    reveal_strlit("cursor: ");
    let full = "cursor: "@ + jq_path(path, false);
    if full.len() <= width {
        let s = status_text(path, width);
        assert(s == full);
        assert(s.take(8) =~= seq!['c', 'u', 'r', 's', 'o', 'r', ':', ' ']);
        assert(s.skip(8) =~= jq_path(path, false));
        lemma_jq_path_reads_back(path);
    }
}

/// A POSIX shell reads the extraction command as `jq`, then the filter as
/// one word, then (when a file was read) the file's path as one word.
pub proof fn lemma_command_words(filter: Seq<char>, in_path: Seq<char>)
    ensures
        exists|w1: Seq<char>, w2: Seq<char>|
            {
                &&& jq_command(filter, in_path) == seq!['j', 'q', ' '] + w1 + (if in_path.len() > 0 {
                    seq![' '] + w2
                } else {
                    Seq::empty()
                })
                &&& fully_quoted(w1, QuoteState::Plain)
                &&& unquote_from(w1, QuoteState::Plain) == filter
                &&& in_path.len() > 0 ==> fully_quoted(w2, QuoteState::Plain) && unquote_from(
                    w2,
                    QuoteState::Plain,
                ) == in_path
            },
{
    lemma_shell_quote_one_word(filter);
    lemma_shell_quote_one_word(in_path);
    let w1 = shell_quoted(filter);
    let w2 = shell_quoted(in_path);
    assert(jq_command(filter, in_path) == seq!['j', 'q', ' '] + w1 + (if in_path.len() > 0 {
        seq![' '] + w2
    } else {
        Seq::empty()
    }));
}

} // verus!
