//! Paths into a JSON document and their rendering as `jq` filters.
use vstd::prelude::*;
use vstd::string::StringExecFns;
use crate::text::{chars_of, decimal, decimal_string, push_char};

verus! {

broadcast use vstd::string::group_string_axioms;

/// One step of a path into a JSON document: an object key or an array index.
#[derive(Clone, Debug, PartialEq, Eq, Hash, PartialOrd, Ord)]
pub enum PathSeg {
    String(String),
    Index(usize),
}

/// The mathematical value of a path step.
pub enum SegView {
    Key(Seq<char>),
    Index(usize),
}

impl View for PathSeg {
    type V = SegView;

    open spec fn view(&self) -> SegView {
        match self {
            PathSeg::String(s) => SegView::Key(s@),
            PathSeg::Index(i) => SegView::Index(*i),
        }
    }
}

/// The value of a path.
pub open spec fn path_view(p: Seq<PathSeg>) -> Seq<SegView> {
    p.map_values(|s: PathSeg| s@)
}

// ---------------------------------------------------------------------------
// jq rendering
// ---------------------------------------------------------------------------

pub open spec fn is_ascii_alpha(c: char) -> bool {
    ('a' <= c && c <= 'z') || ('A' <= c && c <= 'Z')
}

pub open spec fn is_ascii_alnum(c: char) -> bool {
    is_ascii_alpha(c) || ('0' <= c && c <= '9')
}

/// Whether `s` can follow a `.` in a jq filter: a non-empty ASCII name made of
/// letters, digits and `_`, not starting with a digit.
pub open spec fn identifier(s: Seq<char>) -> bool {
    &&& s.len() > 0
    &&& is_ascii_alpha(s[0]) || s[0] == '_'
    &&& forall|i: int| 1 <= i < s.len() ==> is_ascii_alnum(#[trigger] s[i]) || s[i] == '_'
}

/// How a character of a key is written inside a quoted jq key:
/// backslash and double quote get a backslash before them.
pub open spec fn key_escape_char(c: char) -> Seq<char> {
    if c == '\\' {
        seq!['\\', '\\']
    } else if c == '"' {
        seq!['\\', '"']
    } else {
        seq![c]
    }
}

/// `k` with every character written as `key_escape_char` writes it.
pub open spec fn escape_key(k: Seq<char>) -> Seq<char>
    decreases k.len(),
{
    if k.len() == 0 {
        Seq::empty()
    } else {
        escape_key(k.drop_last()) + key_escape_char(k.last())
    }
}

/// The selector for an object key: `.name` for an identifier (plain `name`
/// right after the root dot) and `["key"]` with escapes otherwise.
pub open spec fn key_selector(k: Seq<char>, first: bool) -> Seq<char> {
    if identifier(k) {
        if first {
            k
        } else {
            seq!['.'] + k
        }
    } else {
        seq!['[', '"'] + escape_key(k) + seq!['"', ']']
    }
}

/// The selector for one step; with `all_arrays` every index becomes `[]`.
pub open spec fn seg_selector(seg: SegView, first: bool, all_arrays: bool) -> Seq<char> {
    match seg {
        SegView::Index(i) => if all_arrays {
            seq!['[', ']']
        } else {
            seq!['['] + decimal(i as nat) + seq![']']
        },
        SegView::Key(k) => key_selector(k, first),
    }
}

/// The jq filter that selects `p`: `.` followed by the selectors of its steps.
pub open spec fn jq_path(p: Seq<SegView>, all_arrays: bool) -> Seq<char>
    decreases p.len(),
{
    if p.len() == 0 {
        seq!['.']
    } else {
        jq_path(p.drop_last(), all_arrays) + seg_selector(p.last(), p.len() == 1, all_arrays)
    }
}

// ---------------------------------------------------------------------------
// Order (the order that `derive(Ord)` gives `Vec<PathSeg>`)
// ---------------------------------------------------------------------------

/// Lexicographic order of character sequences by code point; for strings this
/// is the byte order of their UTF-8 encodings, which `str` compares by.
pub open spec fn chars_lt(a: Seq<char>, b: Seq<char>) -> bool
    decreases a.len(),
{
    if a.len() == 0 {
        b.len() > 0
    } else if b.len() == 0 {
        false
    } else if a[0] != b[0] {
        a[0] < b[0]
    } else {
        chars_lt(a.drop_first(), b.drop_first())
    }
}

/// Order of path steps: every key before every index, keys by `chars_lt`,
/// indices by value.
pub open spec fn seg_lt(a: SegView, b: SegView) -> bool {
    match (a, b) {
        (SegView::Key(x), SegView::Key(y)) => chars_lt(x, y),
        (SegView::Key(_), SegView::Index(_)) => true,
        (SegView::Index(_), SegView::Key(_)) => false,
        (SegView::Index(i), SegView::Index(j)) => i < j,
    }
}

/// Lexicographic order of paths by `seg_lt`, a proper prefix first.
pub open spec fn path_lt(a: Seq<SegView>, b: Seq<SegView>) -> bool
    decreases a.len(),
{
    if a.len() == 0 {
        b.len() > 0
    } else if b.len() == 0 {
        false
    } else if a[0] != b[0] {
        seg_lt(a[0], b[0])
    } else {
        path_lt(a.drop_first(), b.drop_first())
    }
}

pub proof fn lemma_chars_lt_irreflexive(a: Seq<char>)
    ensures
        !chars_lt(a, a),
    decreases a.len(),
{
    if a.len() > 0 {
        lemma_chars_lt_irreflexive(a.drop_first());
    }
}

pub proof fn lemma_chars_lt_transitive(a: Seq<char>, b: Seq<char>, c: Seq<char>)
    requires
        chars_lt(a, b),
        chars_lt(b, c),
    ensures
        chars_lt(a, c),
    decreases a.len(),
{
    if a.len() > 0 && b.len() > 0 && c.len() > 0 && a[0] == b[0] && b[0] == c[0] {
        lemma_chars_lt_transitive(a.drop_first(), b.drop_first(), c.drop_first());
    }
}

pub proof fn lemma_chars_lt_total(a: Seq<char>, b: Seq<char>)
    ensures
        a == b || chars_lt(a, b) || chars_lt(b, a),
    decreases a.len(),
{
    if a.len() > 0 && b.len() > 0 && a[0] == b[0] {
        lemma_chars_lt_total(a.drop_first(), b.drop_first());
        if a.drop_first() == b.drop_first() {
            assert(a =~= seq![a[0]] + a.drop_first());
            assert(b =~= seq![b[0]] + b.drop_first());
        }
    } else if a.len() == 0 && b.len() == 0 {
        assert(a =~= b);
    }
}

pub proof fn lemma_chars_lt_asymmetric(a: Seq<char>, b: Seq<char>)
    requires
        chars_lt(a, b),
    ensures
        !chars_lt(b, a),
{
    if chars_lt(b, a) {
        lemma_chars_lt_transitive(a, b, a);
        lemma_chars_lt_irreflexive(a);
    }
}

pub proof fn lemma_seg_lt_total(a: SegView, b: SegView)
    ensures
        a == b || seg_lt(a, b) || seg_lt(b, a),
        !seg_lt(a, a),
{
    if let SegView::Key(x) = a {
        lemma_chars_lt_irreflexive(x);
    }
    match (a, b) {
        (SegView::Key(x), SegView::Key(y)) => {
            lemma_chars_lt_total(x, y);
        },
        _ => {},
    }
}

pub proof fn lemma_seg_lt_transitive(a: SegView, b: SegView, c: SegView)
    requires
        seg_lt(a, b),
        seg_lt(b, c),
    ensures
        seg_lt(a, c),
{
    match (a, b, c) {
        (SegView::Key(x), SegView::Key(y), SegView::Key(z)) => {
            lemma_chars_lt_transitive(x, y, z);
        },
        _ => {},
    }
}

/// `path_lt` is irreflexive.
pub proof fn lemma_path_lt_irreflexive(a: Seq<SegView>)
    ensures
        !path_lt(a, a),
    decreases a.len(),
{
    if a.len() > 0 {
        lemma_path_lt_irreflexive(a.drop_first());
    }
}

/// `path_lt` is transitive.
pub proof fn lemma_path_lt_transitive(a: Seq<SegView>, b: Seq<SegView>, c: Seq<SegView>)
    requires
        path_lt(a, b),
        path_lt(b, c),
    ensures
        path_lt(a, c),
    decreases a.len(),
{
    if a.len() > 0 && b.len() > 0 && c.len() > 0 {
        if a[0] == b[0] && b[0] == c[0] {
            lemma_path_lt_transitive(a.drop_first(), b.drop_first(), c.drop_first());
        } else if a[0] != b[0] && b[0] != c[0] {
            lemma_seg_lt_transitive(a[0], b[0], c[0]);
            if a[0] == c[0] {
                lemma_seg_lt_total(a[0], b[0]);
                lemma_seg_lt_transitive(a[0], b[0], a[0]);
            }
        }
    }
}

/// `path_lt` relates any two different paths one way or the other.
pub proof fn lemma_path_lt_total(a: Seq<SegView>, b: Seq<SegView>)
    ensures
        a == b || path_lt(a, b) || path_lt(b, a),
    decreases a.len(),
{
    if a.len() > 0 && b.len() > 0 {
        if a[0] == b[0] {
            lemma_path_lt_total(a.drop_first(), b.drop_first());
            if a.drop_first() == b.drop_first() {
                assert(a =~= seq![a[0]] + a.drop_first());
                assert(b =~= seq![b[0]] + b.drop_first());
            }
        } else {
            lemma_seg_lt_total(a[0], b[0]);
        }
    } else if a.len() == 0 && b.len() == 0 {
        assert(a =~= b);
    }
}

/// `path_lt` never holds both ways.
pub proof fn lemma_path_lt_asymmetric(a: Seq<SegView>, b: Seq<SegView>)
    requires
        path_lt(a, b),
    ensures
        !path_lt(b, a),
{
    if path_lt(b, a) {
        lemma_path_lt_transitive(a, b, a);
        lemma_path_lt_irreflexive(a);
    }
}

// ---------------------------------------------------------------------------
// Executable functions
// ---------------------------------------------------------------------------

/// Whether `s` can follow a `.` in a jq filter (see `identifier`).
pub fn is_identifier(s: &str) -> (r: bool)
    ensures
        r == identifier(s@),
{
    let cs = chars_of(s);
    if cs.len() == 0 {
        return false;
    }
    let first = cs[0];
    if !(('a' <= first && first <= 'z') || ('A' <= first && first <= 'Z') || first == '_') {
        return false;
    }
    let mut i: usize = 1;
    while i < cs.len()
        invariant
            1 <= i <= cs@.len(),
            cs@ == s@,
            forall|j: int| 1 <= j < i ==> is_ascii_alnum(#[trigger] s@[j]) || s@[j] == '_',
        decreases cs.len() - i,
    {
        let c = cs[i];
        if !(('a' <= c && c <= 'z') || ('A' <= c && c <= 'Z') || ('0' <= c && c <= '9') || c
            == '_') {
            return false;
        }
        i = i + 1;
    }
    true
}

/// Appends `k` to `out` with backslash and double quote escaped by a backslash.
fn push_escaped_key(out: &mut String, k: &str)
    ensures
        final(out)@ == old(out)@ + escape_key(k@),
{
    let cs = chars_of(k);
    let ghost start = out@;
    let mut i: usize = 0;
    assert(k@.take(0) =~= Seq::<char>::empty());
    while i < cs.len()
        invariant
            i <= cs@.len(),
            cs@ == k@,
            out@ == start + escape_key(k@.take(i as int)),
        decreases cs.len() - i,
    {
        let c = cs[i];
        let ghost before = out@;
        if c == '\\' {
            push_char(out, '\\');
            push_char(out, '\\');
            assert(out@ =~= before + seq!['\\', '\\']);
        } else if c == '"' {
            push_char(out, '\\');
            push_char(out, '"');
            assert(out@ =~= before + seq!['\\', '"']);
        } else {
            push_char(out, c);
            assert(out@ =~= before + seq![c]);
        }
        assert(k@.take(i + 1).drop_last() =~= k@.take(i as int));
        assert(out@ =~= start + escape_key(k@.take(i + 1)));
        i = i + 1;
    }
    assert(k@.take(k@.len() as int) =~= k@);
}

/// Appends the selector of one path step to `out`.
fn push_selector(out: &mut String, seg: &PathSeg, first: bool, all_arrays: bool)
    ensures
        final(out)@ == old(out)@ + seg_selector(seg@, first, all_arrays),
{
    match seg {
        PathSeg::Index(i) => {
            push_char(out, '[');
            if !all_arrays {
                let d = decimal_string(*i);
                out.append(d.as_str());
            }
            push_char(out, ']');
            proof {
                if all_arrays {
                    assert(final(out)@ =~= old(out)@ + seq!['[', ']']);
                }
            }
            assert(out@ =~= old(out)@ + seg_selector(seg@, first, all_arrays));
        },
        PathSeg::String(s) => {
            if is_identifier(s.as_str()) {
                if !first {
                    push_char(out, '.');
                }
                out.append(s.as_str());
                assert(out@ =~= old(out)@ + seg_selector(seg@, first, all_arrays));
            } else {
                push_char(out, '[');
                push_char(out, '"');
                push_escaped_key(out, s.as_str());
                push_char(out, '"');
                push_char(out, ']');
                assert(out@ =~= old(out)@ + seg_selector(seg@, first, all_arrays));
            }
        },
    }
}

fn jq_filter_of(path: &[PathSeg], all_arrays: bool) -> (res: String)
    ensures
        res@ == jq_path(path_view(path@), all_arrays),
{
    let mut out = String::new();
    push_char(&mut out, '.');
    assert(out@ =~= seq!['.']);
    let mut i: usize = 0;
    while i < path.len()
        invariant
            i <= path@.len(),
            out@ == jq_path(path_view(path@.take(i as int)), all_arrays),
        decreases path.len() - i,
    {
        assert(path@.take(0) =~= Seq::<PathSeg>::empty());
        push_selector(&mut out, &path[i], i == 0, all_arrays);
        proof {
            let p = path_view(path@.take(i + 1));
            assert(p.drop_last() =~= path_view(path@.take(i as int)));
            assert(p.last() == path@[i as int]@);
        }
        i = i + 1;
    }
    assert(path@.take(path@.len() as int) =~= path@);
    out
}

/// The jq filter that selects exactly the node at `path`, such as `.a[0]["b c"]`.
pub fn path_to_jq(path: &[PathSeg]) -> (res: String)
    ensures
        res@ == jq_path(path_view(path@), false),
{
    jq_filter_of(path, false)
}

/// The jq filter that selects the node at `path` in every element of each
/// array along the way: every index is written `[]`, such as `.a[]["b c"]`.
pub fn path_to_jq_all_arrays(path: &[PathSeg]) -> (res: String)
    ensures
        res@ == jq_path(path_view(path@), true),
{
    jq_filter_of(path, true)
}

/// A copy of one path step.
pub fn copy_seg(seg: &PathSeg) -> (res: PathSeg)
    ensures
        res@ == seg@,
{
    match seg {
        PathSeg::String(s) => PathSeg::String(s.clone()),
        PathSeg::Index(i) => PathSeg::Index(*i),
    }
}

/// A copy of a path.
pub fn copy_path(path: &[PathSeg]) -> (res: Vec<PathSeg>)
    ensures
        path_view(res@) == path_view(path@),
{
    let mut res: Vec<PathSeg> = Vec::new();
    let mut i: usize = 0;
    while i < path.len()
        invariant
            i <= path@.len(),
            res@.len() == i,
            path_view(res@) == path_view(path@.take(i as int)),
        decreases path.len() - i,
    {
        let s = copy_seg(&path[i]);
        let ghost old_res = res@;
        res.push(s);
        assert forall|j: int| 0 <= j < i + 1 implies #[trigger] path_view(res@)[j] == path_view(
            path@.take(i + 1),
        )[j] by {
            if j < i {
                assert(res@[j] == old_res[j]);
                assert(path_view(old_res)[j] == path_view(path@.take(i as int))[j]);
            }
        }
        assert(path_view(res@) =~= path_view(path@.take(i + 1)));
        i = i + 1;
    }
    assert(path@.take(path@.len() as int) =~= path@);
    res
}

/// Whether two path steps are equal.
pub fn seg_eq(a: &PathSeg, b: &PathSeg) -> (r: bool)
    ensures
        r == (a@ == b@),
{
    match (a, b) {
        (PathSeg::String(x), PathSeg::String(y)) => x.eq(y),
        (PathSeg::Index(i), PathSeg::Index(j)) => *i == *j,
        _ => false,
    }
}

/// Whether two paths are equal.
pub fn path_eq(a: &[PathSeg], b: &[PathSeg]) -> (r: bool)
    ensures
        r == (path_view(a@) == path_view(b@)),
{
    if a.len() != b.len() {
        assert(path_view(a@).len() != path_view(b@).len());
        return false;
    }
    let mut i: usize = 0;
    while i < a.len()
        invariant
            i <= a@.len() == b@.len(),
            forall|j: int| 0 <= j < i ==> a@[j]@ == b@[j]@,
        decreases a.len() - i,
    {
        if !seg_eq(&a[i], &b[i]) {
            assert(path_view(a@)[i as int] != path_view(b@)[i as int]);
            return false;
        }
        i = i + 1;
    }
    assert(path_view(a@) =~= path_view(b@));
    true
}

/// Whether `a` comes before `b` in code-point order.
fn chars_less(a: &Vec<char>, b: &Vec<char>) -> (r: bool)
    ensures
        r == chars_lt(a@, b@),
{
    let mut i: usize = 0;
    assert(a@.skip(0) =~= a@);
    assert(b@.skip(0) =~= b@);
    while i < a.len() && i < b.len()
        invariant
            i <= a@.len(),
            i <= b@.len(),
            chars_lt(a@.skip(i as int), b@.skip(i as int)) == chars_lt(a@, b@),
        decreases a.len() - i,
    {
        if a[i] != b[i] {
            return a[i] < b[i];
        }
        assert(a@.skip(i as int).drop_first() =~= a@.skip(i + 1));
        assert(b@.skip(i as int).drop_first() =~= b@.skip(i + 1));
        i = i + 1;
    }
    i < b.len()
}

/// Whether step `a` comes before step `b` in the order `derive(Ord)` gives.
pub fn seg_less(a: &PathSeg, b: &PathSeg) -> (r: bool)
    ensures
        r == seg_lt(a@, b@),
{
    match (a, b) {
        (PathSeg::String(x), PathSeg::String(y)) => {
            let xc = chars_of(x.as_str());
            let yc = chars_of(y.as_str());
            chars_less(&xc, &yc)
        },
        (PathSeg::String(_), PathSeg::Index(_)) => true,
        (PathSeg::Index(_), PathSeg::String(_)) => false,
        (PathSeg::Index(i), PathSeg::Index(j)) => *i < *j,
    }
}

/// Whether path `a` comes before path `b` in the order `derive(Ord)` gives.
pub fn path_less(a: &[PathSeg], b: &[PathSeg]) -> (r: bool)
    ensures
        r == path_lt(path_view(a@), path_view(b@)),
{
    let ghost av = path_view(a@);
    let ghost bv = path_view(b@);
    let mut i: usize = 0;
    assert(av.skip(0) =~= av);
    assert(bv.skip(0) =~= bv);
    while i < a.len() && i < b.len()
        invariant
            i <= a@.len(),
            i <= b@.len(),
            av == path_view(a@),
            bv == path_view(b@),
            path_lt(av.skip(i as int), bv.skip(i as int)) == path_lt(av, bv),
        decreases a.len() - i,
    {
        if !seg_eq(&a[i], &b[i]) {
            return seg_less(&a[i], &b[i]);
        }
        assert(av.skip(i as int).drop_first() =~= av.skip(i + 1));
        assert(bv.skip(i as int).drop_first() =~= bv.skip(i + 1));
        i = i + 1;
    }
    i < b.len()
}

} // verus!
