//! How the rows of a document change when one container is opened or closed.
use vstd::prelude::*;
use crate::json::{JsonValue, keys_distinct, members_distinct, elements_distinct};
use crate::path::SegView;
use crate::rows::{
    RowView, node_rows, member_rows, element_rows, child_indent, document_rows, lemma_node_rows_nonempty,
};
use crate::tui::{Browser, Key, ActionView, key_step, frame_step, first_row_with_path};

verus! {

// ---------------------------------------------------------------------------
// Where rows lie
// ---------------------------------------------------------------------------

/// Every row of a node lies at or below the node's path.
proof fn lemma_node_rows_below(
    v: JsonValue,
    q: Seq<SegView>,
    indent: Seq<char>,
    is_last: bool,
    key: Option<Seq<char>>,
    e: Set<Seq<SegView>>,
)
    ensures
        forall|i: int|
            0 <= i < node_rows(v, q, indent, is_last, key, e).len() ==> q.is_prefix_of(
                #[trigger] node_rows(v, q, indent, is_last, key, e)[i].path,
            ),
    decreases v,
{
    let r = node_rows(v, q, indent, is_last, key, e);
    let open = q.len() == 0 || e.contains(q);
    match v {
        JsonValue::Object(m) => {
            if open {
                let kids = member_rows(m@, m@.len(), q, child_indent(indent), e);
                lemma_member_rows_below(m@, m@.len(), q, child_indent(indent), e);
                assert forall|i: int| 0 <= i < r.len() implies q.is_prefix_of(#[trigger] r[i].path) by {
                    if 0 < i < r.len() - 1 {
                        assert(r[i] == kids[i - 1]);
                    } else {
                        assert(r[i].path == q);
                        assert(q.subrange(0, q.len() as int) =~= q);
                    }
                }
            } else {
                assert(q.subrange(0, q.len() as int) =~= q);
            }
        },
        JsonValue::Array(a) => {
            if open {
                let kids = element_rows(a@, a@.len(), q, child_indent(indent), e);
                lemma_element_rows_below(a@, a@.len(), q, child_indent(indent), e);
                assert forall|i: int| 0 <= i < r.len() implies q.is_prefix_of(#[trigger] r[i].path) by {
                    if 0 < i < r.len() - 1 {
                        assert(r[i] == kids[i - 1]);
                    } else {
                        assert(r[i].path == q);
                        assert(q.subrange(0, q.len() as int) =~= q);
                    }
                }
            } else {
                assert(q.subrange(0, q.len() as int) =~= q);
            }
        },
        _ => {
            assert(q.subrange(0, q.len() as int) =~= q);
        },
    }
}

/// Whether some member of `items` has key `k`.
spec fn has_member_key(items: Seq<(String, JsonValue)>, k: Seq<char>) -> bool {
    exists|j: int| 0 <= j < items.len() && (#[trigger] items[j]).0@ == k
}

/// Every row of some members lies strictly below the object's path `q`, one
/// step down through one of the members' keys.
proof fn lemma_member_rows_below(
    items: Seq<(String, JsonValue)>,
    total: nat,
    q: Seq<SegView>,
    indent: Seq<char>,
    e: Set<Seq<SegView>>,
)
    ensures
        forall|i: int|
            0 <= i < member_rows(items, total, q, indent, e).len() ==> {
                let path = #[trigger] member_rows(items, total, q, indent, e)[i].path;
                &&& q.len() < path.len()
                &&& q.is_prefix_of(path)
                &&& path[q.len() as int] is Key
                &&& has_member_key(items, path[q.len() as int]->Key_0)
            },
    decreases items,
{
    if items.len() > 0 {
        let (k, v) = items.last();
        let cp = q.push(SegView::Key(k@));
        let front = member_rows(items.drop_last(), total, q, indent, e);
        let back = node_rows(v, cp, indent, items.len() == total, Some(k@), e);
        lemma_member_rows_below(items.drop_last(), total, q, indent, e);
        lemma_node_rows_below(v, cp, indent, items.len() == total, Some(k@), e);
        let r = member_rows(items, total, q, indent, e);
        assert(r == front + back);
        assert forall|i: int| 0 <= i < r.len() implies {
            let path = #[trigger] r[i].path;
            &&& q.len() < path.len()
            &&& q.is_prefix_of(path)
            &&& path[q.len() as int] is Key
            &&& has_member_key(items, path[q.len() as int]->Key_0)
        } by {
            let path = r[i].path;
            if i < front.len() {
                assert(r[i] == front[i]);
                let j = choose|j: int| 0 <= j < items.drop_last().len() && (#[trigger] items.drop_last()[j]).0@
                    == path[q.len() as int]->Key_0;
                assert(items[j] == items.drop_last()[j]);
            } else {
                assert(r[i] == back[i - front.len()]);
                assert(cp.is_prefix_of(path));
                assert(path.subrange(0, cp.len() as int) == cp);
                assert(path[q.len() as int] == path.subrange(0, cp.len() as int)[q.len() as int]);
                assert(path.subrange(0, q.len() as int) =~= path.subrange(0, cp.len() as int).subrange(
                    0,
                    q.len() as int,
                ));
                assert(cp.subrange(0, q.len() as int) =~= q);
                assert(items[items.len() - 1].0@ == k@);
            }
        }
    }
}

/// Every row of some elements lies strictly below the array's path `q`, one
/// step down through one of the elements' indices.
proof fn lemma_element_rows_below(
    items: Seq<JsonValue>,
    total: nat,
    q: Seq<SegView>,
    indent: Seq<char>,
    e: Set<Seq<SegView>>,
)
    ensures
        forall|i: int|
            0 <= i < element_rows(items, total, q, indent, e).len() ==> {
                let path = #[trigger] element_rows(items, total, q, indent, e)[i].path;
                &&& q.len() < path.len()
                &&& q.is_prefix_of(path)
                &&& path[q.len() as int] is Index
                &&& path[q.len() as int]->Index_0 < items.len()
            },
    decreases items,
{
    if items.len() > 0 {
        let v = items.last();
        let cp = q.push(SegView::Index((items.len() - 1) as usize));
        let front = element_rows(items.drop_last(), total, q, indent, e);
        let back = node_rows(v, cp, indent, items.len() == total, None, e);
        lemma_element_rows_below(items.drop_last(), total, q, indent, e);
        lemma_node_rows_below(v, cp, indent, items.len() == total, None, e);
        let r = element_rows(items, total, q, indent, e);
        assert(r == front + back);
        assert forall|i: int| 0 <= i < r.len() implies {
            let path = #[trigger] r[i].path;
            &&& q.len() < path.len()
            &&& q.is_prefix_of(path)
            &&& path[q.len() as int] is Index
            &&& path[q.len() as int]->Index_0 < items.len()
        } by {
            let path = r[i].path;
            if i < front.len() {
                assert(r[i] == front[i]);
            } else {
                assert(r[i] == back[i - front.len()]);
                assert(cp.is_prefix_of(path));
                assert(path.subrange(0, cp.len() as int) == cp);
                assert(path[q.len() as int] == path.subrange(0, cp.len() as int)[q.len() as int]);
                assert(path.subrange(0, q.len() as int) =~= path.subrange(0, cp.len() as int).subrange(
                    0,
                    q.len() as int,
                ));
                assert(cp.subrange(0, q.len() as int) =~= q);
            }
        }
    }
}

// ---------------------------------------------------------------------------
// One container row per path
// ---------------------------------------------------------------------------

/// Whether no two container rows of `r` have the same path.
pub open spec fn container_paths_unique(r: Seq<RowView>) -> bool {
    forall|a: int, b: int|
        0 <= a < b < r.len() && (#[trigger] r[a]).is_container && (#[trigger] r[b]).is_container
            ==> r[a].path != r[b].path
}

/// The step right below `q` on a path that has the path `cp` of length
/// `q.len() + 1` as a prefix is the last step of `cp`.
proof fn lemma_step_below(cp: Seq<SegView>, q: Seq<SegView>, path: Seq<SegView>)
    requires
        cp.len() == q.len() + 1,
        cp.is_prefix_of(path),
    ensures
        path.len() > q.len(),
        path[q.len() as int] == cp[q.len() as int],
{
    assert(path.subrange(0, cp.len() as int) == cp);
    assert(path[q.len() as int] == path.subrange(0, cp.len() as int)[q.len() as int]);
}

/// In a document whose objects have distinct keys, no two container rows of
/// a node share a path.
proof fn lemma_node_rows_unique(
    v: JsonValue,
    q: Seq<SegView>,
    indent: Seq<char>,
    is_last: bool,
    key: Option<Seq<char>>,
    e: Set<Seq<SegView>>,
)
    requires
        keys_distinct(v),
    ensures
        container_paths_unique(node_rows(v, q, indent, is_last, key, e)),
    decreases v,
{
    let r = node_rows(v, q, indent, is_last, key, e);
    let open = q.len() == 0 || e.contains(q);
    match v {
        JsonValue::Object(m) => {
            if open {
                let kids = member_rows(m@, m@.len(), q, child_indent(indent), e);
                lemma_member_rows_below(m@, m@.len(), q, child_indent(indent), e);
                lemma_member_rows_unique(m@, m@.len(), q, child_indent(indent), e);
                assert forall|a: int, b: int|
                    0 <= a < b < r.len() && (#[trigger] r[a]).is_container && (
                    #[trigger] r[b]).is_container implies r[a].path != r[b].path by {
                    if b == r.len() - 1 {
                    } else if a == 0 {
                        assert(r[b] == kids[b - 1]);
                    } else {
                        assert(r[a] == kids[a - 1]);
                        assert(r[b] == kids[b - 1]);
                    }
                }
            }
        },
        JsonValue::Array(arr) => {
            if open {
                let kids = element_rows(arr@, arr@.len(), q, child_indent(indent), e);
                lemma_element_rows_below(arr@, arr@.len(), q, child_indent(indent), e);
                assert(arr@.len() == arr.len());
                lemma_element_rows_unique(arr@, arr@.len(), q, child_indent(indent), e);
                assert forall|a: int, b: int|
                    0 <= a < b < r.len() && (#[trigger] r[a]).is_container && (
                    #[trigger] r[b]).is_container implies r[a].path != r[b].path by {
                    if b == r.len() - 1 {
                    } else if a == 0 {
                        assert(r[b] == kids[b - 1]);
                    } else {
                        assert(r[a] == kids[a - 1]);
                        assert(r[b] == kids[b - 1]);
                    }
                }
            }
        },
        _ => {},
    }
}

/// In a document whose objects have distinct keys, no two container rows
/// share a path: each object or array is opened or closed from one row.
pub proof fn lemma_document_container_rows_unique(v: JsonValue, e: Set<Seq<SegView>>)
    requires
        keys_distinct(v),
    ensures
        container_paths_unique(document_rows(v, e)),
{
    lemma_node_rows_unique(v, Seq::empty(), Seq::empty(), true, None, e);
}

proof fn lemma_member_rows_unique(
    items: Seq<(String, JsonValue)>,
    total: nat,
    q: Seq<SegView>,
    indent: Seq<char>,
    e: Set<Seq<SegView>>,
)
    requires
        members_distinct(items),
    ensures
        container_paths_unique(member_rows(items, total, q, indent, e)),
    decreases items,
{
    if items.len() > 0 {
        let (k, v) = items.last();
        let cp = q.push(SegView::Key(k@));
        let front = member_rows(items.drop_last(), total, q, indent, e);
        let back = node_rows(v, cp, indent, items.len() == total, Some(k@), e);
        lemma_member_rows_unique(items.drop_last(), total, q, indent, e);
        lemma_node_rows_unique(v, cp, indent, items.len() == total, Some(k@), e);
        lemma_member_rows_below(items.drop_last(), total, q, indent, e);
        lemma_node_rows_below(v, cp, indent, items.len() == total, Some(k@), e);
        let r = member_rows(items, total, q, indent, e);
        assert(r == front + back);
        assert forall|a: int, b: int|
            0 <= a < b < r.len() && (#[trigger] r[a]).is_container && (#[trigger] r[b]).is_container
                implies r[a].path != r[b].path by {
            if b < front.len() {
                assert(r[a] == front[a] && r[b] == front[b]);
            } else if a >= front.len() {
                assert(r[a] == back[a - front.len()] && r[b] == back[b - front.len()]);
            } else {
                assert(r[a] == front[a] && r[b] == back[b - front.len()]);
                let pa = front[a].path;
                let pb = back[b - front.len()].path;
                lemma_step_below(cp, q, pb);
                if pa == pb {
                    let d = items.drop_last();
                    let j = choose|j: int| 0 <= j < d.len() && (#[trigger] d[j]).0@ == pa[q.len() as int]->Key_0;
                    assert(items[j] == d[j]);
                    assert(items[j].0@ != items.last().0@);
                }
            }
        }
    }
}

proof fn lemma_element_rows_unique(
    items: Seq<JsonValue>,
    total: nat,
    q: Seq<SegView>,
    indent: Seq<char>,
    e: Set<Seq<SegView>>,
)
    requires
        elements_distinct(items),
        items.len() <= usize::MAX,
    ensures
        container_paths_unique(element_rows(items, total, q, indent, e)),
    decreases items,
{
    if items.len() > 0 {
        let v = items.last();
        let cp = q.push(SegView::Index((items.len() - 1) as usize));
        let front = element_rows(items.drop_last(), total, q, indent, e);
        let back = node_rows(v, cp, indent, items.len() == total, None, e);
        lemma_element_rows_unique(items.drop_last(), total, q, indent, e);
        lemma_node_rows_unique(v, cp, indent, items.len() == total, None, e);
        lemma_element_rows_below(items.drop_last(), total, q, indent, e);
        lemma_node_rows_below(v, cp, indent, items.len() == total, None, e);
        let r = element_rows(items, total, q, indent, e);
        assert(r == front + back);
        assert forall|a: int, b: int|
            0 <= a < b < r.len() && (#[trigger] r[a]).is_container && (#[trigger] r[b]).is_container
                implies r[a].path != r[b].path by {
            if b < front.len() {
                assert(r[a] == front[a] && r[b] == front[b]);
            } else if a >= front.len() {
                assert(r[a] == back[a - front.len()] && r[b] == back[b - front.len()]);
            } else {
                assert(r[a] == front[a] && r[b] == back[b - front.len()]);
                let pa = front[a].path;
                let pb = back[b - front.len()].path;
                lemma_step_below(cp, q, pb);
                assert(pa[q.len() as int]->Index_0 < items.len() - 1);
                assert(pb[q.len() as int] == SegView::Index((items.len() - 1) as usize));
                assert(pa[q.len() as int] != pb[q.len() as int]);
            }
        }
    }
}

// ---------------------------------------------------------------------------
// Opening or closing one container
// ---------------------------------------------------------------------------

/// Whether the open sets `e1` and `e2` differ at most in the path `p`.
pub open spec fn agree_except(e1: Set<Seq<SegView>>, e2: Set<Seq<SegView>>, p: Seq<SegView>) -> bool {
    forall|x: Seq<SegView>| x != p ==> (#[trigger] e1.contains(x) == e2.contains(x))
}

/// A path that has `q` plus one step as a prefix has `q` as a prefix.
proof fn lemma_push_prefix(q: Seq<SegView>, s: SegView, p: Seq<SegView>)
    requires
        q.push(s).is_prefix_of(p),
    ensures
        q.is_prefix_of(p),
{
    assert(p.subrange(0, q.len() as int) =~= p.subrange(0, q.len() + 1int).subrange(0, q.len() as int));
    assert(q.push(s).subrange(0, q.len() as int) =~= q);
}

/// The rows of a node that does not lie on the way to `p` are the same for
/// two open sets that differ only in `p`.
proof fn lemma_node_rows_agree(
    v: JsonValue,
    q: Seq<SegView>,
    indent: Seq<char>,
    is_last: bool,
    key: Option<Seq<char>>,
    e1: Set<Seq<SegView>>,
    e2: Set<Seq<SegView>>,
    p: Seq<SegView>,
)
    requires
        agree_except(e1, e2, p),
        !q.is_prefix_of(p),
    ensures
        node_rows(v, q, indent, is_last, key, e1) == node_rows(v, q, indent, is_last, key, e2),
    decreases v,
{
    assert(q != p) by {
        if q == p {
            assert(p.subrange(0, q.len() as int) =~= q);
        }
    }
    assert(e1.contains(q) == e2.contains(q));
    match v {
        JsonValue::Object(m) => {
            assert forall|j: int| 0 <= j < m@.len() implies !(#[trigger] q.push(
                SegView::Key(m@[j].0@),
            )).is_prefix_of(p) by {
                if q.push(SegView::Key(m@[j].0@)).is_prefix_of(p) {
                    lemma_push_prefix(q, SegView::Key(m@[j].0@), p);
                }
            }
            lemma_member_rows_agree(m@, m@.len(), q, child_indent(indent), e1, e2, p);
        },
        JsonValue::Array(a) => {
            assert forall|j: int| 0 <= j < a@.len() implies !(#[trigger] q.push(
                SegView::Index(j as usize),
            )).is_prefix_of(p) by {
                if q.push(SegView::Index(j as usize)).is_prefix_of(p) {
                    lemma_push_prefix(q, SegView::Index(j as usize), p);
                }
            }
            lemma_element_rows_agree(a@, a@.len(), q, child_indent(indent), e1, e2, p);
        },
        _ => {},
    }
}

proof fn lemma_member_rows_agree(
    items: Seq<(String, JsonValue)>,
    total: nat,
    q: Seq<SegView>,
    indent: Seq<char>,
    e1: Set<Seq<SegView>>,
    e2: Set<Seq<SegView>>,
    p: Seq<SegView>,
)
    requires
        agree_except(e1, e2, p),
        forall|j: int| 0 <= j < items.len() ==> !(#[trigger] q.push(SegView::Key(items[j].0@))).is_prefix_of(p),
    ensures
        member_rows(items, total, q, indent, e1) == member_rows(items, total, q, indent, e2),
    decreases items,
{
    if items.len() > 0 {
        let (k, v) = items.last();
        let d = items.drop_last();
        assert forall|j: int| 0 <= j < d.len() implies !(#[trigger] q.push(SegView::Key(d[j].0@))).is_prefix_of(p) by {
            assert(d[j] == items[j]);
        }
        lemma_member_rows_agree(d, total, q, indent, e1, e2, p);
        assert(items[items.len() - 1].0@ == k@);
        lemma_node_rows_agree(v, q.push(SegView::Key(k@)), indent, items.len() == total, Some(k@), e1, e2, p);
    }
}

proof fn lemma_element_rows_agree(
    items: Seq<JsonValue>,
    total: nat,
    q: Seq<SegView>,
    indent: Seq<char>,
    e1: Set<Seq<SegView>>,
    e2: Set<Seq<SegView>>,
    p: Seq<SegView>,
)
    requires
        agree_except(e1, e2, p),
        forall|j: int| 0 <= j < items.len() ==> !(#[trigger] q.push(SegView::Index(j as usize))).is_prefix_of(p),
    ensures
        element_rows(items, total, q, indent, e1) == element_rows(items, total, q, indent, e2),
    decreases items,
{
    if items.len() > 0 {
        let d = items.drop_last();
        assert forall|j: int| 0 <= j < d.len() implies !(#[trigger] q.push(SegView::Index(j as usize))).is_prefix_of(p) by {
            assert(q.push(SegView::Index(j as usize)) == q.push(SegView::Index(j as usize)));
        }
        lemma_element_rows_agree(d, total, q, indent, e1, e2, p);
        let last: int = items.len() - 1;
        assert(!q.push(SegView::Index(last as usize)).is_prefix_of(p));
        lemma_node_rows_agree(items.last(), q.push(SegView::Index((items.len() - 1) as usize)), indent, items.len() == total, None, e1, e2, p);
    }
}

/// Where a node has a container row with path `p`, a second open set that
/// differs from the first only in `p` shows a container row with path `p`
/// at the same place.
proof fn lemma_node_rows_toggle(
    v: JsonValue,
    q: Seq<SegView>,
    indent: Seq<char>,
    is_last: bool,
    key: Option<Seq<char>>,
    e1: Set<Seq<SegView>>,
    e2: Set<Seq<SegView>>,
    p: Seq<SegView>,
    c: int,
)
    requires
        keys_distinct(v),
        agree_except(e1, e2, p),
        0 <= c < node_rows(v, q, indent, is_last, key, e1).len(),
        node_rows(v, q, indent, is_last, key, e1)[c].is_container,
        node_rows(v, q, indent, is_last, key, e1)[c].path == p,
    ensures
        c < node_rows(v, q, indent, is_last, key, e2).len(),
        node_rows(v, q, indent, is_last, key, e2)[c].is_container,
        node_rows(v, q, indent, is_last, key, e2)[c].path == p,
    decreases v,
{
    let r1 = node_rows(v, q, indent, is_last, key, e1);
    let r2 = node_rows(v, q, indent, is_last, key, e2);
    let open1 = q.len() == 0 || e1.contains(q);
    let open2 = q.len() == 0 || e2.contains(q);
    match v {
        JsonValue::Object(m) => {
            if q == p {
                if open1 && c > 0 {
                    let kids = member_rows(m@, m@.len(), q, child_indent(indent), e1);
                    lemma_member_rows_below(m@, m@.len(), q, child_indent(indent), e1);
                    if c < r1.len() - 1 {
                        assert(r1[c] == kids[c - 1]);
                    }
                }
            } else {
                assert(e1.contains(q) == e2.contains(q));
                if open1 {
                    let kids1 = member_rows(m@, m@.len(), q, child_indent(indent), e1);
                    let kids2 = member_rows(m@, m@.len(), q, child_indent(indent), e2);
                    assert(0 < c < r1.len() - 1);
                    assert(r1[c] == kids1[c - 1]);
                    lemma_member_rows_toggle(m@, m@.len(), q, child_indent(indent), e1, e2, p, c - 1);
                    assert(r2[c] == kids2[c - 1]);
                }
            }
        },
        JsonValue::Array(a) => {
            if q == p {
                if open1 && c > 0 {
                    let kids = element_rows(a@, a@.len(), q, child_indent(indent), e1);
                    lemma_element_rows_below(a@, a@.len(), q, child_indent(indent), e1);
                    if c < r1.len() - 1 {
                        assert(r1[c] == kids[c - 1]);
                    }
                }
            } else {
                assert(e1.contains(q) == e2.contains(q));
                if open1 {
                    let kids1 = element_rows(a@, a@.len(), q, child_indent(indent), e1);
                    let kids2 = element_rows(a@, a@.len(), q, child_indent(indent), e2);
                    assert(0 < c < r1.len() - 1);
                    assert(r1[c] == kids1[c - 1]);
                    assert(a@.len() == a.len());
                    lemma_element_rows_toggle(a@, a@.len(), q, child_indent(indent), e1, e2, p, c - 1);
                    assert(r2[c] == kids2[c - 1]);
                }
            }
        },
        _ => {},
    }
}

proof fn lemma_member_rows_toggle(
    items: Seq<(String, JsonValue)>,
    total: nat,
    q: Seq<SegView>,
    indent: Seq<char>,
    e1: Set<Seq<SegView>>,
    e2: Set<Seq<SegView>>,
    p: Seq<SegView>,
    c: int,
)
    requires
        members_distinct(items),
        agree_except(e1, e2, p),
        0 <= c < member_rows(items, total, q, indent, e1).len(),
        member_rows(items, total, q, indent, e1)[c].is_container,
        member_rows(items, total, q, indent, e1)[c].path == p,
    ensures
        c < member_rows(items, total, q, indent, e2).len(),
        member_rows(items, total, q, indent, e2)[c].is_container,
        member_rows(items, total, q, indent, e2)[c].path == p,
    decreases items,
{
    let (k, v) = items.last();
    let d = items.drop_last();
    let cp = q.push(SegView::Key(k@));
    let front1 = member_rows(d, total, q, indent, e1);
    let front2 = member_rows(d, total, q, indent, e2);
    let back1 = node_rows(v, cp, indent, items.len() == total, Some(k@), e1);
    let back2 = node_rows(v, cp, indent, items.len() == total, Some(k@), e2);
    let r1 = member_rows(items, total, q, indent, e1);
    let r2 = member_rows(items, total, q, indent, e2);
    assert(r1 == front1 + back1);
    assert(r2 == front2 + back2);
    if c < front1.len() {
        assert(r1[c] == front1[c]);
        lemma_member_rows_toggle(d, total, q, indent, e1, e2, p, c);
        assert(r2[c] == front2[c]);
    } else {
        let c2 = c - front1.len();
        assert(r1[c] == back1[c2]);
        lemma_node_rows_below(v, cp, indent, items.len() == total, Some(k@), e1);
        lemma_step_below(cp, q, p);
        assert forall|j: int| 0 <= j < d.len() implies !(#[trigger] q.push(SegView::Key(d[j].0@))).is_prefix_of(p) by {
            if q.push(SegView::Key(d[j].0@)).is_prefix_of(p) {
                lemma_step_below(q.push(SegView::Key(d[j].0@)), q, p);
                assert(items[j] == d[j]);
                assert(items[j].0@ != items.last().0@);
            }
        }
        lemma_member_rows_agree(d, total, q, indent, e1, e2, p);
        lemma_node_rows_toggle(v, cp, indent, items.len() == total, Some(k@), e1, e2, p, c2);
        assert(r2[c] == back2[c2]);
    }
}

proof fn lemma_element_rows_toggle(
    items: Seq<JsonValue>,
    total: nat,
    q: Seq<SegView>,
    indent: Seq<char>,
    e1: Set<Seq<SegView>>,
    e2: Set<Seq<SegView>>,
    p: Seq<SegView>,
    c: int,
)
    requires
        elements_distinct(items),
        items.len() <= usize::MAX,
        agree_except(e1, e2, p),
        0 <= c < element_rows(items, total, q, indent, e1).len(),
        element_rows(items, total, q, indent, e1)[c].is_container,
        element_rows(items, total, q, indent, e1)[c].path == p,
    ensures
        c < element_rows(items, total, q, indent, e2).len(),
        element_rows(items, total, q, indent, e2)[c].is_container,
        element_rows(items, total, q, indent, e2)[c].path == p,
    decreases items,
{
    let v = items.last();
    let d = items.drop_last();
    let cp = q.push(SegView::Index((items.len() - 1) as usize));
    let front1 = element_rows(d, total, q, indent, e1);
    let front2 = element_rows(d, total, q, indent, e2);
    let back1 = node_rows(v, cp, indent, items.len() == total, None, e1);
    let back2 = node_rows(v, cp, indent, items.len() == total, None, e2);
    let r1 = element_rows(items, total, q, indent, e1);
    let r2 = element_rows(items, total, q, indent, e2);
    assert(r1 == front1 + back1);
    assert(r2 == front2 + back2);
    if c < front1.len() {
        assert(r1[c] == front1[c]);
        lemma_element_rows_toggle(d, total, q, indent, e1, e2, p, c);
        assert(r2[c] == front2[c]);
    } else {
        let c2 = c - front1.len();
        assert(r1[c] == back1[c2]);
        lemma_node_rows_below(v, cp, indent, items.len() == total, None, e1);
        lemma_step_below(cp, q, p);
        assert forall|j: int| 0 <= j < d.len() implies !(#[trigger] q.push(SegView::Index(j as usize))).is_prefix_of(p) by {
            if q.push(SegView::Index(j as usize)).is_prefix_of(p) {
                lemma_step_below(q.push(SegView::Index(j as usize)), q, p);
            }
        }
        lemma_element_rows_agree(d, total, q, indent, e1, e2, p);
        lemma_node_rows_toggle(v, cp, indent, items.len() == total, None, e1, e2, p, c2);
        assert(r2[c] == back2[c2]);
    }
}

/// In a document whose objects have distinct keys, opening or closing one
/// container keeps the row of that container where it was: the row at the
/// same place is a container row with the same path.
pub proof fn lemma_toggle_keeps_row(
    v: JsonValue,
    e1: Set<Seq<SegView>>,
    e2: Set<Seq<SegView>>,
    p: Seq<SegView>,
    c: int,
)
    requires
        keys_distinct(v),
        agree_except(e1, e2, p),
        0 <= c < document_rows(v, e1).len(),
        document_rows(v, e1)[c].is_container,
        document_rows(v, e1)[c].path == p,
    ensures
        c < document_rows(v, e2).len(),
        document_rows(v, e2)[c].is_container,
        document_rows(v, e2)[c].path == p,
{
    lemma_node_rows_toggle(v, Seq::empty(), Seq::empty(), true, None, e1, e2, p, c);
}

/// Pressing `.` twice leaves the browser showing what it showed before, also
/// when a frame is drawn after each press: the set of open containers, the
/// cursor and the rows come back to what they were. The browser shows the
/// rows of the document for its open set, as it does after every frame (see
/// `lemma_session_shows_document`).
pub proof fn lemma_toggle_expand_twice_across_frames(
    data: JsonValue,
    width1: nat,
    height1: nat,
    width2: nat,
    height2: nat,
    s0: Browser,
    s1: Browser,
    s2: Browser,
    s3: Browser,
    s4: Browser,
    a1: ActionView,
    a2: ActionView,
)
    requires
        s0.wf(),
        keys_distinct(data),
        s0.row_views() == document_rows(data, s0.expanded@),
        key_step(s0, s1, Key::Char('.'), a1),
        frame_step(s1, s2, data, width1, height1),
        key_step(s2, s3, Key::Char('.'), a2),
        frame_step(s3, s4, data, width2, height2),
    ensures
        s3.expanded@ == s0.expanded@,
        s3.cursor == s0.cursor,
        s4.expanded@ == s0.expanded@,
        s4.cursor == s0.cursor,
        s4.row_views() == s0.row_views(),
{
    let c = s0.cursor as int;
    let r0 = s0.row_views();
    let p = r0[c].path;
    if r0[c].is_container {
        let e0 = s0.expanded@;
        let e1 = s1.expanded@;
        assert(agree_except(e0, e1, p));
        lemma_toggle_keeps_row(data, e0, e1, p, c);
        assert(s2.cursor == s0.cursor);
        if e0.contains(p) {
            assert(e1.insert(p) =~= e0);
        } else {
            assert(e1.remove(p) =~= e0);
        }
        assert(s3.expanded@ == e0);
    } else {
        assert(s1 == s0);
        assert(s2.row_views() == r0);
        assert(s3 == s2);
    }
}

// ---------------------------------------------------------------------------
// Indentation
// ---------------------------------------------------------------------------

/// `n` spaces.
pub open spec fn spaces(n: nat) -> Seq<char> {
    Seq::new(n, |i: int| ' ')
}

/// Whether the text of `r` starts with two spaces per step of its path.
pub open spec fn indented_by_depth(r: RowView) -> bool {
    &&& 2 * r.path.len() <= r.text.len()
    &&& r.text.subrange(0, 2 * r.path.len() as int) == spaces(2 * r.path.len())
}

/// A text that starts with `indent` keeps it as its prefix.
proof fn lemma_starts_with(indent: Seq<char>, rest: Seq<char>)
    ensures
        (indent + rest).subrange(0, indent.len() as int) == indent,
{
    assert((indent + rest).subrange(0, indent.len() as int) =~= indent);
}

proof fn lemma_node_rows_indent(
    v: JsonValue,
    q: Seq<SegView>,
    indent: Seq<char>,
    is_last: bool,
    key: Option<Seq<char>>,
    e: Set<Seq<SegView>>,
)
    requires
        indent == spaces(2 * q.len()),
    ensures
        forall|i: int|
            0 <= i < node_rows(v, q, indent, is_last, key, e).len() ==> indented_by_depth(
                #[trigger] node_rows(v, q, indent, is_last, key, e)[i],
            ),
    decreases v,
{
    let r = node_rows(v, q, indent, is_last, key, e);
    let ci = child_indent(indent);
    assert(ci =~= spaces(2 * (q.len() + 1)));
    assert forall|i: int| (i == 0 || i == r.len() - 1) && 0 <= i < r.len() implies indented_by_depth(
        #[trigger] r[i],
    ) by {
        assert(r[i].path == q);
        let rest = r[i].text.subrange(indent.len() as int, r[i].text.len() as int);
        assert(r[i].text =~= indent + rest);
        lemma_starts_with(indent, rest);
    }
    match v {
        JsonValue::Object(m) => {
            if q.len() == 0 || e.contains(q) {
                let kids = member_rows(m@, m@.len(), q, ci, e);
                lemma_member_rows_indent(m@, m@.len(), q, ci, e);
                assert forall|i: int| 0 < i < r.len() - 1 implies indented_by_depth(#[trigger] r[i]) by {
                    assert(r[i] == kids[i - 1]);
                }
                assert(r[0].path == q && r[r.len() - 1].path == q);
            }
        },
        JsonValue::Array(a) => {
            if q.len() == 0 || e.contains(q) {
                let kids = element_rows(a@, a@.len(), q, ci, e);
                lemma_element_rows_indent(a@, a@.len(), q, ci, e);
                assert forall|i: int| 0 < i < r.len() - 1 implies indented_by_depth(#[trigger] r[i]) by {
                    assert(r[i] == kids[i - 1]);
                }
                assert(r[0].path == q && r[r.len() - 1].path == q);
            }
        },
        _ => {},
    }
}

proof fn lemma_member_rows_indent(
    items: Seq<(String, JsonValue)>,
    total: nat,
    q: Seq<SegView>,
    indent: Seq<char>,
    e: Set<Seq<SegView>>,
)
    requires
        indent == spaces(2 * (q.len() + 1)),
    ensures
        forall|i: int|
            0 <= i < member_rows(items, total, q, indent, e).len() ==> indented_by_depth(
                #[trigger] member_rows(items, total, q, indent, e)[i],
            ),
    decreases items,
{
    if items.len() > 0 {
        let (k, v) = items.last();
        let cp = q.push(SegView::Key(k@));
        let front = member_rows(items.drop_last(), total, q, indent, e);
        let back = node_rows(v, cp, indent, items.len() == total, Some(k@), e);
        lemma_member_rows_indent(items.drop_last(), total, q, indent, e);
        lemma_node_rows_indent(v, cp, indent, items.len() == total, Some(k@), e);
        let r = member_rows(items, total, q, indent, e);
        assert(r == front + back);
        assert forall|i: int| 0 <= i < r.len() implies indented_by_depth(#[trigger] r[i]) by {
            if i < front.len() {
                assert(r[i] == front[i]);
            } else {
                assert(r[i] == back[i - front.len()]);
            }
        }
    }
}

proof fn lemma_element_rows_indent(
    items: Seq<JsonValue>,
    total: nat,
    q: Seq<SegView>,
    indent: Seq<char>,
    e: Set<Seq<SegView>>,
)
    requires
        indent == spaces(2 * (q.len() + 1)),
    ensures
        forall|i: int|
            0 <= i < element_rows(items, total, q, indent, e).len() ==> indented_by_depth(
                #[trigger] element_rows(items, total, q, indent, e)[i],
            ),
    decreases items,
{
    if items.len() > 0 {
        let cp = q.push(SegView::Index((items.len() - 1) as usize));
        let front = element_rows(items.drop_last(), total, q, indent, e);
        let back = node_rows(items.last(), cp, indent, items.len() == total, None, e);
        lemma_element_rows_indent(items.drop_last(), total, q, indent, e);
        lemma_node_rows_indent(items.last(), cp, indent, items.len() == total, None, e);
        let r = element_rows(items, total, q, indent, e);
        assert(r == front + back);
        assert forall|i: int| 0 <= i < r.len() implies indented_by_depth(#[trigger] r[i]) by {
            if i < front.len() {
                assert(r[i] == front[i]);
            } else {
                assert(r[i] == back[i - front.len()]);
            }
        }
    }
}

/// Every row of a document starts with two spaces per step of its path: a
/// node is indented by its depth in the document.
pub proof fn lemma_document_row_indent(v: JsonValue, e: Set<Seq<SegView>>)
    ensures
        forall|i: int|
            0 <= i < document_rows(v, e).len() ==> indented_by_depth(#[trigger] document_rows(v, e)[i]),
{
    assert(Seq::<char>::empty() =~= spaces(0));
    lemma_node_rows_indent(v, Seq::empty(), Seq::empty(), true, None, e);
}

// ---------------------------------------------------------------------------
// Every row's parent has a row
// ---------------------------------------------------------------------------

proof fn lemma_node_rows_parents(
    v: JsonValue,
    q: Seq<SegView>,
    indent: Seq<char>,
    is_last: bool,
    key: Option<Seq<char>>,
    e: Set<Seq<SegView>>,
)
    ensures
        forall|i: int|
            0 <= i < node_rows(v, q, indent, is_last, key, e).len() && (#[trigger] node_rows(
                v,
                q,
                indent,
                is_last,
                key,
                e,
            )[i]).path.len() > q.len() ==> exists|j: int|
                0 <= j < node_rows(v, q, indent, is_last, key, e).len() && node_rows(
                    v,
                    q,
                    indent,
                    is_last,
                    key,
                    e,
                )[j].path == node_rows(v, q, indent, is_last, key, e)[i].path.drop_last(),
    decreases v,
{
    let r = node_rows(v, q, indent, is_last, key, e);
    lemma_node_rows_nonempty(v, q, indent, is_last, key, e);
    match v {
        JsonValue::Object(m) => {
            if q.len() == 0 || e.contains(q) {
                let kids = member_rows(m@, m@.len(), q, child_indent(indent), e);
                lemma_member_rows_parents(m@, m@.len(), q, child_indent(indent), e);
                lemma_member_rows_below(m@, m@.len(), q, child_indent(indent), e);
                assert forall|i: int| 0 <= i < r.len() && (#[trigger] r[i]).path.len() > q.len() implies exists|j: int|
                    0 <= j < r.len() && r[j].path == r[i].path.drop_last() by {
                    assert(0 < i < r.len() - 1);
                    assert(r[i] == kids[i - 1]);
                    if r[i].path.len() == q.len() + 1 {
                        assert(r[0].path == r[i].path.drop_last());
                    } else {
                        let j = choose|j: int| 0 <= j < kids.len() && (#[trigger] kids[j]).path == kids[i - 1].path.drop_last();
                        assert(r[j + 1] == kids[j]);
                    }
                }
            }
        },
        JsonValue::Array(a) => {
            if q.len() == 0 || e.contains(q) {
                let kids = element_rows(a@, a@.len(), q, child_indent(indent), e);
                lemma_element_rows_parents(a@, a@.len(), q, child_indent(indent), e);
                lemma_element_rows_below(a@, a@.len(), q, child_indent(indent), e);
                assert forall|i: int| 0 <= i < r.len() && (#[trigger] r[i]).path.len() > q.len() implies exists|j: int|
                    0 <= j < r.len() && r[j].path == r[i].path.drop_last() by {
                    assert(0 < i < r.len() - 1);
                    assert(r[i] == kids[i - 1]);
                    if r[i].path.len() == q.len() + 1 {
                        assert(r[0].path == r[i].path.drop_last());
                    } else {
                        let j = choose|j: int| 0 <= j < kids.len() && (#[trigger] kids[j]).path == kids[i - 1].path.drop_last();
                        assert(r[j + 1] == kids[j]);
                    }
                }
            }
        },
        _ => {},
    }
}

/// The path one step below `q` that `path` starts with is `path` itself when
/// `path` is one step longer than `q`.
proof fn lemma_one_below(cp: Seq<SegView>, q: Seq<SegView>, path: Seq<SegView>)
    requires
        cp.len() == q.len() + 1,
        cp.drop_last() == q,
        cp.is_prefix_of(path),
        path.len() == cp.len(),
    ensures
        path.drop_last() == q,
{
    assert(path =~= cp);
}

proof fn lemma_member_rows_parents(
    items: Seq<(String, JsonValue)>,
    total: nat,
    q: Seq<SegView>,
    indent: Seq<char>,
    e: Set<Seq<SegView>>,
)
    ensures
        forall|i: int|
            0 <= i < member_rows(items, total, q, indent, e).len() ==> {
                let path = (#[trigger] member_rows(items, total, q, indent, e)[i]).path;
                &&& path.len() == q.len() + 1 ==> path.drop_last() == q
                &&& path.len() > q.len() + 1 ==> exists|j: int|
                    0 <= j < member_rows(items, total, q, indent, e).len() && member_rows(
                        items,
                        total,
                        q,
                        indent,
                        e,
                    )[j].path == path.drop_last()
            },
    decreases items,
{
    if items.len() > 0 {
        let (k, v) = items.last();
        let cp = q.push(SegView::Key(k@));
        let front = member_rows(items.drop_last(), total, q, indent, e);
        let back = node_rows(v, cp, indent, items.len() == total, Some(k@), e);
        lemma_member_rows_parents(items.drop_last(), total, q, indent, e);
        lemma_node_rows_parents(v, cp, indent, items.len() == total, Some(k@), e);
        lemma_node_rows_below(v, cp, indent, items.len() == total, Some(k@), e);
        let r = member_rows(items, total, q, indent, e);
        assert(r == front + back);
        assert(cp.drop_last() =~= q);
        assert forall|i: int| 0 <= i < r.len() implies {
            let path = (#[trigger] r[i]).path;
            &&& path.len() == q.len() + 1 ==> path.drop_last() == q
            &&& path.len() > q.len() + 1 ==> exists|j: int| 0 <= j < r.len() && r[j].path == path.drop_last()
        } by {
            let path = r[i].path;
            if i < front.len() {
                assert(r[i] == front[i]);
                if path.len() > q.len() + 1 {
                    let j = choose|j: int| 0 <= j < front.len() && (#[trigger] front[j]).path == path.drop_last();
                    assert(r[j] == front[j]);
                }
            } else {
                let b = i - front.len();
                assert(r[i] == back[b]);
                assert(cp.is_prefix_of(path));
                if path.len() == q.len() + 1 {
                    lemma_one_below(cp, q, path);
                } else if path.len() > q.len() + 1 {
                    let j = choose|j: int| 0 <= j < back.len() && (#[trigger] back[j]).path == back[b].path.drop_last();
                    assert(r[front.len() + j] == back[j]);
                }
            }
        }
    }
}

proof fn lemma_element_rows_parents(
    items: Seq<JsonValue>,
    total: nat,
    q: Seq<SegView>,
    indent: Seq<char>,
    e: Set<Seq<SegView>>,
)
    ensures
        forall|i: int|
            0 <= i < element_rows(items, total, q, indent, e).len() ==> {
                let path = (#[trigger] element_rows(items, total, q, indent, e)[i]).path;
                &&& path.len() == q.len() + 1 ==> path.drop_last() == q
                &&& path.len() > q.len() + 1 ==> exists|j: int|
                    0 <= j < element_rows(items, total, q, indent, e).len() && element_rows(
                        items,
                        total,
                        q,
                        indent,
                        e,
                    )[j].path == path.drop_last()
            },
    decreases items,
{
    if items.len() > 0 {
        let v = items.last();
        let cp = q.push(SegView::Index((items.len() - 1) as usize));
        let front = element_rows(items.drop_last(), total, q, indent, e);
        let back = node_rows(v, cp, indent, items.len() == total, None, e);
        lemma_element_rows_parents(items.drop_last(), total, q, indent, e);
        lemma_node_rows_parents(v, cp, indent, items.len() == total, None, e);
        lemma_node_rows_below(v, cp, indent, items.len() == total, None, e);
        let r = element_rows(items, total, q, indent, e);
        assert(r == front + back);
        assert(cp.drop_last() =~= q);
        assert forall|i: int| 0 <= i < r.len() implies {
            let path = (#[trigger] r[i]).path;
            &&& path.len() == q.len() + 1 ==> path.drop_last() == q
            &&& path.len() > q.len() + 1 ==> exists|j: int| 0 <= j < r.len() && r[j].path == path.drop_last()
        } by {
            let path = r[i].path;
            if i < front.len() {
                assert(r[i] == front[i]);
                if path.len() > q.len() + 1 {
                    let j = choose|j: int| 0 <= j < front.len() && (#[trigger] front[j]).path == path.drop_last();
                    assert(r[j] == front[j]);
                }
            } else {
                let b = i - front.len();
                assert(r[i] == back[b]);
                assert(cp.is_prefix_of(path));
                if path.len() == q.len() + 1 {
                    lemma_one_below(cp, q, path);
                } else if path.len() > q.len() + 1 {
                    let j = choose|j: int| 0 <= j < back.len() && (#[trigger] back[j]).path == back[b].path.drop_last();
                    assert(r[front.len() + j] == back[j]);
                }
            }
        }
    }
}

/// Every row of a document below the root has a row for its parent path.
pub proof fn lemma_document_rows_have_parents(v: JsonValue, e: Set<Seq<SegView>>, i: int)
    requires
        0 <= i < document_rows(v, e).len(),
        document_rows(v, e)[i].path.len() >= 1,
    ensures
        exists|j: int|
            0 <= j < document_rows(v, e).len() && document_rows(v, e)[j].path == document_rows(
                v,
                e,
            )[i].path.drop_last(),
{
    lemma_node_rows_parents(v, Seq::empty(), Seq::empty(), true, None, e);
    assert(document_rows(v, e)[i] == node_rows(v, Seq::empty(), Seq::empty(), true, None, e)[i]);
}

/// Where some row from `from` on has path `p`, `first_row_with_path` finds one.
proof fn lemma_first_row_with_path_found(rows: Seq<RowView>, p: Seq<SegView>, from: int, j: int)
    requires
        0 <= from <= j < rows.len(),
        rows[j].path == p,
    ensures
        first_row_with_path(rows, p, from) is Some,
    decreases j - from,
{
    if rows[from].path != p {
        lemma_first_row_with_path_found(rows, p, from + 1, j);
    }
}

/// `h` or Left on a row that is not open and lies below the root moves the
/// cursor to a row of the parent path (the root row for a top-level
/// member), and changes nothing else.
pub proof fn lemma_left_goes_to_parent(data: JsonValue, o: Browser, n: Browser, k: Key, a: ActionView)
    requires
        o.wf(),
        !o.need_rebuild,
        o.row_views() == document_rows(data, o.expanded@),
        k == Key::Char('h') || k == Key::Left,
        key_step(o, n, k, a),
        !o.expanded@.contains(o.cursor_path()),
        o.cursor_path().len() >= 1,
    ensures
        n.cursor < n.rows@.len(),
        n.cursor_path() == o.cursor_path().drop_last(),
        n.rows == o.rows,
        n.expanded == o.expanded,
        n.selected == o.selected,
{
    let rows = o.row_views();
    let p = o.cursor_path();
    lemma_document_rows_have_parents(data, o.expanded@, o.cursor as int);
    let j = choose|j: int| 0 <= j < rows.len() && (#[trigger] rows[j]).path == p.drop_last();
    lemma_first_row_with_path_found(rows, p.drop_last(), 0, j);
    crate::tui::lemma_first_row_with_path(rows, p.drop_last(), 0);
    let i = first_row_with_path(rows, p.drop_last(), 0)->0;
    assert(rows[i].path == p.drop_last());
    assert(rows.len() == o.rows@.len());
    assert(o.rows@.len() == o.rows.len());
    assert(o.row_views()[o.cursor as int] == rows[o.cursor as int]);
    assert(n == Browser { cursor: i as usize, ..o });
    assert(n.row_views() == rows);
    assert(n.cursor == i);
}

} // verus!
