//! The tree view of a JSON document as a list of text rows, and the set of
//! containers a document opens with.
use vstd::prelude::*;
use vstd::string::StringExecFns;
use crate::json::{JsonValue, json_string, json_quote, scalar_text, scalar_json_text, is_container};
use crate::path::{PathSeg, SegView, path_view, copy_path};
use crate::pathset::PathSet;

verus! {

broadcast use vstd::string::group_string_axioms;

/// One line of the tree view.
#[derive(Debug)]
pub struct Row {
    /// The path of the node the line belongs to.
    pub path: Vec<PathSeg>,
    /// The line as shown, indentation included.
    pub text: String,
    /// Whether the line can be selected for extraction.
    pub selectable: bool,
    /// Whether the line opens an object or array (expanded or not).
    pub is_container: bool,
}

/// The value of a row.
pub struct RowView {
    pub path: Seq<SegView>,
    pub text: Seq<char>,
    pub selectable: bool,
    pub is_container: bool,
}

impl View for Row {
    type V = RowView;

    open spec fn view(&self) -> RowView {
        RowView {
            path: path_view(self.path@),
            text: self.text@,
            selectable: self.selectable,
            is_container: self.is_container,
        }
    }
}

/// The values of a list of rows.
pub open spec fn rows_view(rows: Seq<Row>) -> Seq<RowView> {
    rows.map_values(|r: Row| r@)
}

/// The value of an optional key.
pub open spec fn key_view(key: Option<&str>) -> Option<Seq<char>> {
    match key {
        Some(k) => Some(k@),
        None => None,
    }
}

/// `"key": ` for a member of an object, nothing otherwise.
pub open spec fn key_prefix(key: Option<Seq<char>>) -> Seq<char> {
    match key {
        Some(k) => json_string(k) + seq![':', ' '],
        None => Seq::empty(),
    }
}

/// `,` after every member or element but the last.
pub open spec fn comma(is_last: bool) -> Seq<char> {
    if is_last {
        Seq::empty()
    } else {
        seq![',']
    }
}

/// The indentation of the children of a node indented by `indent`.
pub open spec fn child_indent(indent: Seq<char>) -> Seq<char> {
    indent + seq![' ', ' ']
}

/// A row with the given fields.
pub open spec fn row(path: Seq<SegView>, text: Seq<char>, selectable: bool, is_container: bool) -> RowView {
    RowView { path, text, selectable, is_container }
}

/// The rows of `node` at `path`, indented by `indent`, named `key` in its
/// parent object (`None` for the root and for array elements).
///
/// A scalar is one selectable row. A container is shown open when it is the
/// root or its path is in `expanded`: an opening row (selectable when the
/// node is a member of an object, that is when it has a key), the rows of its
/// children one level deeper, and a closing row. A closed container is one
/// selectable row ending in `{...}` or `[...]`.
pub open spec fn node_rows(
    node: JsonValue,
    path: Seq<SegView>,
    indent: Seq<char>,
    is_last: bool,
    key: Option<Seq<char>>,
    expanded: Set<Seq<SegView>>,
) -> Seq<RowView>
    decreases node,
{
    let kp = key_prefix(key);
    let open = path.len() == 0 || expanded.contains(path);
    match node {
        JsonValue::Object(members) => if open {
            seq![row(path, indent + kp + seq!['{'], key is Some, true)] + member_rows(
                members@,
                members@.len(),
                path,
                child_indent(indent),
                expanded,
            ) + seq![row(path, indent + seq!['}'] + comma(is_last), false, false)]
        } else {
            seq![row(path, indent + kp + seq!['{', '.', '.', '.', '}'] + comma(is_last), true, true)]
        },
        JsonValue::Array(elements) => if open {
            seq![row(path, indent + kp + seq!['['], key is Some, true)] + element_rows(
                elements@,
                elements@.len(),
                path,
                child_indent(indent),
                expanded,
            ) + seq![row(path, indent + seq![']'] + comma(is_last), false, false)]
        } else {
            seq![row(path, indent + kp + seq!['[', '.', '.', '.', ']'] + comma(is_last), true, true)]
        },
        _ => seq![row(path, indent + kp + scalar_text(node) + comma(is_last), true, false)],
    }
}

/// The rows of the first `members.len()` of `total` members of an object.
pub open spec fn member_rows(
    members: Seq<(String, JsonValue)>,
    total: nat,
    path: Seq<SegView>,
    indent: Seq<char>,
    expanded: Set<Seq<SegView>>,
) -> Seq<RowView>
    decreases members,
{
    if members.len() == 0 {
        Seq::empty()
    } else {
        let (k, v) = members.last();
        member_rows(members.drop_last(), total, path, indent, expanded) + node_rows(
            v,
            path.push(SegView::Key(k@)),
            indent,
            members.len() == total,
            Some(k@),
            expanded,
        )
    }
}

/// The rows of the first `elements.len()` of `total` elements of an array.
pub open spec fn element_rows(
    elements: Seq<JsonValue>,
    total: nat,
    path: Seq<SegView>,
    indent: Seq<char>,
    expanded: Set<Seq<SegView>>,
) -> Seq<RowView>
    decreases elements,
{
    if elements.len() == 0 {
        Seq::empty()
    } else {
        element_rows(elements.drop_last(), total, path, indent, expanded) + node_rows(
            elements.last(),
            path.push(SegView::Index((elements.len() - 1) as usize)),
            indent,
            elements.len() == total,
            None,
            expanded,
        )
    }
}

/// The rows of a whole document.
pub open spec fn document_rows(value: JsonValue, expanded: Set<Seq<SegView>>) -> Seq<RowView> {
    node_rows(value, Seq::empty(), Seq::empty(), true, None, expanded)
}

/// The paths of all objects and arrays strictly inside `node`, which is at `path`.
pub open spec fn container_paths(node: JsonValue, path: Seq<SegView>) -> Set<Seq<SegView>>
    decreases node,
{
    match node {
        JsonValue::Object(members) => member_container_paths(members@, path),
        JsonValue::Array(elements) => element_container_paths(elements@, path),
        _ => Set::empty(),
    }
}

/// The paths of the containers among and inside the given members.
pub open spec fn member_container_paths(
    members: Seq<(String, JsonValue)>,
    path: Seq<SegView>,
) -> Set<Seq<SegView>>
    decreases members,
{
    if members.len() == 0 {
        Set::empty()
    } else {
        let (k, v) = members.last();
        let cp = path.push(SegView::Key(k@));
        member_container_paths(members.drop_last(), path) + if is_container(v) {
            set![cp] + container_paths(v, cp)
        } else {
            Set::empty()
        }
    }
}

/// The paths of the containers among and inside the given elements.
pub open spec fn element_container_paths(elements: Seq<JsonValue>, path: Seq<SegView>) -> Set<
    Seq<SegView>,
>
    decreases elements,
{
    if elements.len() == 0 {
        Set::empty()
    } else {
        let v = elements.last();
        let cp = path.push(SegView::Index((elements.len() - 1) as usize));
        element_container_paths(elements.drop_last(), path) + if is_container(v) {
            set![cp] + container_paths(v, cp)
        } else {
            Set::empty()
        }
    }
}

/// The text of a row: `indent`, `pre`, `mid` and `post` written in turn.
fn row_text(indent: &String, pre: &String, mid: &str, post: &str) -> (res: String)
    ensures
        res@ == indent@ + pre@ + mid@ + post@,
{
    let mut t = indent.clone();
    t.append(pre.as_str());
    t.append(mid);
    t.append(post);
    t
}

/// Appends one row.
fn push_row(rows: &mut Vec<Row>, r: Row)
    ensures
        rows_view(final(rows)@) == rows_view(old(rows)@).push(r@),
{
    rows.push(r);
    assert(rows_view(rows@) =~= rows_view(old(rows)@).push(r@));
}

/// Appends the rows of the members of the object `node` (see `member_rows`).
fn render_members(
    node: &JsonValue,
    members: &Vec<(String, JsonValue)>,
    path: &Vec<PathSeg>,
    inner: &String,
    rows: &mut Vec<Row>,
    expanded: &PathSet,
)
    requires
        *node == JsonValue::Object(*members),
    ensures
        rows_view(final(rows)@) == rows_view(old(rows)@) + member_rows(
            members@,
            members@.len(),
            path_view(path@),
            inner@,
            expanded.view(),
        ),
    decreases node, 0nat,
{
    let ghost start = rows_view(rows@);
    let ghost pv = path_view(path@);
    let n = members.len();
    let mut i: usize = 0;
    assert(members@.take(0) =~= Seq::<(String, JsonValue)>::empty());
    assert(start + Seq::<RowView>::empty() =~= start);
    while i < n
        invariant
            i <= n == members@.len(),
            *node == JsonValue::Object(*members),
            pv == path_view(path@),
            rows_view(rows@) == start + member_rows(
                members@.take(i as int),
                n as nat,
                pv,
                inner@,
                expanded.view(),
            ),
        decreases n - i,
    {
        let item = &members[i];
        let mut cp = copy_path(path.as_slice());
        cp.push(PathSeg::String(item.0.clone()));
        proof {
            assert(path_view(cp@) =~= pv.push(SegView::Key(item.0@)));
            assert(members@.take(i + 1).drop_last() =~= members@.take(i as int));
            assert(members@.take(i + 1).last() == *item);
            assert(decreases_to!(*node => node->Object_0));
            assert(decreases_to!(*members => members@));
            assert(decreases_to!(members@ => members@[i as int]));
            assert(decreases_to!(members@[i as int] => members@[i as int].1));
        }
        render(&item.1, cp, inner, i == n - 1, Some(item.0.as_str()), rows, expanded);
        i = i + 1;
    }
    assert(members@.take(n as int) =~= members@);
}

/// Appends the rows of the elements of the array `node` (see `element_rows`).
fn render_elements(
    node: &JsonValue,
    elements: &Vec<JsonValue>,
    path: &Vec<PathSeg>,
    inner: &String,
    rows: &mut Vec<Row>,
    expanded: &PathSet,
)
    requires
        *node == JsonValue::Array(*elements),
    ensures
        rows_view(final(rows)@) == rows_view(old(rows)@) + element_rows(
            elements@,
            elements@.len(),
            path_view(path@),
            inner@,
            expanded.view(),
        ),
    decreases node, 0nat,
{
    let ghost start = rows_view(rows@);
    let ghost pv = path_view(path@);
    let n = elements.len();
    let mut i: usize = 0;
    assert(elements@.take(0) =~= Seq::<JsonValue>::empty());
    assert(start + Seq::<RowView>::empty() =~= start);
    while i < n
        invariant
            i <= n == elements@.len(),
            *node == JsonValue::Array(*elements),
            pv == path_view(path@),
            rows_view(rows@) == start + element_rows(
                elements@.take(i as int),
                n as nat,
                pv,
                inner@,
                expanded.view(),
            ),
        decreases n - i,
    {
        let mut cp = copy_path(path.as_slice());
        cp.push(PathSeg::Index(i));
        proof {
            assert(path_view(cp@) =~= pv.push(SegView::Index(i)));
            assert(elements@.take(i + 1).drop_last() =~= elements@.take(i as int));
            assert(decreases_to!(*node => node->Array_0));
            assert(decreases_to!(*elements => elements@));
            assert(decreases_to!(elements@ => elements@[i as int]));
        }
        render(&elements[i], cp, inner, i == n - 1, None, rows, expanded);
        i = i + 1;
    }
    assert(elements@.take(n as int) =~= elements@);
}

/// Appends the rows of `node` to `rows` (see `node_rows`).
fn render(
    node: &JsonValue,
    path: Vec<PathSeg>,
    indent: &String,
    is_last: bool,
    key: Option<&str>,
    rows: &mut Vec<Row>,
    expanded: &PathSet,
)
    ensures
        rows_view(final(rows)@) == rows_view(old(rows)@) + node_rows(
            *node,
            path_view(path@),
            indent@,
            is_last,
            key_view(key),
            expanded.view(),
        ),
    decreases node, 1nat,
{
    let ghost start = rows_view(rows@);
    let ghost pv = path_view(path@);
    let kp = match key {
        Some(k) => {
            let mut q = json_quote(k);
            q.append(": ");
            proof {
                reveal_strlit(": ");
            }
            q
        },
        None => String::new(),
    };
    assert(kp@ == key_prefix(key_view(key)));
    let comma_text: &str = if is_last {
        ""
    } else {
        ","
    };
    proof {
        reveal_strlit("");
        reveal_strlit(",");
    }
    assert(comma_text@ == comma(is_last));
    let open = path.len() == 0 || expanded.contains(path.as_slice());
    match node {
        JsonValue::Object(members) => {
            if open {
                let first = Row {
                    path: copy_path(path.as_slice()),
                    text: row_text(indent, &kp, "{", ""),
                    selectable: key.is_some(),
                    is_container: true,
                };
                proof {
                    reveal_strlit("{");
                    assert(first@.text =~= indent@ + kp@ + seq!['{']);
                    assert(first@.path == pv);
                }
                push_row(rows, first);
                let mut inner = indent.clone();
                inner.append("  ");
                proof {
                    reveal_strlit("  ");
                    assert(inner@ =~= child_indent(indent@));
                    assert(rows_view(rows@) =~= start + seq![row(pv, indent@ + kp@ + seq!['{'], key_view(key) is Some, true)]);
                }
                render_members(node, members, &path, &inner, rows, expanded);
                let last = Row {
                    path: path,
                    text: row_text(indent, &String::new(), "}", comma_text),
                    selectable: false,
                    is_container: false,
                };
                proof {
                    reveal_strlit("}");
                    assert(last@.text =~= indent@ + seq!['}'] + comma(is_last));
                }
                let ghost before_close = rows_view(rows@);
                push_row(rows, last);
                proof {
                    let kv = key_view(key);
                    let open_row = row(pv, indent@ + key_prefix(kv) + seq!['{'], kv is Some, true);
                    let close_row = row(pv, indent@ + seq!['}'] + comma(is_last), false, false);
                    let kids = member_rows(members@, members@.len(), pv, child_indent(indent@), expanded.view());
                    assert(node_rows(*node, pv, indent@, is_last, kv, expanded.view()) == seq![open_row]
                        + kids + seq![close_row]);
                    assert(before_close == start + seq![open_row] + kids);
                    assert(rows_view(rows@) =~= start + node_rows(*node, pv, indent@, is_last, kv, expanded.view()));
                }
            } else {
                let r = Row {
                    path: path,
                    text: row_text(indent, &kp, "{...}", comma_text),
                    selectable: true,
                    is_container: true,
                };
                proof {
                    reveal_strlit("{...}");
                    assert(r@.text =~= indent@ + kp@ + seq!['{', '.', '.', '.', '}'] + comma(is_last));
                }
                push_row(rows, r);
                assert(rows_view(rows@) =~= start + node_rows(*node, pv, indent@, is_last, key_view(key), expanded.view()));
            }
        },
        JsonValue::Array(elements) => {
            if open {
                let first = Row {
                    path: copy_path(path.as_slice()),
                    text: row_text(indent, &kp, "[", ""),
                    selectable: key.is_some(),
                    is_container: true,
                };
                proof {
                    reveal_strlit("[");
                    assert(first@.text =~= indent@ + kp@ + seq!['[']);
                    assert(first@.path == pv);
                }
                push_row(rows, first);
                let mut inner = indent.clone();
                inner.append("  ");
                proof {
                    reveal_strlit("  ");
                    assert(inner@ =~= child_indent(indent@));
                    assert(rows_view(rows@) =~= start + seq![row(pv, indent@ + kp@ + seq!['['], key_view(key) is Some, true)]);
                }
                render_elements(node, elements, &path, &inner, rows, expanded);
                let last = Row {
                    path: path,
                    text: row_text(indent, &String::new(), "]", comma_text),
                    selectable: false,
                    is_container: false,
                };
                proof {
                    reveal_strlit("]");
                    assert(last@.text =~= indent@ + seq![']'] + comma(is_last));
                }
                let ghost before_close = rows_view(rows@);
                push_row(rows, last);
                proof {
                    let kv = key_view(key);
                    let open_row = row(pv, indent@ + key_prefix(kv) + seq!['['], kv is Some, true);
                    let close_row = row(pv, indent@ + seq![']'] + comma(is_last), false, false);
                    let kids = element_rows(elements@, elements@.len(), pv, child_indent(indent@), expanded.view());
                    assert(node_rows(*node, pv, indent@, is_last, kv, expanded.view()) == seq![open_row]
                        + kids + seq![close_row]);
                    assert(before_close == start + seq![open_row] + kids);
                    assert(rows_view(rows@) =~= start + node_rows(*node, pv, indent@, is_last, kv, expanded.view()));
                }
            } else {
                let r = Row {
                    path: path,
                    text: row_text(indent, &kp, "[...]", comma_text),
                    selectable: true,
                    is_container: true,
                };
                proof {
                    reveal_strlit("[...]");
                    assert(r@.text =~= indent@ + kp@ + seq!['[', '.', '.', '.', ']'] + comma(is_last));
                }
                push_row(rows, r);
                assert(rows_view(rows@) =~= start + node_rows(*node, pv, indent@, is_last, key_view(key), expanded.view()));
            }
        },
        _ => {
            let value_text = scalar_json_text(node);
            let r = Row {
                path: path,
                text: row_text(indent, &kp, value_text.as_str(), comma_text),
                selectable: true,
                is_container: false,
            };
            push_row(rows, r);
            assert(rows_view(rows@) =~= start + node_rows(*node, pv, indent@, is_last, key_view(key), expanded.view()));
        },
    }
}

/// The rows of the tree view of `value`, with the root and the containers
/// whose paths are in `expanded` shown open.
pub fn build_rows(value: &JsonValue, expanded: &PathSet) -> (rows: Vec<Row>)
    ensures
        rows_view(rows@) == document_rows(*value, expanded.view()),
        rows@.len() >= 1,
{
    let mut rows: Vec<Row> = Vec::new();
    let indent = String::new();
    render(value, Vec::new(), &indent, true, None, &mut rows, expanded);
    assert(rows_view(Seq::<Row>::empty()) =~= Seq::<RowView>::empty());
    assert(path_view(Seq::<PathSeg>::empty()) =~= Seq::<SegView>::empty());
    proof {
        lemma_node_rows_nonempty(*value, Seq::empty(), Seq::empty(), true, None, expanded.view());
    }
    rows
}

/// A node always gives at least one row.
pub proof fn lemma_node_rows_nonempty(
    node: JsonValue,
    path: Seq<SegView>,
    indent: Seq<char>,
    is_last: bool,
    key: Option<Seq<char>>,
    expanded: Set<Seq<SegView>>,
)
    ensures
        node_rows(node, path, indent, is_last, key, expanded).len() >= 1,
        node_rows(node, path, indent, is_last, key, expanded)[0].path == path,
{
}

/// Adds to `expanded` the path of every object and array strictly inside `v`,
/// which is at path `p`.
pub fn expand_all(v: &JsonValue, p: Vec<PathSeg>, expanded: &mut PathSet)
    requires
        old(expanded).wf(),
    ensures
        final(expanded).wf(),
        final(expanded).view() == old(expanded).view() + container_paths(*v, path_view(p@)),
    decreases v,
{
    let ghost pv = path_view(p@);
    let ghost start = expanded.view();
    match v {
        JsonValue::Object(members) => {
            let n = members.len();
            let mut i: usize = 0;
            assert(members@.take(0) =~= Seq::<(String, JsonValue)>::empty());
            assert(start + Set::empty() =~= start);
            while i < n
                invariant
                    i <= n == members@.len(),
                    *v == JsonValue::Object(*members),
                    pv == path_view(p@),
                    expanded.wf(),
                    expanded.view() == start + member_container_paths(members@.take(i as int), pv),
                decreases n - i,
            {
                let item = &members[i];
                let mut cp = copy_path(p.as_slice());
                cp.push(PathSeg::String(item.0.clone()));
                let ghost before = expanded.view();
                proof {
                    assert(path_view(cp@) =~= pv.push(SegView::Key(item.0@)));
                    assert(members@.take(i + 1).drop_last() =~= members@.take(i as int));
                    assert(members@.take(i + 1).last() == *item);
                }
                match &item.1 {
                    JsonValue::Object(_) | JsonValue::Array(_) => {
                        expanded.insert(cp.as_slice());
                        proof {
                            assert(decreases_to!(*v => v->Object_0));
                            assert(decreases_to!(*members => members@));
                            assert(decreases_to!(members@ => members@[i as int]));
                            assert(decreases_to!(members@[i as int] => members@[i as int].1));
                        }
                        expand_all(&item.1, cp, expanded);
                        assert(expanded.view() =~= before + (set![pv.push(SegView::Key(item.0@))]
                            + container_paths(item.1, pv.push(SegView::Key(item.0@)))));
                    },
                    _ => {
                        assert(before + Set::empty() =~= before);
                    },
                }
                i = i + 1;
            }
            assert(members@.take(n as int) =~= members@);
        },
        JsonValue::Array(elements) => {
            let n = elements.len();
            let mut i: usize = 0;
            assert(elements@.take(0) =~= Seq::<JsonValue>::empty());
            assert(start + Set::empty() =~= start);
            while i < n
                invariant
                    i <= n == elements@.len(),
                    *v == JsonValue::Array(*elements),
                    pv == path_view(p@),
                    expanded.wf(),
                    expanded.view() == start + element_container_paths(elements@.take(i as int), pv),
                decreases n - i,
            {
                let mut cp = copy_path(p.as_slice());
                cp.push(PathSeg::Index(i));
                let ghost before = expanded.view();
                proof {
                    assert(path_view(cp@) =~= pv.push(SegView::Index(i)));
                    assert(elements@.take(i + 1).drop_last() =~= elements@.take(i as int));
                }
                match &elements[i] {
                    JsonValue::Object(_) | JsonValue::Array(_) => {
                        expanded.insert(cp.as_slice());
                        proof {
                            assert(decreases_to!(*v => v->Array_0));
                            assert(decreases_to!(*elements => elements@));
                            assert(decreases_to!(elements@ => elements@[i as int]));
                        }
                        expand_all(&elements[i], cp, expanded);
                        assert(expanded.view() =~= before + (set![pv.push(SegView::Index(i))]
                            + container_paths(elements@[i as int], pv.push(SegView::Index(i)))));
                    },
                    _ => {
                        assert(before + Set::empty() =~= before);
                    },
                }
                i = i + 1;
            }
            assert(elements@.take(n as int) =~= elements@);
        },
        _ => {
            assert(start + Set::empty() =~= start);
        },
    }
}

} // verus!
