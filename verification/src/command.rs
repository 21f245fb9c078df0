//! The `jq` filter and shell command that extract a chosen set of paths.
use vstd::prelude::*;
use vstd::string::StringExecFns;
use crate::json::{json_string, json_quote};
use crate::path::{PathSeg, SegView, path_eq, jq_path, path_to_jq_all_arrays, copy_path};
use crate::pathset::paths_view;
use crate::text::{push_char, occurs_at, has_substring};

verus! {

broadcast use vstd::string::group_string_axioms;

/// How a character is written inside a single-quoted shell word: a single
/// quote closes the quoting, is written inside double quotes, and reopens it.
pub open spec fn shell_escape_char(c: char) -> Seq<char> {
    if c == '\'' {
        seq!['\'', '"', '\'', '"', '\'']
    } else {
        seq![c]
    }
}

/// `s` with every character written as `shell_escape_char` writes it.
pub open spec fn shell_escape(s: Seq<char>) -> Seq<char>
    decreases s.len(),
{
    if s.len() == 0 {
        Seq::empty()
    } else {
        shell_escape(s.drop_last()) + shell_escape_char(s.last())
    }
}

/// `s` as one single-quoted shell word.
pub open spec fn shell_quoted(s: Seq<char>) -> Seq<char> {
    seq!['\''] + shell_escape(s) + seq!['\'']
}

/// `s` without repetitions: each element where it first occurs.
pub open spec fn dedup<T>(s: Seq<T>) -> Seq<T>
    decreases s.len(),
{
    if s.len() == 0 {
        Seq::empty()
    } else {
        let d = dedup(s.drop_last());
        if d.contains(s.last()) {
            d
        } else {
            d.push(s.last())
        }
    }
}

/// The parts written one after another with `sep` between each two.
pub open spec fn join(parts: Seq<Seq<char>>, sep: Seq<char>) -> Seq<char>
    decreases parts.len(),
{
    if parts.len() == 0 {
        Seq::empty()
    } else if parts.len() == 1 {
        parts[0]
    } else {
        join(parts.drop_last(), sep) + sep + parts.last()
    }
}

/// The distinct filters, with every index written `[]`, of the distinct
/// picked paths, in the order in which they were first picked.
pub open spec fn picked_filters(picked: Seq<Seq<SegView>>) -> Seq<Seq<char>> {
    dedup(dedup(picked).map_values(|p: Seq<SegView>| jq_path(p, true)))
}

/// One member of the object the filter builds: the filter's text as a JSON
/// string, then `: ` and the filter.
pub open spec fn filter_entry(f: Seq<char>) -> Seq<char> {
    json_string(f) + seq![':', ' '] + f
}

/// The jq filter that builds an object with one member per distinct filter:
/// `{ "<f1>": <f1>, "<f2>": <f2> }`.
pub open spec fn object_filter(picked: Seq<Seq<SegView>>) -> Seq<char> {
    seq!['{', ' '] + join(picked_filters(picked).map_values(|f: Seq<char>| filter_entry(f)), seq![',', ' '])
        + seq![' ', '}']
}

/// The shell command that runs `filter`, on the file `in_path` when that is
/// not empty (on standard input otherwise).
pub open spec fn jq_command(filter: Seq<char>, in_path: Seq<char>) -> Seq<char> {
    seq!['j', 'q', ' '] + shell_quoted(filter) + if in_path.len() > 0 {
        seq![' '] + shell_quoted(in_path)
    } else {
        Seq::empty()
    }
}

/// `s` as one single-quoted shell word: `'`, `s` with each `'` written as
/// `'"'"'`, then `'`.
pub fn shell_single_quote(s: &str) -> (res: String)
    ensures
        res@ == shell_quoted(s@),
{
    let cs = crate::text::chars_of(s);
    let mut out = String::new();
    push_char(&mut out, '\'');
    let ghost start = out@;
    let mut i: usize = 0;
    assert(s@.take(0) =~= Seq::<char>::empty());
    while i < cs.len()
        invariant
            i <= cs@.len(),
            cs@ == s@,
            start == seq!['\''],
            out@ == start + shell_escape(s@.take(i as int)),
        decreases cs.len() - i,
    {
        let c = cs[i];
        let ghost before = out@;
        if c == '\'' {
            push_char(&mut out, '\'');
            push_char(&mut out, '"');
            push_char(&mut out, '\'');
            push_char(&mut out, '"');
            push_char(&mut out, '\'');
            assert(out@ =~= before + seq!['\'', '"', '\'', '"', '\'']);
        } else {
            push_char(&mut out, c);
            assert(out@ =~= before + seq![c]);
        }
        assert(s@.take(i + 1).drop_last() =~= s@.take(i as int));
        assert(out@ =~= start + shell_escape(s@.take(i + 1)));
        i = i + 1;
    }
    assert(s@.take(s@.len() as int) =~= s@);
    push_char(&mut out, '\'');
    assert(out@ =~= shell_quoted(s@));
    out
}

/// Every element of `s` is in `dedup(s)` and nothing else is.
pub proof fn lemma_dedup_contains<T>(s: Seq<T>, x: T)
    ensures
        dedup(s).contains(x) == s.contains(x),
    decreases s.len(),
{
    if s.len() > 0 {
        lemma_dedup_contains(s.drop_last(), x);
        let d = dedup(s.drop_last());
        if s.contains(x) && x != s.last() {
            let i = choose|i: int| 0 <= i < s.len() && s[i] == x;
            assert(s.drop_last()[i] == x);
        }
        if s.drop_last().contains(x) {
            let i = choose|i: int| 0 <= i < s.drop_last().len() && s.drop_last()[i] == x;
            assert(s[i] == x);
        }
        if !d.contains(s.last()) {
            if d.push(s.last()).contains(x) && x != s.last() {
                let i = choose|i: int| 0 <= i < d.push(s.last()).len() && d.push(s.last())[i] == x;
                assert(d[i] == x);
            }
            if x == s.last() {
                assert(d.push(s.last())[d.len() as int] == x);
            }
            if d.contains(x) {
                let i = choose|i: int| 0 <= i < d.len() && d[i] == x;
                assert(d.push(s.last())[i] == x);
            }
        }
        if x == s.last() {
            assert(s[s.len() - 1] == x);
        }
    }
}

/// Picking a path again that was already picked changes neither the filter
/// nor the command.
pub proof fn lemma_repick_no_change(picked: Seq<Seq<SegView>>, p: Seq<SegView>)
    requires
        picked.contains(p),
    ensures
        object_filter(picked.push(p)) == object_filter(picked),
{
    lemma_dedup_contains(picked, p);
    assert(picked.push(p).drop_last() =~= picked);
    assert(dedup(picked.push(p)) == dedup(picked));
}

/// Adding to a list only elements it already holds leaves its repetition-free
/// form as it was.
pub proof fn lemma_dedup_append_known<T>(a: Seq<T>, b: Seq<T>)
    requires
        forall|i: int| 0 <= i < b.len() ==> a.contains(#[trigger] b[i]),
    ensures
        dedup(a + b) == dedup(a),
    decreases b.len(),
{
    if b.len() == 0 {
        assert(a + b =~= a);
    } else {
        lemma_dedup_append_known(a, b.drop_last());
        assert((a + b).drop_last() =~= a + b.drop_last());
        assert((a + b).last() == b.last());
        assert(a.contains(b[b.len() - 1]));
        lemma_dedup_contains(a + b.drop_last(), b.last());
        assert((a + b.drop_last()).contains(b.last())) by {
            let i = choose|i: int| 0 <= i < a.len() && a[i] == b.last();
            assert((a + b.drop_last())[i] == b.last());
        }
    }
}

/// `dedup` leaves no element twice.
pub proof fn lemma_dedup_no_duplicates<T>(s: Seq<T>)
    ensures
        dedup(s).no_duplicates(),
    decreases s.len(),
{
    if s.len() > 0 {
        lemma_dedup_no_duplicates(s.drop_last());
    }
}

/// Picking every path twice gives the same filter and the same command, and
/// the filters that become the object's keys are pairwise distinct.
pub proof fn lemma_pick_all_twice(picked: Seq<Seq<SegView>>, in_path: Seq<char>)
    ensures
        object_filter(picked + picked) == object_filter(picked),
        jq_command(object_filter(picked + picked), in_path) == jq_command(object_filter(picked), in_path),
        picked_filters(picked).no_duplicates(),
{
    assert forall|i: int| 0 <= i < picked.len() implies picked.contains(#[trigger] picked[i]) by {}
    lemma_dedup_append_known(picked, picked);
    lemma_dedup_no_duplicates(picked.map_values(|p: Seq<SegView>| jq_path(p, true)));
    lemma_dedup_no_duplicates(dedup(picked).map_values(|p: Seq<SegView>| jq_path(p, true)));
}

/// A text found in `a` is found at the same place in `a + b`.
proof fn lemma_occurs_before(a: Seq<char>, b: Seq<char>, needle: Seq<char>, i: int)
    requires
        occurs_at(a, needle, i),
    ensures
        occurs_at(a + b, needle, i),
{
    assert((a + b).subrange(i, i + needle.len()) =~= a.subrange(i, i + needle.len()));
}

/// A text found in `b` is found in `a + b`, shifted by the length of `a`.
proof fn lemma_occurs_after(a: Seq<char>, b: Seq<char>, needle: Seq<char>, i: int)
    requires
        occurs_at(b, needle, i),
    ensures
        occurs_at(a + b, needle, a.len() + i),
{
    assert((a + b).subrange(a.len() + i, a.len() + i + needle.len()) =~= b.subrange(i, i + needle.len()));
}

/// Every part of a joined text occurs in it.
proof fn lemma_join_holds_part(parts: Seq<Seq<char>>, sep: Seq<char>, k: int)
    requires
        0 <= k < parts.len(),
    ensures
        has_substring(join(parts, sep), parts[k]),
    decreases parts.len(),
{
    if parts.len() == 1 {
        assert(occurs_at(join(parts, sep), parts[k], 0)) by {
            assert(join(parts, sep).subrange(0, parts[0].len() as int) =~= parts[0]);
        }
    } else if k == parts.len() - 1 {
        let front = join(parts.drop_last(), sep) + sep;
        assert(occurs_at(parts.last(), parts[k], 0)) by {
            assert(parts.last().subrange(0, parts.last().len() as int) =~= parts.last());
        }
        lemma_occurs_after(front, parts.last(), parts[k], 0);
    } else {
        lemma_join_holds_part(parts.drop_last(), sep, k);
        let i = choose|i: int| occurs_at(join(parts.drop_last(), sep), parts.drop_last()[k], i);
        lemma_occurs_before(join(parts.drop_last(), sep), sep + parts.last(), parts[k], i);
        assert(join(parts.drop_last(), sep) + (sep + parts.last()) =~= join(parts, sep));
    }
}

/// The object the filter builds has a member for every picked path: its
/// all-arrays filter as a JSON string, `: `, and the filter itself.
pub proof fn lemma_filter_has_every_pick(picked: Seq<Seq<SegView>>, p: Seq<SegView>)
    requires
        picked.contains(p),
    ensures
        has_substring(object_filter(picked), json_string(jq_path(p, true)) + seq![':', ' '] + jq_path(p, true)),
{
    let f = jq_path(p, true);
    let d = dedup(picked);
    lemma_dedup_contains(picked, p);
    let j = choose|j: int| 0 <= j < d.len() && d[j] == p;
    let mapped = d.map_values(|q: Seq<SegView>| jq_path(q, true));
    assert(mapped[j] == f);
    assert(mapped.contains(f));
    lemma_dedup_contains(mapped, f);
    let fs = picked_filters(picked);
    let k = choose|k: int| 0 <= k < fs.len() && fs[k] == f;
    let entries = fs.map_values(|g: Seq<char>| filter_entry(g));
    assert(entries[k] == filter_entry(f));
    lemma_join_holds_part(entries, seq![',', ' '], k);
    let body = join(entries, seq![',', ' ']);
    let i = choose|i: int| occurs_at(body, entries[k], i);
    lemma_occurs_after(seq!['{', ' '], body, entries[k], i);
    lemma_occurs_before(seq!['{', ' '] + body, seq![' ', '}'], entries[k], 2 + i);
}

/// Appends `s` to `out`.
fn append_string(out: &mut String, s: &String)
    ensures
        final(out)@ == old(out)@ + s@,
{
    out.append(s.as_str());
}

/// The jq filter that builds an object with one member per distinct picked
/// path, and the shell command that runs it (on `in_path` when that is not
/// empty). Both are empty when nothing is picked.
pub fn generate_jq_command(picked: &[Vec<PathSeg>], in_path: &str) -> (res: (String, String))
    ensures
        picked@.len() == 0 ==> res.0@.len() == 0 && res.1@.len() == 0,
        picked@.len() > 0 ==> res.0@ == object_filter(paths_view(picked@)),
        picked@.len() > 0 ==> res.1@ == jq_command(res.0@, in_path@),
{
    if picked.len() == 0 {
        return (String::new(), String::new());
    }
    let ghost pv = paths_view(picked@);
    // the distinct paths, in order of first occurrence
    let mut unique_paths: Vec<Vec<PathSeg>> = Vec::new();
    let mut i: usize = 0;
    assert(pv.take(0) =~= Seq::<Seq<SegView>>::empty());
    while i < picked.len()
        invariant
            i <= picked@.len(),
            pv == paths_view(picked@),
            paths_view(unique_paths@) == dedup(pv.take(i as int)),
        decreases picked.len() - i,
    {
        let ghost u = paths_view(unique_paths@);
        let mut found = false;
        let mut j: usize = 0;
        while j < unique_paths.len()
            invariant
                j <= unique_paths@.len(),
                u == paths_view(unique_paths@),
                found ==> u.contains(pv[i as int]),
                !found ==> forall|k: int| 0 <= k < j ==> u[k] != pv[i as int],
                i < picked@.len(),
                pv == paths_view(picked@),
            decreases unique_paths.len() - j,
        {
            if path_eq(unique_paths[j].as_slice(), picked[i].as_slice()) {
                assert(u[j as int] == pv[i as int]);
                found = true;
            }
            j = j + 1;
        }
        assert(found == u.contains(pv[i as int]));
        assert(pv.take(i + 1).drop_last() =~= pv.take(i as int));
        if !found {
            let c = copy_path(picked[i].as_slice());
            unique_paths.push(c);
            assert(paths_view(unique_paths@) =~= u.push(pv[i as int]));
        }
        i = i + 1;
    }
    assert(pv.take(pv.len() as int) =~= pv);
    let ghost up = paths_view(unique_paths@);
    let ghost mapped = up.map_values(|p: Seq<SegView>| jq_path(p, true));
    // the distinct filters of the distinct paths
    let mut normalized: Vec<String> = Vec::new();
    let mut i: usize = 0;
    assert(mapped.take(0) =~= Seq::<Seq<char>>::empty());
    while i < unique_paths.len()
        invariant
            i <= unique_paths@.len(),
            up == paths_view(unique_paths@),
            mapped == up.map_values(|p: Seq<SegView>| jq_path(p, true)),
            normalized@.map_values(|s: String| s@) == dedup(mapped.take(i as int)),
        decreases unique_paths.len() - i,
    {
        let njq = path_to_jq_all_arrays(unique_paths[i].as_slice());
        let ghost u = normalized@.map_values(|s: String| s@);
        let mut found = false;
        let mut j: usize = 0;
        while j < normalized.len()
            invariant
                j <= normalized@.len(),
                u == normalized@.map_values(|s: String| s@),
                found ==> u.contains(njq@),
                !found ==> forall|k: int| 0 <= k < j ==> u[k] != njq@,
            decreases normalized.len() - j,
        {
            if normalized[j].eq(&njq) {
                assert(u[j as int] == njq@);
                found = true;
            }
            j = j + 1;
        }
        assert(njq@ == mapped[i as int]);
        assert(found == u.contains(mapped[i as int]));
        assert(mapped.take(i + 1).drop_last() =~= mapped.take(i as int));
        if !found {
            normalized.push(njq);
            assert(normalized@.map_values(|s: String| s@) =~= u.push(mapped[i as int]));
        }
        i = i + 1;
    }
    assert(mapped.take(mapped.len() as int) =~= mapped);
    let ghost nv = normalized@.map_values(|s: String| s@);
    assert(nv == picked_filters(pv));
    let ghost entries = nv.map_values(|f: Seq<char>| filter_entry(f));
    // { "<f>": <f>, ... }
    let mut filter = String::new();
    push_char(&mut filter, '{');
    push_char(&mut filter, ' ');
    let ghost start = filter@;
    let mut k: usize = 0;
    assert(entries.take(0) =~= Seq::<Seq<char>>::empty());
    while k < normalized.len()
        invariant
            k <= normalized@.len(),
            nv == normalized@.map_values(|s: String| s@),
            entries == nv.map_values(|f: Seq<char>| filter_entry(f)),
            start == seq!['{', ' '],
            filter@ == start + join(entries.take(k as int), seq![',', ' ']),
        decreases normalized.len() - k,
    {
        let ghost before = filter@;
        if k > 0 {
            push_char(&mut filter, ',');
            push_char(&mut filter, ' ');
        }
        let q = json_quote(normalized[k].as_str());
        append_string(&mut filter, &q);
        push_char(&mut filter, ':');
        push_char(&mut filter, ' ');
        append_string(&mut filter, &normalized[k]);
        proof {
            let e = entries[k as int];
            assert(e == filter_entry(nv[k as int]));
            assert(entries.take(k + 1).drop_last() =~= entries.take(k as int));
            if k > 0 {
                assert(filter@ =~= before + seq![',', ' '] + e);
            } else {
                assert(filter@ =~= before + e);
                assert(entries.take(1) =~= seq![e]);
            }
            assert(filter@ =~= start + join(entries.take(k + 1), seq![',', ' ']));
        }
        k = k + 1;
    }
    assert(entries.take(entries.len() as int) =~= entries);
    push_char(&mut filter, ' ');
    push_char(&mut filter, '}');
    assert(filter@ =~= object_filter(pv));
    // jq '<filter>' ['<in_path>']
    let mut cmd = String::new();
    push_char(&mut cmd, 'j');
    push_char(&mut cmd, 'q');
    push_char(&mut cmd, ' ');
    let qf = shell_single_quote(filter.as_str());
    append_string(&mut cmd, &qf);
    if !in_path.is_empty() {
        push_char(&mut cmd, ' ');
        let qp = shell_single_quote(in_path);
        append_string(&mut cmd, &qp);
        assert(cmd@ =~= jq_command(filter@, in_path@));
    } else {
        assert(cmd@ =~= jq_command(filter@, in_path@));
    }
    (filter, cmd)
}

} // verus!
