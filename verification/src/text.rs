//! Character-level string helpers: building strings from characters,
//! truncation and wrapping by character count, decimal rendering,
//! whitespace trimming, substring search and line splitting.
use vstd::prelude::*;
use vstd::string::StringExecFns;

verus! {

broadcast use vstd::string::group_string_axioms;

// ---------------------------------------------------------------------------
// Specifications
// ---------------------------------------------------------------------------

/// `s` cut to its first `max_len` characters when it is longer than that.
pub open spec fn truncated(s: Seq<char>, max_len: nat) -> Seq<char> {
    if s.len() > max_len {
        s.take(max_len as int)
    } else {
        s
    }
}

/// `t` cut into consecutive pieces of `width` characters; the last piece
/// holds what is left and is never empty.
pub open spec fn chunks(t: Seq<char>, width: nat) -> Seq<Seq<char>>
    decreases t.len(),
{
    if width == 0 || t.len() <= width {
        seq![t]
    } else {
        seq![t.take(width as int)] + chunks(t.skip(width as int), width)
    }
}

/// The lines shown for `text` in a column `width` characters wide.
/// A width of zero leaves the text on one line; an empty text is one empty line.
pub open spec fn wrapped(text: Seq<char>, width: nat) -> Seq<Seq<char>> {
    if width == 0 || text.len() == 0 {
        seq![text]
    } else {
        chunks(text, width)
    }
}

/// All pieces of `parts` written one after another.
pub open spec fn flatten(parts: Seq<Seq<char>>) -> Seq<char>
    decreases parts.len(),
{
    if parts.len() == 0 {
        Seq::empty()
    } else {
        flatten(parts.drop_last()) + parts.last()
    }
}

/// The views of a sequence of strings.
pub open spec fn string_views(v: Seq<String>) -> Seq<Seq<char>> {
    v.map_values(|s: String| s@)
}

/// The ASCII digit of a number below ten.
pub open spec fn digit_char(d: nat) -> char {
    if d == 0 { '0' }
    else if d == 1 { '1' }
    else if d == 2 { '2' }
    else if d == 3 { '3' }
    else if d == 4 { '4' }
    else if d == 5 { '5' }
    else if d == 6 { '6' }
    else if d == 7 { '7' }
    else if d == 8 { '8' }
    else { '9' }
}

/// The decimal notation of `n`, without leading zeros.
pub open spec fn decimal(n: nat) -> Seq<char>
    decreases n,
{
    if n < 10 {
        seq![digit_char(n)]
    } else {
        decimal(n / 10).push(digit_char(n % 10))
    }
}

/// Whether `c` has the Unicode `White_Space` property, the set that
/// `char::is_whitespace` tests.
pub open spec fn is_unicode_whitespace(c: char) -> bool {
    let u = c as u32;
    ||| 0x09 <= u <= 0x0d
    ||| u == 0x20
    ||| u == 0x85
    ||| u == 0xa0
    ||| u == 0x1680
    ||| 0x2000 <= u <= 0x200a
    ||| u == 0x2028
    ||| u == 0x2029
    ||| u == 0x202f
    ||| u == 0x205f
    ||| u == 0x3000
}

/// Index of the first character of `s` at or after `from` that is not
/// whitespace, or the length of `s`.
pub open spec fn skip_ws(s: Seq<char>, from: int) -> int
    decreases s.len() - from,
{
    if from >= s.len() {
        s.len() as int
    } else if is_unicode_whitespace(s[from]) {
        skip_ws(s, from + 1)
    } else {
        from
    }
}

/// One past the last character of `s[..to]` that is not whitespace, or 0.
pub open spec fn skip_ws_back(s: Seq<char>, to: int) -> int
    decreases to,
{
    if to <= 0 {
        0
    } else if is_unicode_whitespace(s[to - 1]) {
        skip_ws_back(s, to - 1)
    } else {
        to
    }
}

/// `s` without leading and trailing whitespace (what `str::trim` gives).
pub open spec fn trimmed(s: Seq<char>) -> Seq<char> {
    let lo = skip_ws(s, 0);
    if lo >= s.len() {
        Seq::empty()
    } else {
        s.subrange(lo, skip_ws_back(s, s.len() as int))
    }
}

/// Whether `needle` occurs in `hay` at position `i`.
pub open spec fn occurs_at(hay: Seq<char>, needle: Seq<char>, i: int) -> bool {
    0 <= i && i + needle.len() <= hay.len() && hay.subrange(i, i + needle.len()) == needle
}

/// Whether `needle` occurs somewhere in `hay` (an empty needle occurs everywhere).
pub open spec fn has_substring(hay: Seq<char>, needle: Seq<char>) -> bool {
    exists|i: int| occurs_at(hay, needle, i)
}

/// `line` without one trailing carriage return (the `\r` of a `\r\n` line ending).
pub open spec fn strip_cr(line: Seq<char>) -> Seq<char> {
    if line.len() > 0 && line.last() == '\r' {
        line.drop_last()
    } else {
        line
    }
}

/// `s` split at every `'\n'`; the newlines themselves are dropped, so there
/// is one piece more than there are newlines.
pub open spec fn split_newlines(s: Seq<char>) -> Seq<Seq<char>>
    decreases s.len(),
{
    if s.len() == 0 {
        seq![Seq::empty()]
    } else {
        let p = split_newlines(s.drop_last());
        if s.last() == '\n' {
            p.push(Seq::empty())
        } else {
            p.update(p.len() - 1, p.last().push(s.last()))
        }
    }
}

/// The lines of `s` as `str::lines` yields them: `s` split at each `'\n'`,
/// with a `'\r'` right before a `'\n'` dropped too, and no final empty
/// piece after a terminating newline (nor any line at all for an empty `s`).
pub open spec fn lines_of(s: Seq<char>) -> Seq<Seq<char>> {
    let parts = split_newlines(s);
    let ended = parts.drop_last().map_values(|p: Seq<char>| strip_cr(p));
    if s.len() == 0 || s.last() == '\n' {
        ended
    } else {
        ended.push(parts.last())
    }
}

/// Characters of the lower-case mapping of `s` that `str::to_lowercase`
/// computes (Unicode case mapping, context-dependent for a few letters).
pub uninterp spec fn lowercase(s: Seq<char>) -> Seq<char>;

// ---------------------------------------------------------------------------
// Trusted items
// ---------------------------------------------------------------------------

/// Appends one character to a string.
/// Calls `String::push`, which std documents as appending the given `char`
/// to the end of the string.
#[verifier::external_body]
pub(crate) fn push_char(s: &mut String, c: char)
    ensures
        final(s)@ == old(s)@.push(c),
{
    s.push(c);
}

/// The lower-case form of `s`.
/// Calls `str::to_lowercase`; its result is named `lowercase` and nothing
/// more is claimed of it: the Unicode case tables are not restated here.
#[verifier::external_body]
pub(crate) fn to_lowercase(s: &str) -> (res: String)
    ensures
        res@ == lowercase(s@),
{
    s.to_lowercase()
}

// ---------------------------------------------------------------------------
// Lemmas
// ---------------------------------------------------------------------------

proof fn lemma_flatten_single(p: Seq<char>)
    ensures
        flatten(seq![p]) == p,
{
    let s = seq![p];
    assert(s.drop_last() =~= Seq::<Seq<char>>::empty());
    assert(flatten(Seq::<Seq<char>>::empty()) == Seq::<char>::empty());
    assert(flatten(s) == flatten(s.drop_last()) + s.last());
    assert(Seq::<char>::empty() + p =~= p);
}

proof fn lemma_flatten_append(a: Seq<Seq<char>>, b: Seq<Seq<char>>)
    ensures
        flatten(a + b) == flatten(a) + flatten(b),
    decreases b.len(),
{
    if b.len() == 0 {
        assert(a + b =~= a);
        assert(flatten(a) + flatten(b) =~= flatten(a));
    } else {
        lemma_flatten_append(a, b.drop_last());
        assert((a + b).drop_last() =~= a + b.drop_last());
        assert(flatten(a) + flatten(b) =~= flatten(a) + flatten(b.drop_last()) + b.last());
    }
}

/// Every piece of `chunks(t, width)` but the last is `width` long, the last
/// is at most that long and not empty when `t` is not, and together they spell `t`.
pub proof fn lemma_chunks(t: Seq<char>, width: nat)
    requires
        width > 0,
    ensures
        flatten(chunks(t, width)) == t,
        chunks(t, width).len() >= 1,
        forall|i: int|
            0 <= i < chunks(t, width).len() ==> #[trigger] chunks(t, width)[i].len() <= width,
        forall|i: int|
            0 <= i < chunks(t, width).len() - 1 ==> #[trigger] chunks(t, width)[i].len() == width,
        t.len() > 0 ==> chunks(t, width).last().len() > 0,
    decreases t.len(),
{
    if t.len() <= width {
        lemma_flatten_single(t);
    } else {
        let rest = t.skip(width as int);
        lemma_chunks(rest, width);
        lemma_flatten_append(seq![t.take(width as int)], chunks(rest, width));
        lemma_flatten_single(t.take(width as int));
        assert(t.take(width as int) + rest =~= t);
        let c = chunks(t, width);
        assert forall|i: int| 0 <= i < c.len() implies #[trigger] c[i].len() <= width by {
            if i > 0 {
                assert(c[i] == chunks(rest, width)[i - 1]);
            }
        }
        assert forall|i: int| 0 <= i < c.len() - 1 implies #[trigger] c[i].len() == width by {
            if i > 0 {
                assert(c[i] == chunks(rest, width)[i - 1]);
            }
        }
    }
}

// ---------------------------------------------------------------------------
// Executable functions
// ---------------------------------------------------------------------------

/// The characters of `s`, in order.
pub fn chars_of(s: &str) -> (res: Vec<char>)
    ensures
        res@ == s@,
{
    let mut res: Vec<char> = Vec::new();
    for c in it: s.chars()
        invariant
            res@ == it.seq().take(it.index() as int),
    {
        res.push(c);
    }
    res
}

/// The characters `cs[from..to]` as a string.
pub fn string_from_range(cs: &Vec<char>, from: usize, to: usize) -> (res: String)
    requires
        from <= to <= cs.len(),
    ensures
        res@ == cs@.subrange(from as int, to as int),
{
    let mut res = String::new();
    let mut i = from;
    while i < to
        invariant
            from <= i <= to <= cs.len(),
            res@ == cs@.subrange(from as int, i as int),
        decreases to - i,
    {
        push_char(&mut res, cs[i]);
        assert(cs@.subrange(from as int, i + 1) =~= cs@.subrange(from as int, i as int).push(
            cs@[i as int],
        ));
        i = i + 1;
    }
    res
}

/// The characters of `cs` as a string.
pub fn string_from_chars(cs: &Vec<char>) -> (res: String)
    ensures
        res@ == cs@,
{
    let res = string_from_range(cs, 0, cs.len());
    assert(cs@.subrange(0, cs@.len() as int) =~= cs@);
    res
}

/// A copy of `s` as an owned string.
pub fn owned(s: &str) -> (res: String)
    ensures
        res@ == s@,
{
    String::from_str(s)
}

/// `s` cut to its first `max_len` characters when it has more than that.
pub fn truncate(s: &str, max_len: usize) -> (res: String)
    ensures
        res@ == truncated(s@, max_len as nat),
        res@.len() <= max_len,
        res@.is_prefix_of(s@),
{
    let cs = chars_of(s);
    if cs.len() > max_len {
        string_from_range(&cs, 0, max_len)
    } else {
        assert(s@.take(s@.len() as int) =~= s@);
        owned(s)
    }
}

/// Cuts `text` into lines of `width` characters, the last holding the rest.
/// A width of zero keeps the text on one line; an empty text gives one empty line.
/// The lines, written one after another, spell `text` again.
pub fn wrap_text(text: &str, width: usize) -> (lines: Vec<String>)
    ensures
        string_views(lines@) == wrapped(text@, width as nat),
        lines@.len() >= 1,
        flatten(string_views(lines@)) == text@,
        width > 0 ==> forall|i: int|
            0 <= i < lines@.len() ==> #[trigger] lines@[i]@.len() <= width,
        width > 0 && text@.len() > 0 ==> forall|i: int|
            0 <= i < lines@.len() ==> #[trigger] lines@[i]@.len() > 0,
{
    if width == 0 {
        let mut lines: Vec<String> = Vec::new();
        lines.push(owned(text));
        proof {
            assert(lines@[0]@ =~= text@);
            assert(string_views(lines@) =~= seq![text@]);
            lemma_flatten_single(text@);
        }
        return lines;
    }
    let cs = chars_of(text);
    let n = cs.len();
    let mut lines: Vec<String> = Vec::new();
    if n == 0 {
        lines.push(String::new());
        proof {
            assert(lines@[0]@ =~= text@);
            assert(string_views(lines@) =~= seq![text@]);
            lemma_flatten_single(text@);
        }
        return lines;
    }
    let ghost t = text@;
    let mut i: usize = 0;
    assert(t.skip(0) =~= t);
    while i < n
        invariant
            t == cs@,
            n == cs@.len(),
            width > 0,
            n > 0,
            i <= n,
            i < n ==> string_views(lines@) + chunks(t.skip(i as int), width as nat) == chunks(
                t,
                width as nat,
            ),
            i == n ==> string_views(lines@) == chunks(t, width as nat),
        decreases n - i,
    {
        let ghost rest = t.skip(i as int);
        let end: usize = if n - i > width {
            i + width
        } else {
            n
        };
        let line = string_from_range(&cs, i, end);
        let ghost old_lines = string_views(lines@);
        lines.push(line);
        proof {
            assert(string_views(lines@) =~= old_lines.push(line@));
            if n - i > width {
                assert(rest.take(width as int) =~= t.subrange(i as int, end as int));
                assert(rest.skip(width as int) =~= t.skip(end as int));
                assert(chunks(rest, width as nat) == seq![rest.take(width as int)] + chunks(
                    rest.skip(width as int),
                    width as nat,
                ));
                assert(old_lines + chunks(rest, width as nat) =~= old_lines.push(line@) + chunks(
                    t.skip(end as int),
                    width as nat,
                ));
            } else {
                assert(rest =~= t.subrange(i as int, n as int));
                assert(chunks(rest, width as nat) == seq![rest]);
                assert(old_lines + seq![rest] =~= old_lines.push(line@));
            }
        }
        i = end;
    }
    proof {
        lemma_chunks(t, width as nat);
        assert forall|k: int| 0 <= k < lines@.len() implies #[trigger] lines@[k]@ == string_views(
            lines@,
        )[k] by {}
    }
    lines
}

/// Whether `c` is whitespace in the sense of `char::is_whitespace`.
pub fn is_whitespace(c: char) -> (r: bool)
    ensures
        r == is_unicode_whitespace(c),
{
    let u = c as u32;
    (0x09 <= u && u <= 0x0d) || u == 0x20 || u == 0x85 || u == 0xa0 || u == 0x1680 || (0x2000
        <= u && u <= 0x200a) || u == 0x2028 || u == 0x2029 || u == 0x202f || u == 0x205f || u
        == 0x3000
}

proof fn lemma_skip_ws_back_bounds(s: Seq<char>, to: int, lo: int)
    requires
        0 <= lo < to <= s.len(),
        !is_unicode_whitespace(s[lo]),
    ensures
        lo < skip_ws_back(s, to) <= to,
    decreases to,
{
    if is_unicode_whitespace(s[to - 1]) {
        lemma_skip_ws_back_bounds(s, to - 1, lo);
    }
}

proof fn lemma_skip_ws_bounds(s: Seq<char>, from: int)
    requires
        0 <= from <= s.len(),
    ensures
        from <= skip_ws(s, from) <= s.len(),
        skip_ws(s, from) < s.len() ==> !is_unicode_whitespace(s[skip_ws(s, from)]),
    decreases s.len() - from,
{
    if from < s.len() && is_unicode_whitespace(s[from]) {
        lemma_skip_ws_bounds(s, from + 1);
    }
}

/// `s` without leading and trailing whitespace, as `str::trim` gives it.
pub fn trim(s: &str) -> (res: String)
    ensures
        res@ == trimmed(s@),
{
    let cs = chars_of(s);
    let n = cs.len();
    let mut lo: usize = 0;
    while lo < n && is_whitespace(cs[lo])
        invariant
            lo <= n == cs@.len(),
            cs@ == s@,
            skip_ws(s@, lo as int) == skip_ws(s@, 0),
        decreases n - lo,
    {
        lo = lo + 1;
    }
    if lo >= n {
        return String::new();
    }
    let mut hi: usize = n;
    while hi > lo && is_whitespace(cs[hi - 1])
        invariant
            lo < hi <= n == cs@.len(),
            cs@ == s@,
            skip_ws(s@, 0) == lo,
            !is_unicode_whitespace(cs@[lo as int]),
            skip_ws_back(s@, hi as int) == skip_ws_back(s@, n as int),
        decreases hi,
    {
        hi = hi - 1;
    }
    proof {
        lemma_skip_ws_back_bounds(s@, n as int, lo as int);
    }
    string_from_range(&cs, lo, hi)
}

/// Whether `needle` occurs in `hay` at position `i`.
fn occurs_at_exec(hay: &Vec<char>, needle: &Vec<char>, i: usize) -> (r: bool)
    requires
        i + needle.len() <= hay.len(),
    ensures
        r == occurs_at(hay@, needle@, i as int),
{
    let m = needle.len();
    let mut k: usize = 0;
    while k < m
        invariant
            k <= m == needle@.len(),
            i + m <= hay.len(),
            forall|j: int| 0 <= j < k ==> hay@[i + j] == needle@[j],
        decreases m - k,
    {
        if hay[i + k] != needle[k] {
            assert(hay@.subrange(i as int, i + m)[k as int] != needle@[k as int]);
            return false;
        }
        k = k + 1;
    }
    assert(hay@.subrange(i as int, i + m) =~= needle@);
    true
}

/// Whether `needle` occurs in `hay`, as `str::contains` with a string pattern
/// answers it: an empty needle occurs in every text.
pub fn contains_str(hay: &str, needle: &str) -> (r: bool)
    ensures
        r == has_substring(hay@, needle@),
{
    let h = chars_of(hay);
    let nd = chars_of(needle);
    if nd.len() > h.len() {
        assert forall|i: int| !occurs_at(hay@, needle@, i) by {}
        return false;
    }
    let last = h.len() - nd.len();
    let mut i: usize = 0;
    loop
        invariant
            h@ == hay@,
            nd@ == needle@,
            last == h@.len() - nd@.len(),
            i <= last,
            forall|j: int| 0 <= j < i ==> !occurs_at(hay@, needle@, j),
        ensures
            forall|j: int| 0 <= j <= last ==> !occurs_at(hay@, needle@, j),
        decreases last - i,
    {
        if occurs_at_exec(&h, &nd, i) {
            return true;
        }
        if i == last {
            break;
        }
        i = i + 1;
    }
    assert forall|j: int| !occurs_at(hay@, needle@, j) by {
        if 0 <= j <= last {
        }
    }
    false
}

proof fn lemma_split_newlines_nonempty(s: Seq<char>)
    ensures
        split_newlines(s).len() >= 1,
    decreases s.len(),
{
    if s.len() > 0 {
        lemma_split_newlines_nonempty(s.drop_last());
    }
}

/// `line` without one trailing carriage return.
fn strip_cr_string(line: &Vec<char>) -> (res: String)
    ensures
        res@ == strip_cr(line@),
{
    let n = line.len();
    if n > 0 && line[n - 1] == '\r' {
        let r = string_from_range(line, 0, n - 1);
        assert(line@.subrange(0, n - 1) =~= line@.drop_last());
        r
    } else {
        string_from_chars(line)
    }
}

/// The lines of `s`, as `str::lines` yields them: split at `'\n'`, with a
/// trailing `'\r'` dropped from each line and no empty line after a final newline.
pub fn split_lines(s: &str) -> (lines: Vec<String>)
    ensures
        string_views(lines@) == lines_of(s@),
{
    let cs = chars_of(s);
    let n = cs.len();
    let mut lines: Vec<String> = Vec::new();
    let mut current: Vec<char> = Vec::new();
    let ghost mut done: Seq<Seq<char>> = Seq::empty();
    let mut i: usize = 0;
    assert(cs@.take(0) =~= Seq::<char>::empty());
    while i < n
        invariant
            i <= n == cs@.len(),
            cs@ == s@,
            split_newlines(cs@.take(i as int)) == done.push(current@),
            string_views(lines@) == done.map_values(|p: Seq<char>| strip_cr(p)),
        decreases n - i,
    {
        let c = cs[i];
        assert(cs@.take(i + 1).drop_last() =~= cs@.take(i as int));
        if c == '\n' {
            let line = strip_cr_string(&current);
            let ghost old_views = string_views(lines@);
            let ghost old_done = done;
            lines.push(line);
            proof {
                assert(string_views(lines@) =~= old_views.push(line@));
                done = done.push(current@);
                assert(done.map_values(|p: Seq<char>| strip_cr(p)) =~= old_done.map_values(
                    |p: Seq<char>| strip_cr(p),
                ).push(strip_cr(current@)));
            }
            current = Vec::new();
        } else {
            current.push(c);
            proof {
                let p = split_newlines(cs@.take(i as int));
                assert(p.update(p.len() - 1, p.last().push(c)) =~= done.push(current@));
            }
        }
        i = i + 1;
    }
    assert(cs@.take(n as int) =~= s@);
    assert(done.push(current@).last() == current@);
    assert(done.push(current@).drop_last() =~= done);
    if current.len() > 0 {
        let line = string_from_chars(&current);
        let ghost old_views = string_views(lines@);
        lines.push(line);
        proof {
            assert(s@.len() > 0 && s@.last() != '\n') by {
                if s@.len() == 0 {
                    assert(split_newlines(s@) == seq![Seq::<char>::empty()]);
                    assert(current@.len() == 0);
                } else if s@.last() == '\n' {
                    assert(split_newlines(s@) == split_newlines(s@.drop_last()).push(Seq::empty()));
                }
            }
            assert(string_views(lines@) =~= old_views.push(line@));
        }
    } else {
        proof {
            if s@.len() > 0 && s@.last() != '\n' {
                let p = split_newlines(s@.drop_last());
                lemma_split_newlines_nonempty(s@.drop_last());
                assert(split_newlines(s@).last() == p.last().push(s@.last()));
            }
            assert(done.push(current@).drop_last() =~= done);
        }
    }
    lines
}

/// The ASCII digit of `d`, which is below ten.
fn digit(d: usize) -> (c: char)
    requires
        d < 10,
    ensures
        c == digit_char(d as nat),
{
    if d == 0 { '0' }
    else if d == 1 { '1' }
    else if d == 2 { '2' }
    else if d == 3 { '3' }
    else if d == 4 { '4' }
    else if d == 5 { '5' }
    else if d == 6 { '6' }
    else if d == 7 { '7' }
    else if d == 8 { '8' }
    else { '9' }
}

/// The decimal notation of `n`.
pub fn decimal_string(n: usize) -> (res: String)
    ensures
        res@ == decimal(n as nat),
    decreases n,
{
    if n < 10 {
        let mut s = String::new();
        push_char(&mut s, digit(n));
        assert(s@ =~= seq![digit_char(n as nat)]);
        s
    } else {
        let mut s = decimal_string(n / 10);
        push_char(&mut s, digit(n % 10));
        s
    }
}

} // verus!
