//! Common-indentation stripping of multiline legacy-string text.

use vstd::prelude::*;

use crate::lexis::{is_ws, is_whitespace_char};
use crate::strings::push_char;

verus! {

/// The index of the first line feed in `t` at or after `k`.
pub open spec fn find_newline(t: Seq<char>, k: int) -> Option<int>
    decreases t.len() - k,
{
    if 0 <= k < t.len() {
        if t[k] == '\n' {
            Some(k)
        } else {
            find_newline(t, k + 1)
        }
    } else {
        None
    }
}

/// A line without the carriage return that ended it.
pub open spec fn chomp_cr(l: Seq<char>) -> Seq<char> {
    if l.len() > 0 && l.last() == '\r' {
        l.drop_last()
    } else {
        l
    }
}

/// The lines of `t`, as `str::lines` gives them: split after each line feed,
/// without the line feed and a carriage return just before it; a final line
/// feed ends the last line and opens no new one.
pub open spec fn split_lines(t: Seq<char>) -> Seq<Seq<char>>
    decreases t.len(),
{
    if t.len() == 0 {
        Seq::empty()
    } else {
        match find_newline(t, 0) {
            Some(k) => if 0 <= k < t.len() {
                seq![chomp_cr(t.subrange(0, k))] + split_lines(t.subrange(k + 1, t.len() as int))
            } else {
                Seq::empty()
            },
            None => seq![t],
        }
    }
}

/// A line that is empty once trimmed.
pub open spec fn is_blank(l: Seq<char>) -> bool {
    forall|k: int| 0 <= k < l.len() ==> is_ws(#[trigger] l[k])
}

/// The number of leading spaces and tabs of `l` from `k` on.
pub open spec fn indent_from(l: Seq<char>, k: int) -> int
    decreases l.len() - k,
{
    if 0 <= k < l.len() && (l[k] == ' ' || l[k] == '\t') {
        1 + indent_from(l, k + 1)
    } else {
        0
    }
}

/// The number of leading spaces and tabs of `l`.
pub open spec fn indent_width(l: Seq<char>) -> int {
    indent_from(l, 0)
}

/// The first line at or after `k` that is not blank.
pub open spec fn first_kept(ls: Seq<Seq<char>>, k: int) -> int
    decreases ls.len() - k,
{
    if 0 <= k < ls.len() && is_blank(ls[k]) {
        first_kept(ls, k + 1)
    } else {
        k
    }
}

/// The end of the lines before `k` once trailing blank lines, down to `lo`,
/// are dropped.
pub open spec fn end_kept(ls: Seq<Seq<char>>, lo: int, k: int) -> int
    decreases k - lo,
{
    if lo < k && is_blank(ls[k - 1]) {
        end_kept(ls, lo, k - 1)
    } else {
        k
    }
}

/// The least indentation among the non-blank lines in `[lo, hi)`.
pub open spec fn least_indent(ls: Seq<Seq<char>>, lo: int, hi: int) -> Option<int>
    decreases hi - lo,
{
    if hi <= lo {
        None
    } else {
        let rest = least_indent(ls, lo, hi - 1);
        if is_blank(ls[hi - 1]) {
            rest
        } else {
            let w = indent_width(ls[hi - 1]);
            match rest {
                Some(m) => Some(if w < m {
                    w
                } else {
                    m
                }),
                None => Some(w),
            }
        }
    }
}

/// A line with `common` indentation removed; a blank line becomes empty.
pub open spec fn dedent(l: Seq<char>, common: int) -> Seq<char> {
    if is_blank(l) {
        Seq::empty()
    } else {
        l.subrange(common, l.len() as int)
    }
}

/// The lines `[lo, hi)`, dedented by `common`, joined by line feeds.
pub open spec fn join_dedented(ls: Seq<Seq<char>>, lo: int, hi: int, common: int) -> Seq<char>
    decreases hi - lo,
{
    if hi <= lo {
        Seq::empty()
    } else if hi == lo + 1 {
        dedent(ls[lo], common)
    } else {
        join_dedented(ls, lo, hi - 1, common) + seq!['\n'] + dedent(ls[hi - 1], common)
    }
}

/// `raw` without one leading `\r\n` or `\n`.
pub open spec fn drop_leading_newline(raw: Seq<char>) -> Seq<char> {
    if raw.len() >= 2 && raw[0] == '\r' && raw[1] == '\n' {
        raw.subrange(2, raw.len() as int)
    } else if raw.len() >= 1 && raw[0] == '\n' {
        raw.subrange(1, raw.len() as int)
    } else {
        raw
    }
}

/// Multiline legacy text as it reads: one leading line break dropped, the
/// blank lines around it dropped, the indentation common to its non-blank
/// lines removed, and blank lines within it emptied.
pub open spec fn strip_indentation(raw: Seq<char>) -> Seq<char> {
    let ls = split_lines(drop_leading_newline(raw));
    let lo = first_kept(ls, 0);
    let hi = end_kept(ls, lo, ls.len() as int);
    let common = match least_indent(ls, lo, hi) {
        Some(m) => m,
        None => 0,
    };
    join_dedented(ls, lo, hi, common)
}

proof fn lemma_indent_bounds(l: Seq<char>, k: int)
    requires
        0 <= k <= l.len(),
    ensures
        0 <= indent_from(l, k) <= l.len() - k,
        forall|m: int| k <= m < k + indent_from(l, k) ==> (#[trigger] l[m] == ' ' || l[m] == '\t'),
    decreases l.len() - k,
{
    if k < l.len() && (l[k] == ' ' || l[k] == '\t') {
        lemma_indent_bounds(l, k + 1);
    }
}

proof fn lemma_least_indent_bound(ls: Seq<Seq<char>>, lo: int, hi: int)
    requires
        0 <= lo <= hi <= ls.len(),
    ensures
        least_indent(ls, lo, hi) matches Some(m) ==> 0 <= m && forall|k: int|
            lo <= k < hi && !is_blank(ls[k]) ==> m <= indent_width(#[trigger] ls[k]),
        forall|k: int| lo <= k < hi && !is_blank(#[trigger] ls[k]) ==> least_indent(ls, lo, hi) is Some,
    decreases hi - lo,
{
    if lo < hi {
        lemma_least_indent_bound(ls, lo, hi - 1);
        lemma_indent_bounds(ls[hi - 1], 0);
        if let Some(m) = least_indent(ls, lo, hi) {
            assert forall|k: int| lo <= k < hi && !is_blank(ls[k]) implies m <= indent_width(
                #[trigger] ls[k],
            ) by {
                if k < hi - 1 {
                    assert(!is_blank(ls[k]));
                    assert(least_indent(ls, lo, hi - 1) is Some);
                }
            }
        }
    }
}

proof fn lemma_first_kept_bounds(ls: Seq<Seq<char>>, k: int)
    requires
        0 <= k <= ls.len(),
    ensures
        k <= first_kept(ls, k) <= ls.len(),
    decreases ls.len() - k,
{
    if k < ls.len() && is_blank(ls[k]) {
        lemma_first_kept_bounds(ls, k + 1);
    }
}

proof fn lemma_end_kept_bounds(ls: Seq<Seq<char>>, lo: int, k: int)
    requires
        lo <= k,
    ensures
        lo <= end_kept(ls, lo, k) <= k,
    decreases k - lo,
{
    if lo < k && is_blank(ls[k - 1]) {
        lemma_end_kept_bounds(ls, lo, k - 1);
    }
}

/// Whether the characters of `l` are all white space.
fn blank_line(l: &Vec<char>) -> (r: bool)
    ensures
        r == is_blank(l@),
{
    let mut k: usize = 0;
    while k < l.len()
        invariant
            k <= l@.len(),
            forall|m: int| 0 <= m < k ==> is_ws(#[trigger] l@[m]),
        decreases l@.len() - k,
    {
        if !is_whitespace_char(l[k]) {
            return false;
        }
        k = k + 1;
    }
    true
}

/// The number of leading spaces and tabs of `l`.
fn line_indent(l: &Vec<char>) -> (r: usize)
    ensures
        r as int == indent_width(l@),
        r <= l@.len(),
{
    let mut k: usize = 0;
    while k < l.len() && (l[k] == ' ' || l[k] == '\t')
        invariant
            k <= l@.len(),
            indent_from(l@, 0) == k + indent_from(l@, k as int),
        decreases l@.len() - k,
    {
        k = k + 1;
    }
    proof {
        lemma_indent_bounds(l@, 0);
    }
    k
}

/// The lines of `t`, each as its own characters.
fn lines_of(t: &Vec<char>, start: usize) -> (r: Vec<Vec<char>>)
    requires
        start <= t@.len(),
    ensures
        r@.len() == split_lines(t@.subrange(start as int, t@.len() as int)).len(),
        forall|k: int|
            0 <= k < r@.len() ==> (#[trigger] r@[k])@ == split_lines(
                t@.subrange(start as int, t@.len() as int),
            )[k],
{
    let ghost whole = t@.subrange(start as int, t@.len() as int);
    let ghost mut seen: Seq<Seq<char>> = Seq::empty();
    let mut lines: Vec<Vec<char>> = Vec::new();
    let mut pos = start;
    while pos < t.len()
        invariant
            start <= pos <= t@.len(),
            whole == t@.subrange(start as int, t@.len() as int),
            lines@.len() == seen.len(),
            forall|k: int| 0 <= k < lines@.len() ==> (#[trigger] lines@[k])@ == seen[k],
            seen + split_lines(t@.subrange(pos as int, t@.len() as int)) == split_lines(whole),
        decreases t@.len() - pos,
    {
        let ghost u = t@.subrange(pos as int, t@.len() as int);
        let mut q = pos;
        while q < t.len() && t[q] != '\n'
            invariant
                pos <= q <= t@.len(),
                u == t@.subrange(pos as int, t@.len() as int),
                find_newline(u, q - pos) == find_newline(u, 0),
            decreases t@.len() - q,
        {
            q = q + 1;
        }
        let mut line: Vec<char> = Vec::new();
        let mut m = pos;
        while m < q
            invariant
                pos <= m <= q <= t@.len(),
                line@ == t@.subrange(pos as int, m as int),
            decreases q - m,
        {
            line.push(t[m]);
            m = m + 1;
        }
        if q < t.len() {
            if line.len() > 0 && line[line.len() - 1] == '\r' {
                line.pop();
            }
            proof {
                assert(u.subrange(0, q - pos) =~= t@.subrange(pos as int, q as int));
                assert(u.subrange(q - pos + 1, u.len() as int) =~= t@.subrange(
                    q + 1,
                    t@.len() as int,
                ));
                assert(line@ == chomp_cr(u.subrange(0, q - pos)));
                seen = seen.push(line@);
                assert(seen + split_lines(t@.subrange(q + 1, t@.len() as int)) =~= seen.drop_last()
                    + split_lines(u));
            }
            lines.push(line);
            pos = q + 1;
        } else {
            proof {
                assert(line@ =~= u);
                assert(find_newline(u, 0) is None);
                seen = seen.push(line@);
                assert(split_lines(t@.subrange(t@.len() as int, t@.len() as int)) =~= Seq::<
                    Seq<char>,
                >::empty());
                assert(seen + split_lines(t@.subrange(t@.len() as int, t@.len() as int))
                    =~= seen.drop_last() + split_lines(u));
            }
            lines.push(line);
            pos = t.len();
        }
    }
    proof {
        assert(split_lines(t@.subrange(pos as int, t@.len() as int)) =~= Seq::<
            Seq<char>,
        >::empty());
        assert(seen =~= split_lines(whole));
    }
    lines
}

/// The legacy-string text `raw` with its common indentation stripped.
pub fn strip_common_indentation(raw: &Vec<char>) -> (r: String)
    ensures
        r@ == strip_indentation(raw@),
{
    let start: usize = if raw.len() >= 2 && raw[0] == '\r' && raw[1] == '\n' {
        2
    } else if raw.len() >= 1 && raw[0] == '\n' {
        1
    } else {
        0
    };
    proof {
        assert(raw@.subrange(start as int, raw@.len() as int) =~= drop_leading_newline(raw@));
    }
    let lines = lines_of(raw, start);
    let ghost ls = split_lines(drop_leading_newline(raw@));
    let mut lo: usize = 0;
    while lo < lines.len() && blank_line(&lines[lo])
        invariant
            lo <= lines@.len() == ls.len(),
            forall|k: int| 0 <= k < lines@.len() ==> (#[trigger] lines@[k])@ == ls[k],
            first_kept(ls, lo as int) == first_kept(ls, 0),
        decreases lines@.len() - lo,
    {
        lo = lo + 1;
    }
    let mut hi: usize = lines.len();
    while hi > lo && blank_line(&lines[hi - 1])
        invariant
            lo <= hi <= lines@.len() == ls.len(),
            lo == first_kept(ls, 0),
            forall|k: int| 0 <= k < lines@.len() ==> (#[trigger] lines@[k])@ == ls[k],
            end_kept(ls, lo as int, hi as int) == end_kept(ls, lo as int, ls.len() as int),
        decreases hi - lo,
    {
        hi = hi - 1;
    }
    let mut least: Option<usize> = None;
    let mut k: usize = lo;
    while k < hi
        invariant
            lo <= k <= hi <= lines@.len() == ls.len(),
            forall|j: int| 0 <= j < lines@.len() ==> (#[trigger] lines@[j])@ == ls[j],
            match least {
                Some(m) => least_indent(ls, lo as int, k as int) == Some(m as int),
                None => least_indent(ls, lo as int, k as int) is None,
            },
        decreases hi - k,
    {
        if !blank_line(&lines[k]) {
            let w = line_indent(&lines[k]);
            least = match least {
                Some(m) => Some(
                    if w < m {
                        w
                    } else {
                        m
                    },
                ),
                None => Some(w),
            };
        }
        k = k + 1;
    }
    let common: usize = match least {
        Some(m) => m,
        None => 0,
    };
    proof {
        lemma_least_indent_bound(ls, lo as int, hi as int);
    }
    let mut out = String::new();
    let mut k: usize = lo;
    while k < hi
        invariant
            lo <= k <= hi <= lines@.len() == ls.len(),
            forall|j: int| 0 <= j < lines@.len() ==> (#[trigger] lines@[j])@ == ls[j],
            common as int == (match least_indent(ls, lo as int, hi as int) {
                Some(m) => m,
                None => 0,
            }),
            least_indent(ls, lo as int, hi as int) matches Some(m) ==> 0 <= m && forall|j: int|
                lo <= j < hi && !is_blank(ls[j]) ==> m <= indent_width(#[trigger] ls[j]),
            out@ == join_dedented(ls, lo as int, k as int, common as int),
        decreases hi - k,
    {
        let ghost before = out@;
        if k > lo {
            push_char(&mut out, '\n');
        }
        let line = &lines[k];
        if !blank_line(line) {
            proof {
                lemma_indent_bounds(ls[k as int], 0);
            }
            let mut c = common;
            while c < line.len()
                invariant
                    common <= c <= line@.len(),
                    line@ == ls[k as int],
                    out@ == (if k > lo {
                        before + seq!['\n']
                    } else {
                        before
                    }) + line@.subrange(common as int, c as int),
                decreases line@.len() - c,
            {
                push_char(&mut out, line[c]);
                proof {
                    assert(line@.subrange(common as int, c + 1) =~= line@.subrange(
                        common as int,
                        c as int,
                    ).push(line@[c as int]));
                }
                c = c + 1;
            }
        }
        proof {
            if k > lo {
                assert(out@ =~= join_dedented(ls, lo as int, k as int, common as int) + seq!['\n']
                    + dedent(ls[k as int], common as int));
            } else {
                assert(out@ =~= dedent(ls[k as int], common as int));
            }
        }
        k = k + 1;
    }
    out
}

/// `ds` joined by line feeds.
pub open spec fn joined(ds: Seq<Seq<char>>) -> Seq<char>
    decreases ds.len(),
{
    if ds.len() == 0 {
        Seq::empty()
    } else if ds.len() == 1 {
        ds[0]
    } else {
        joined(ds.drop_last()) + seq!['\n'] + ds.last()
    }
}

/// The lines `[lo, hi)` of `ls`, each dedented by `common`.
pub open spec fn dedented(ls: Seq<Seq<char>>, lo: int, hi: int, common: int) -> Seq<Seq<char>> {
    Seq::new((hi - lo) as nat, |k: int| dedent(ls[lo + k], common))
}

/// Whether no line feed and no carriage return stands in `t`.
pub open spec fn no_breaks(t: Seq<char>) -> bool {
    forall|m: int| 0 <= m < t.len() ==> #[trigger] t[m] != '\n' && t[m] != '\r'
}

proof fn lemma_join_dedented(ls: Seq<Seq<char>>, lo: int, hi: int, common: int)
    requires
        lo <= hi,
    ensures
        join_dedented(ls, lo, hi, common) == joined(dedented(ls, lo, hi, common)),
    decreases hi - lo,
{
    if hi > lo + 1 {
        lemma_join_dedented(ls, lo, hi - 1, common);
        assert(dedented(ls, lo, hi, common).drop_last() =~= dedented(ls, lo, hi - 1, common));
    }
}

/// Joined lines begin with the first line and a line feed.
proof fn lemma_joined_front(ds: Seq<Seq<char>>)
    requires
        ds.len() >= 2,
    ensures
        joined(ds) == ds[0] + seq!['\n'] + joined(ds.drop_first()),
    decreases ds.len(),
{
    if ds.len() > 2 {
        lemma_joined_front(ds.drop_last());
        assert(ds.drop_last()[0] == ds[0]);
        assert(ds.drop_last().drop_first() =~= ds.drop_first().drop_last());
        assert(ds.drop_first().last() == ds.last());
        assert(joined(ds) == joined(ds.drop_last()) + seq!['\n'] + ds.last());
        assert(joined(ds.drop_first()) == joined(ds.drop_first().drop_last()) + seq!['\n']
            + ds.drop_first().last());
        assert(ds[0] + seq!['\n'] + joined(ds.drop_first().drop_last()) + seq!['\n'] + ds.last()
            =~= ds[0] + seq!['\n'] + (joined(ds.drop_first().drop_last()) + seq!['\n'] + ds.last()));
    } else {
        assert(ds.drop_last() =~= seq![ds[0]]);
        assert(ds.drop_first() =~= seq![ds[1]]);
        assert(joined(ds.drop_last()) == ds[0]);
        assert(joined(ds.drop_first()) == ds[1]);
        assert(ds.last() == ds[1]);
    }
}

/// The first line feed at or after `k` is the first one that stands there.
proof fn lemma_find_newline(t: Seq<char>, k: int, p: int)
    requires
        0 <= k <= p <= t.len(),
        forall|m: int| k <= m < p ==> t[m] != '\n',
    ensures
        p < t.len() && t[p] == '\n' ==> find_newline(t, k) == Some(p),
        p == t.len() ==> find_newline(t, k) is None,
    decreases p - k,
{
    if k < p {
        lemma_find_newline(t, k + 1, p);
    }
}

/// Lines without line feeds or carriage returns, the last not empty, are
/// split again into themselves once joined.
proof fn lemma_split_joined(ds: Seq<Seq<char>>)
    requires
        ds.len() >= 1,
        forall|k: int| 0 <= k < ds.len() ==> no_breaks(#[trigger] ds[k]),
        ds.last().len() > 0,
    ensures
        split_lines(joined(ds)) == ds,
    decreases ds.len(),
{
    let t = joined(ds);
    let d = ds[0];
    assert(no_breaks(d));
    if ds.len() == 1 {
        lemma_find_newline(t, 0, t.len() as int);
        assert(seq![t] =~= ds);
    } else {
        lemma_joined_front(ds);
        let rest = ds.drop_first();
        assert forall|k: int| 0 <= k < rest.len() implies no_breaks(#[trigger] rest[k]) by {
            assert(rest[k] == ds[k + 1]);
        }
        lemma_split_joined(rest);
        let k = d.len() as int;
        assert forall|m: int| 0 <= m < k implies t[m] != '\n' by {
            assert(t[m] == d[m]);
        }
        assert(t[k] == '\n');
        lemma_find_newline(t, 0, k);
        assert(t.subrange(0, k) =~= d);
        assert(t.subrange(k + 1, t.len() as int) =~= joined(rest));
        if d.len() > 0 {
            assert(d.last() != '\r');
        }
        assert(chomp_cr(d) == d);
        assert(seq![d] + rest =~= ds);
    }
}

/// A run of spaces and tabs of length `indent_from(l, k)` ends at a
/// character that is neither, or at the end.
proof fn lemma_indent_end(l: Seq<char>, k: int)
    requires
        0 <= k <= l.len(),
    ensures
        k + indent_from(l, k) < l.len() ==> !(l[k + indent_from(l, k)] == ' ' || l[k
            + indent_from(l, k)] == '\t'),
    decreases l.len() - k,
{
    if k < l.len() && (l[k] == ' ' || l[k] == '\t') {
        lemma_indent_end(l, k + 1);
    }
}

/// The least indentation is that of some non-blank line.
proof fn lemma_least_indent_met(ls: Seq<Seq<char>>, lo: int, hi: int)
    requires
        0 <= lo <= hi <= ls.len(),
    ensures
        least_indent(ls, lo, hi) matches Some(m) ==> exists|k: int|
            lo <= k < hi && !is_blank(ls[k]) && indent_width(#[trigger] ls[k]) == m,
    decreases hi - lo,
{
    if lo < hi {
        lemma_least_indent_met(ls, lo, hi - 1);
        let w = indent_width(ls[hi - 1]);
        if !is_blank(ls[hi - 1]) {
            assert(indent_width(ls[hi - 1]) == w);
        }
    }
}

/// Stripped lines: no line breaks, the first and last not blank, blank
/// lines empty, and a line with no indentation if any is not blank.
proof fn lemma_stripped_lines(raw: Seq<char>) -> (ds: Seq<Seq<char>>)
    requires
        forall|k: int| 0 <= k < raw.len() ==> raw[k] != '\r',
    ensures
        strip_indentation(raw) == joined(ds),
        forall|k: int| 0 <= k < ds.len() ==> no_breaks(#[trigger] ds[k]),
        forall|k: int| 0 <= k < ds.len() && is_blank(#[trigger] ds[k]) ==> ds[k].len() == 0,
        ds.len() > 0 ==> !is_blank(ds[0]),
        ds.len() > 0 ==> !is_blank(ds.last()),
        ds.len() > 0 ==> exists|k: int| 0 <= k < ds.len() && !is_blank(ds[k]) && indent_width(#[trigger] ds[k]) == 0,
{
    let t = drop_leading_newline(raw);
    assert(forall|k: int| 0 <= k < t.len() ==> t[k] != '\r');
    lemma_split_lines_clean(t);
    let ls = split_lines(t);
    let n = ls.len() as int;
    lemma_first_kept_bounds(ls, 0);
    let lo = first_kept(ls, 0);
    lemma_first_kept_blank(ls, 0);
    lemma_end_kept_bounds(ls, lo, n);
    let hi = end_kept(ls, lo, n);
    lemma_end_kept_blank(ls, lo, n);
    lemma_least_indent_bound(ls, lo, hi);
    lemma_least_indent_met(ls, lo, hi);
    let common = match least_indent(ls, lo, hi) {
        Some(m) => m,
        None => 0,
    };
    lemma_join_dedented(ls, lo, hi, common);
    let ds = dedented(ls, lo, hi, common);
    assert forall|k: int| 0 <= k < ds.len() implies no_breaks(#[trigger] ds[k]) && (!is_blank(
        ls[lo + k],
    ) ==> !is_blank(ds[k]) && (indent_width(ls[lo + k]) == common ==> indent_width(ds[k]) == 0))
        && (is_blank(ds[k]) ==> ds[k].len() == 0) by {
        let l = ls[lo + k];
        assert(no_breaks(l));
        if !is_blank(l) {
            lemma_indent_bounds(l, 0);
            lemma_indent_end(l, 0);
            assert(least_indent(ls, lo, hi) is Some);
            assert(common <= indent_width(l));
            let m = choose|m: int| 0 <= m < l.len() && !is_ws(l[m]);
            assert(m >= indent_width(l));
            assert(!is_ws(ds[k][m - common]));
            if indent_width(l) == common {
                assert(ds[k][0] == l[common]);
            }
        }
    }
    if ds.len() > 0 {
        assert(lo < n);
        assert(!is_blank(ls[lo]));
        assert(!is_blank(ls[hi - 1]));
        assert(ds.last() == ds[hi - lo - 1]);
        assert(least_indent(ls, lo, hi) is Some);
        let j = choose|j: int| lo <= j < hi && !is_blank(ls[j]) && indent_width(#[trigger] ls[j]) == common;
        assert(!is_blank(ds[j - lo]) && indent_width(ds[j - lo]) == 0);
        assert(!is_blank(ds[0]));
        assert(!is_blank(ds.last()));
    }
    ds
}

/// Lines split from text without carriage returns hold no line breaks.
proof fn lemma_split_lines_clean(t: Seq<char>)
    requires
        forall|k: int| 0 <= k < t.len() ==> t[k] != '\r',
    ensures
        forall|k: int| 0 <= k < split_lines(t).len() ==> no_breaks(#[trigger] split_lines(t)[k]),
    decreases t.len(),
{
    if t.len() > 0 {
        match find_newline(t, 0) {
            Some(k) => {
                if 0 <= k < t.len() {
                    lemma_first_newline(t, 0);
                    let rest = t.subrange(k + 1, t.len() as int);
                    lemma_split_lines_clean(rest);
                    let line = chomp_cr(t.subrange(0, k));
                    assert(no_breaks(line));
                    assert forall|j: int| 0 <= j < split_lines(t).len() implies no_breaks(
                        #[trigger] split_lines(t)[j],
                    ) by {
                        if j > 0 {
                            assert(split_lines(t)[j] == split_lines(rest)[j - 1]);
                        }
                    }
                }
            },
            None => {
                lemma_first_newline(t, 0);
                assert(no_breaks(t));
            },
        }
    }
}

/// No line feed stands before the first one found.
proof fn lemma_first_newline(t: Seq<char>, k: int)
    requires
        0 <= k,
    ensures
        find_newline(t, k) matches Some(p) ==> k <= p < t.len() && t[p] == '\n' && forall|m: int|
            k <= m < p ==> t[m] != '\n',
        find_newline(t, k) is None ==> forall|m: int| k <= m < t.len() ==> t[m] != '\n',
    decreases t.len() - k,
{
    if k < t.len() && t[k] != '\n' {
        lemma_first_newline(t, k + 1);
    }
}

/// The first kept line is not blank.
proof fn lemma_first_kept_blank(ls: Seq<Seq<char>>, k: int)
    requires
        0 <= k <= ls.len(),
    ensures
        first_kept(ls, k) < ls.len() ==> !is_blank(ls[first_kept(ls, k)]),
    decreases ls.len() - k,
{
    if k < ls.len() && is_blank(ls[k]) {
        lemma_first_kept_blank(ls, k + 1);
    }
}

/// Past a non-blank line at `lo`, the last kept line is not blank.
proof fn lemma_end_kept_blank(ls: Seq<Seq<char>>, lo: int, k: int)
    requires
        0 <= lo,
        k <= ls.len(),
        lo < ls.len() ==> !is_blank(ls[lo]),
    ensures
        lo < k ==> lo < end_kept(ls, lo, k) && !is_blank(ls[end_kept(ls, lo, k) - 1]),
    decreases k - lo,
{
    if lo < k && is_blank(ls[k - 1]) {
        lemma_end_kept_blank(ls, lo, k - 1);
    }
}

/// Stripping common indentation from text without carriage returns a
/// second time changes nothing.
pub proof fn law_strip_idempotent(raw: Seq<char>)
    requires
        forall|k: int| 0 <= k < raw.len() ==> raw[k] != '\r',
    ensures
        strip_indentation(strip_indentation(raw)) == strip_indentation(raw),
{
    let ds = lemma_stripped_lines(raw);
    let r = strip_indentation(raw);
    if ds.len() == 0 {
        assert(r =~= Seq::<char>::empty());
        assert(split_lines(Seq::<char>::empty()) =~= Seq::<Seq<char>>::empty());
    } else {
        let n = ds.len() as int;
        assert(ds.last() == ds[n - 1]);
        assert(!is_blank(ds[n - 1]));
        assert(ds.last().len() > 0);
        lemma_split_joined(ds);
        if n >= 2 {
            lemma_joined_front(ds);
        }
        assert(ds[0].len() > 0);
        assert(no_breaks(ds[0]));
        assert(r[0] == ds[0][0]);
        assert(drop_leading_newline(r) == r);
        assert(first_kept(ds, 0) == 0);
        assert(end_kept(ds, 0, n) == n);
        lemma_least_indent_bound(ds, 0, n);
        let j = choose|j: int| 0 <= j < n && !is_blank(ds[j]) && indent_width(#[trigger] ds[j]) == 0;
        assert(least_indent(ds, 0, n) == Some(0int));
        lemma_join_dedented(ds, 0, n, 0);
        assert forall|k: int| 0 <= k < n implies #[trigger] dedented(ds, 0, n, 0)[k] == ds[k] by {
            if !is_blank(ds[k]) {
                assert(ds[k].subrange(0, ds[k].len() as int) =~= ds[k]);
            } else {
                assert(ds[k] =~= Seq::<char>::empty());
            }
        }
        assert(dedented(ds, 0, n, 0) =~= ds);
    }
}

/// The first line at or after `k` that is not blank has only blank lines before it.
proof fn lemma_first_kept_skips_blank(ls: Seq<Seq<char>>, k: int)
    requires
        0 <= k <= ls.len(),
    ensures
        forall|j: int| k <= j < first_kept(ls, k) ==> is_blank(#[trigger] ls[j]),
    decreases ls.len() - k,
{
    if k < ls.len() && is_blank(ls[k]) {
        lemma_first_kept_skips_blank(ls, k + 1);
    }
}

/// The lines dropped from the end are blank.
proof fn lemma_end_kept_skips_blank(ls: Seq<Seq<char>>, lo: int, k: int)
    requires
        0 <= lo,
        k <= ls.len(),
    ensures
        forall|j: int| end_kept(ls, lo, k) <= j < k ==> is_blank(#[trigger] ls[j]),
    decreases k - lo,
{
    if lo < k && is_blank(ls[k - 1]) {
        lemma_end_kept_skips_blank(ls, lo, k - 1);
    }
}

/// Whether `l` begins with at least `d` characters, each a space or a tab.
pub open spec fn spaced_by(l: Seq<char>, d: int) -> bool {
    &&& 0 <= d <= l.len()
    &&& forall|m: int| 0 <= m < d ==> (#[trigger] l[m] == ' ' || l[m] == '\t')
}

/// Stripping keeps the lines `[lo, hi)` of the text after one leading line
/// break, dropping only blank lines before and after them.  Every kept
/// blank line becomes empty, and every kept non-blank line loses the same
/// `d` leading spaces and tabs and nothing else, so lines keep their
/// indentation relative to one another; `d` is the least indentation, for
/// some kept non-blank line begins with neither a space nor a tab once
/// stripped.  The result is the kept lines joined by line feeds.
pub proof fn law_strip_removes_least_indentation(raw: Seq<char>) -> (kept: (Seq<Seq<char>>, int, int, int))
    ensures
        ({
            let (outs, lo, hi, d) = kept;
            let ls = split_lines(drop_leading_newline(raw));
            &&& strip_indentation(raw) == joined(outs)
            &&& 0 <= lo <= hi <= ls.len()
            &&& outs.len() == hi - lo
            &&& 0 <= d
            &&& forall|j: int| 0 <= j < lo ==> is_blank(#[trigger] ls[j])
            &&& forall|j: int| hi <= j < ls.len() ==> is_blank(#[trigger] ls[j])
            &&& lo < hi ==> !is_blank(ls[lo]) && !is_blank(ls[hi - 1])
            &&& forall|k: int| 0 <= k < outs.len() && is_blank(ls[lo + k]) ==> (#[trigger] outs[k]).len()
                == 0
            &&& forall|k: int| 0 <= k < outs.len() && !is_blank(ls[lo + k]) ==> {
                &&& spaced_by(ls[lo + k], d)
                &&& #[trigger] outs[k] == ls[lo + k].subrange(d, ls[lo + k].len() as int)
            }
            &&& lo < hi ==> exists|k: int| 0 <= k < outs.len() && !is_blank(ls[lo + k]) && (
            #[trigger] outs[k]).len() > 0 && outs[k][0] != ' ' && outs[k][0] != '\t'
        }),
{
    let ls = split_lines(drop_leading_newline(raw));
    let n = ls.len() as int;
    lemma_first_kept_bounds(ls, 0);
    let lo = first_kept(ls, 0);
    lemma_first_kept_blank(ls, 0);
    lemma_first_kept_skips_blank(ls, 0);
    lemma_end_kept_bounds(ls, lo, n);
    let hi = end_kept(ls, lo, n);
    lemma_end_kept_blank(ls, lo, n);
    lemma_end_kept_skips_blank(ls, lo, n);
    lemma_least_indent_bound(ls, lo, hi);
    lemma_least_indent_met(ls, lo, hi);
    let d = match least_indent(ls, lo, hi) {
        Some(m) => m,
        None => 0,
    };
    lemma_join_dedented(ls, lo, hi, d);
    let outs = dedented(ls, lo, hi, d);
    assert forall|k: int| 0 <= k < outs.len() && !is_blank(ls[lo + k]) implies {
        &&& spaced_by(ls[lo + k], d)
        &&& #[trigger] outs[k] == ls[lo + k].subrange(d, ls[lo + k].len() as int)
    } by {
        let l = ls[lo + k];
        lemma_indent_bounds(l, 0);
        assert(least_indent(ls, lo, hi) is Some);
        assert(d <= indent_width(l));
        assert forall|m: int| 0 <= m < d implies (#[trigger] l[m] == ' ' || l[m] == '\t') by {
            assert(0 <= m < indent_from(l, 0));
        }
        assert(spaced_by(l, d));
    }
    assert(forall|k: int| 0 <= k < outs.len() && !is_blank(ls[lo + k]) ==> #[trigger] spaced_by(ls[lo + k], d)) by {
        assert forall|k: int| 0 <= k < outs.len() && !is_blank(ls[lo + k]) implies #[trigger] spaced_by(ls[lo + k], d) by {
            assert(outs[k] == ls[lo + k].subrange(d, ls[lo + k].len() as int));
        }
    }
    if lo < hi {
        assert(least_indent(ls, lo, hi) is Some);
        let j = choose|j: int| lo <= j < hi && !is_blank(ls[j]) && indent_width(#[trigger] ls[j]) == d;
        let l = ls[j];
        lemma_indent_bounds(l, 0);
        lemma_indent_end(l, 0);
        let m = choose|m: int| 0 <= m < l.len() && !is_ws(l[m]);
        assert(m >= d);
        assert(outs[j - lo] == l.subrange(d, l.len() as int));
        assert(outs[j - lo][0] == l[d]);
    }
    (outs, lo, hi, d)
}

/// `t` with every line feed written as a carriage return and a line feed.
pub open spec fn crlf(t: Seq<char>) -> Seq<char>
    decreases t.len(),
{
    if t.len() == 0 {
        Seq::empty()
    } else {
        crlf(t.drop_last()) + if t.last() == '\n' {
            seq!['\r', '\n']
        } else {
            seq![t.last()]
        }
    }
}

proof fn lemma_crlf_single(c: char)
    ensures
        crlf(seq![c]) == if c == '\n' {
            seq!['\r', '\n']
        } else {
            seq![c]
        },
{
    assert(seq![c].drop_last() =~= Seq::<char>::empty());
    assert(crlf(Seq::<char>::empty()) == Seq::<char>::empty());
    assert(seq![c].last() == c);
    assert(Seq::<char>::empty() + seq!['\r', '\n'] =~= seq!['\r', '\n']);
    assert(Seq::<char>::empty() + seq![c] =~= seq![c]);
}

proof fn lemma_crlf_append(a: Seq<char>, b: Seq<char>)
    ensures
        crlf(a + b) == crlf(a) + crlf(b),
    decreases b.len(),
{
    if b.len() == 0 {
        assert(a + b =~= a);
        assert(crlf(a) + crlf(b) =~= crlf(a));
    } else {
        lemma_crlf_append(a, b.drop_last());
        assert((a + b).drop_last() =~= a + b.drop_last());
        assert((a + b).last() == b.last());
        let tail = if b.last() == '\n' {
            seq!['\r', '\n']
        } else {
            seq![b.last()]
        };
        assert(crlf(a) + crlf(b.drop_last()) + tail =~= crlf(a) + (crlf(b.drop_last()) + tail));
    }
}

proof fn lemma_crlf_plain(a: Seq<char>)
    requires
        forall|m: int| 0 <= m < a.len() ==> a[m] != '\n',
    ensures
        crlf(a) == a,
    decreases a.len(),
{
    if a.len() > 0 {
        lemma_crlf_plain(a.drop_last());
        assert(a.drop_last() + seq![a.last()] =~= a);
    }
}

/// Text without carriage returns splits into the same lines whether its
/// line feeds stand alone or after carriage returns.
proof fn lemma_crlf_split(u: Seq<char>)
    requires
        forall|m: int| 0 <= m < u.len() ==> u[m] != '\r',
    ensures
        split_lines(crlf(u)) == split_lines(u),
    decreases u.len(),
{
    if u.len() > 0 {
        lemma_first_newline(u, 0);
        match find_newline(u, 0) {
            Some(k) => {
                let a = u.subrange(0, k);
                let b = u.subrange(k + 1, u.len() as int);
                assert(u =~= a + seq!['\n'] + b);
                lemma_crlf_append(a + seq!['\n'], b);
                lemma_crlf_append(a, seq!['\n']);
                lemma_crlf_plain(a);
                lemma_crlf_single('\n');
                let c = crlf(u);
                assert(c =~= a + seq!['\r', '\n'] + crlf(b));
                assert forall|m: int| 0 <= m < k + 1 implies c[m] != '\n' by {
                    if m < k {
                        assert(c[m] == a[m]);
                    }
                }
                assert(c[k + 1] == '\n');
                lemma_find_newline(c, 0, k + 1);
                assert(c.subrange(0, k + 1) =~= a.push('\r'));
                assert(chomp_cr(a.push('\r')) =~= a);
                assert(c.subrange(k + 2, c.len() as int) =~= crlf(b));
                lemma_crlf_split(b);
                if a.len() > 0 {
                    assert(a.last() != '\r');
                }
                assert(chomp_cr(a) == a);
            },
            None => {
                lemma_crlf_plain(u);
            },
        }
    }
}

/// Line breaks written as a carriage return and a line feed strip exactly
/// as bare line feeds do: no kept line ends with the carriage return of
/// its break.
pub proof fn law_crlf_strips_as_lf(t: Seq<char>)
    requires
        forall|k: int| 0 <= k < t.len() ==> t[k] != '\r',
    ensures
        strip_indentation(crlf(t)) == strip_indentation(t),
{
    if t.len() > 0 && t[0] == '\n' {
        let rest = t.subrange(1, t.len() as int);
        assert(t =~= seq!['\n'] + rest);
        lemma_crlf_append(seq!['\n'], rest);
        lemma_crlf_single('\n');
        let c = crlf(t);
        assert(c =~= seq!['\r', '\n'] + crlf(rest));
        assert(drop_leading_newline(c) =~= crlf(rest));
        assert(drop_leading_newline(t) =~= rest);
        lemma_crlf_split(rest);
    } else {
        if t.len() > 0 {
            let rest = t.subrange(1, t.len() as int);
            assert(t =~= seq![t[0]] + rest);
            lemma_crlf_append(seq![t[0]], rest);
            lemma_crlf_single(t[0]);
            assert(crlf(t)[0] == t[0]);
        }
        assert(drop_leading_newline(crlf(t)) == crlf(t));
        assert(drop_leading_newline(t) == t);
        lemma_crlf_split(t);
    }
}

} // verus!
