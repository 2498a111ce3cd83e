//! Character classes and trivia of Datom source text, as specifications over
//! sequences of characters together with the executable checks that meet them.

use vstd::prelude::*;

verus! {

/// Unicode `White_Space`: the characters for which `char::is_whitespace` holds.
pub open spec fn is_ws(c: char) -> bool {
    ('\t' <= c && c <= '\r') || c == ' ' || c == '\u{85}' || c == '\u{a0}' || c == '\u{1680}'
        || ('\u{2000}' <= c && c <= '\u{200a}') || c == '\u{2028}' || c == '\u{2029}' || c
        == '\u{202f}' || c == '\u{205f}' || c == '\u{3000}'
}

/// Characters that end a bare symbol.
pub open spec fn is_bare_boundary(c: char) -> bool {
    is_ws(c) || c == '[' || c == ']' || c == '{' || c == '}' || c == '(' || c == ')' || c == '“'
        || c == '”' || c == '|' || c == ';'
}

/// Angle brackets, which Datom refuses wherever they stand in a symbol.
pub open spec fn is_angle(c: char) -> bool {
    c == '<' || c == '>'
}

/// Whether `c` is white space.
pub fn is_whitespace_char(c: char) -> (r: bool)
    ensures
        r == is_ws(c),
{
    ('\t' <= c && c <= '\r') || c == ' ' || c == '\u{85}' || c == '\u{a0}' || c == '\u{1680}'
        || ('\u{2000}' <= c && c <= '\u{200a}') || c == '\u{2028}' || c == '\u{2029}' || c
        == '\u{202f}' || c == '\u{205f}' || c == '\u{3000}'
}

/// Whether `c` ends a bare symbol.
pub fn is_boundary_char(c: char) -> (r: bool)
    ensures
        r == is_bare_boundary(c),
{
    is_whitespace_char(c) || c == '[' || c == ']' || c == '{' || c == '}' || c == '(' || c == ')'
        || c == '“' || c == '”' || c == '|' || c == ';'
}

/// The first index at or after `i` that is not white space.
pub open spec fn skip_ws(s: Seq<char>, i: int) -> int
    decreases s.len() - i,
{
    if 0 <= i < s.len() && is_ws(s[i]) {
        skip_ws(s, i + 1)
    } else {
        i
    }
}

/// The index just after the end of the line that holds `i`.
pub open spec fn skip_line(s: Seq<char>, i: int) -> int
    decreases s.len() - i,
{
    if 0 <= i < s.len() {
        if s[i] == '\n' {
            i + 1
        } else {
            skip_line(s, i + 1)
        }
    } else {
        i
    }
}

/// Whether a `;;` comment begins at `j`.
pub open spec fn starts_comment(s: Seq<char>, j: int) -> bool {
    0 <= j && j + 1 < s.len() && s[j] == ';' && s[j + 1] == ';'
}

pub proof fn lemma_skip_ws_bounds(s: Seq<char>, i: int)
    requires
        0 <= i <= s.len(),
    ensures
        i <= skip_ws(s, i) <= s.len(),
        skip_ws(s, i) < s.len() ==> !is_ws(s[skip_ws(s, i)]),
        forall|k: int| i <= k < skip_ws(s, i) ==> is_ws(#[trigger] s[k]),
    decreases s.len() - i,
{
    if i < s.len() && is_ws(s[i]) {
        lemma_skip_ws_bounds(s, i + 1);
    }
}

pub proof fn lemma_skip_line_bounds(s: Seq<char>, i: int)
    requires
        0 <= i < s.len(),
    ensures
        i < skip_line(s, i) <= s.len(),
    decreases s.len() - i,
{
    if s[i] != '\n' {
        if i + 1 < s.len() {
            lemma_skip_line_bounds(s, i + 1);
        } else {
            assert(skip_line(s, i + 1) == i + 1);
        }
    }
}

/// The first index at or after `i` that is neither white space nor inside a
/// `;;` comment.
pub open spec fn skip_trivia(s: Seq<char>, i: int) -> int
    decreases s.len() - i,
{
    if 0 <= i <= s.len() {
        let j = skip_ws(s, i);
        if starts_comment(s, j) {
            proof {
                lemma_skip_ws_bounds(s, i);
                lemma_skip_line_bounds(s, j);
            }
            skip_trivia(s, skip_line(s, j))
        } else {
            j
        }
    } else {
        i
    }
}

pub proof fn lemma_skip_trivia_bounds(s: Seq<char>, i: int)
    requires
        0 <= i <= s.len(),
    ensures
        i <= skip_trivia(s, i) <= s.len(),
        skip_trivia(s, i) < s.len() ==> !is_ws(s[skip_trivia(s, i)]),
        !starts_comment(s, skip_trivia(s, i)),
        skip_trivia(s, skip_trivia(s, i)) == skip_trivia(s, i),
    decreases s.len() - i,
{
    let j = skip_ws(s, i);
    lemma_skip_ws_bounds(s, i);
    if starts_comment(s, j) {
        lemma_skip_line_bounds(s, j);
        lemma_skip_trivia_bounds(s, skip_line(s, j));
    } else {
        if j < s.len() {
            assert(skip_ws(s, j) == j);
        }
    }
}

/// Trivia skipping ends exactly where `i` stands when nothing skippable is there.
pub proof fn lemma_skip_trivia_none(s: Seq<char>, i: int)
    requires
        0 <= i <= s.len(),
        i == s.len() || !is_ws(s[i]),
        !starts_comment(s, i),
    ensures
        skip_trivia(s, i) == i,
{
}

} // verus!
