//! The one Datom lexical parser.

use vstd::prelude::*;
use vstd::string::StrSliceExecFns;

use crate::expectation::{ProtosShape, ShapeProbe, shape_description, shape_is_dotted, shape_is_parenthesized};
use crate::indentation::{strip_common_indentation, strip_indentation};
use crate::strings::{chars_of, same_text};
use crate::lexis::{skip_ws, skip_line, lemma_skip_line_bounds, lemma_skip_ws_bounds, starts_comment, is_ws, is_bare_boundary, is_angle, skip_trivia, is_whitespace_char, is_boundary_char, lemma_skip_trivia_bounds};

verus! {

/// A ruled Datom read or write refusal.
#[derive(Clone, Debug, PartialEq, Eq)]
pub enum DatomError {
    EndOfInput { expected: &'static str },
    UnexpectedShape { expected: &'static str, found: ProtosShape },
    UnexpectedClosingDelimiter(char),
    ShapeNotYetRuled { shape: ProtosShape },
    PipeTextIsNotDatom,
    AnglesAreNotDatom,
    InvalidBareSymbol { text: String },
    InvalidScalar { expected: &'static str, text: String },
    InvalidEscape { escaped: char },
    Unterminated { shape: ProtosShape },
    ExpectedHead { expected: &'static str, found: Option<String> },
    TrailingInput { text: String },
    NonFiniteFloat,
}

/// The mathematical content of a [`DatomError`]: its text fields as
/// character sequences.
pub ghost enum DatomFault {
    EndOfInput { expected: Seq<char> },
    UnexpectedShape { expected: Seq<char>, found: ProtosShape },
    UnexpectedClosingDelimiter(char),
    ShapeNotYetRuled { shape: ProtosShape },
    PipeTextIsNotDatom,
    AnglesAreNotDatom,
    InvalidBareSymbol { text: Seq<char> },
    InvalidScalar { expected: Seq<char>, text: Seq<char> },
    InvalidEscape { escaped: char },
    Unterminated { shape: ProtosShape },
    ExpectedHead { expected: Seq<char>, found: Option<Seq<char>> },
    TrailingInput { text: Seq<char> },
    NonFiniteFloat,
}

impl View for DatomError {
    type V = DatomFault;

    open spec fn view(&self) -> DatomFault {
        match self {
            DatomError::EndOfInput { expected } => DatomFault::EndOfInput { expected: expected@ },
            DatomError::UnexpectedShape { expected, found } => DatomFault::UnexpectedShape {
                expected: expected@,
                found: *found,
            },
            DatomError::UnexpectedClosingDelimiter(c) => DatomFault::UnexpectedClosingDelimiter(*c),
            DatomError::ShapeNotYetRuled { shape } => DatomFault::ShapeNotYetRuled { shape: *shape },
            DatomError::PipeTextIsNotDatom => DatomFault::PipeTextIsNotDatom,
            DatomError::AnglesAreNotDatom => DatomFault::AnglesAreNotDatom,
            DatomError::InvalidBareSymbol { text } => DatomFault::InvalidBareSymbol { text: text@ },
            DatomError::InvalidScalar { expected, text } => DatomFault::InvalidScalar {
                expected: expected@,
                text: text@,
            },
            DatomError::InvalidEscape { escaped } => DatomFault::InvalidEscape { escaped: *escaped },
            DatomError::Unterminated { shape } => DatomFault::Unterminated { shape: *shape },
            DatomError::ExpectedHead { expected, found } => DatomFault::ExpectedHead {
                expected: expected@,
                found: match found {
                    Some(f) => Some(f@),
                    None => None,
                },
            },
            DatomError::TrailingInput { text } => DatomFault::TrailingInput { text: text@ },
            DatomError::NonFiniteFloat => DatomFault::NonFiniteFloat,
        }
    }
}


/// The outcome of a fallible step, with any refusal taken by its view.
pub open spec fn outcome<T>(r: Result<T, DatomError>) -> Result<T, DatomFault> {
    match r {
        Ok(v) => Ok(v),
        Err(e) => Err(e@),
    }
}

/// The outcome of a step that yields an index.
pub open spec fn index_outcome(r: Result<usize, DatomError>) -> Result<int, DatomFault> {
    match r {
        Ok(v) => Ok(v as int),
        Err(e) => Err(e@),
    }
}

/// The outcome of a probe: the met shape and its head as text.
pub open spec fn probe_outcome(r: Result<ShapeProbe, DatomError>) -> Result<
    (ProtosShape, Option<Seq<char>>),
    DatomFault,
> {
    match r {
        Ok(p) => Ok((p.spec_shape(), p.spec_head())),
        Err(e) => Err(e@),
    }
}

/// The end of the symbol that begins at `k`: the first bare boundary or the
/// end of the source, refused if an angle bracket comes first.
pub open spec fn scan_symbol(s: Seq<char>, k: int) -> Result<int, DatomFault>
    decreases s.len() - k,
{
    if 0 <= k < s.len() {
        if is_angle(s[k]) {
            Err(DatomFault::AnglesAreNotDatom)
        } else if is_bare_boundary(s[k]) {
            Ok(k)
        } else {
            scan_symbol(s, k + 1)
        }
    } else {
        Ok(k)
    }
}

/// The index of the first dot in `t` at or after `k`.
pub open spec fn find_dot(t: Seq<char>, k: int) -> Option<int>
    decreases t.len() - k,
{
    if 0 <= k < t.len() {
        if t[k] == '.' {
            Some(k)
        } else {
            find_dot(t, k + 1)
        }
    } else {
        None
    }
}

/// The shape announced by the character just after a head's dot.
pub open spec fn dotted_shape_at(s: Seq<char>, k: int) -> ProtosShape {
    if 0 <= k < s.len() && s[k] == '{' {
        ProtosShape::DotBraced
    } else if 0 <= k < s.len() && s[k] == '[' {
        ProtosShape::DotBracketed
    } else if 0 <= k < s.len() && s[k] == '(' {
        ProtosShape::DotParenthesized
    } else {
        ProtosShape::DotApplied
    }
}

/// The text of the first character at `j`, or nothing at the end.
pub open spec fn first_char_text(s: Seq<char>, j: int) -> Seq<char> {
    if 0 <= j < s.len() {
        s.subrange(j, j + 1)
    } else {
        Seq::empty()
    }
}

/// What a symbol beginning at `j` announces: a bare symbol, or a head and the
/// shape that follows its first dot.
pub open spec fn probe_symbol_at(s: Seq<char>, j: int) -> Result<
    (ProtosShape, Option<Seq<char>>),
    DatomFault,
> {
    match scan_symbol(s, j) {
        Err(e) => Err(e),
        Ok(end) => if end == j {
            Err(DatomFault::InvalidBareSymbol { text: first_char_text(s, j) })
        } else {
            let text = s.subrange(j, end);
            match find_dot(text, 0) {
                Some(off) => Ok((dotted_shape_at(s, j + off + 1), Some(text.subrange(0, off)))),
                None => Ok((ProtosShape::BareSymbol, Some(text))),
            }
        },
    }
}

/// What the next structural evidence after `i` is.
pub open spec fn probe_at(s: Seq<char>, i: int) -> Result<
    (ProtosShape, Option<Seq<char>>),
    DatomFault,
> {
    let j = skip_trivia(s, i);
    if j < 0 || j >= s.len() {
        Err(DatomFault::EndOfInput { expected: "a Datom value"@ })
    } else {
        let c = s[j];
        if c == '“' {
            Ok((ProtosShape::CurlyQuoteDelimited, None))
        } else if c == '(' && j + 1 < s.len() && s[j + 1] == '|' {
            Err(DatomFault::PipeTextIsNotDatom)
        } else if c == '(' {
            Ok((ProtosShape::ParenthesisDelimited, None))
        } else if c == '[' {
            Ok((ProtosShape::SquareBracketDelimited, None))
        } else if c == '{' {
            Ok((ProtosShape::BraceDelimited, None))
        } else if c == '|' {
            Err(DatomFault::PipeTextIsNotDatom)
        } else if is_angle(c) {
            Err(DatomFault::AnglesAreNotDatom)
        } else if c == ']' || c == '}' || c == '”' || c == ')' {
            Err(DatomFault::UnexpectedClosingDelimiter(c))
        } else {
            probe_symbol_at(s, j)
        }
    }
}


/// The end of a bare symbol that begins at `k`; a dot ends it too when `dot`.
pub open spec fn scan_bare(s: Seq<char>, k: int, dot: bool) -> Result<int, DatomFault>
    decreases s.len() - k,
{
    if 0 <= k < s.len() {
        if is_angle(s[k]) {
            Err(DatomFault::AnglesAreNotDatom)
        } else if (dot && s[k] == '.') || is_bare_boundary(s[k]) {
            Ok(k)
        } else {
            scan_bare(s, k + 1, dot)
        }
    } else {
        Ok(k)
    }
}

/// Where the bare symbol read after `i` begins and ends.
pub open spec fn take_bare_at(s: Seq<char>, i: int, dot: bool) -> Result<(int, int), DatomFault> {
    let j = skip_trivia(s, i);
    match scan_bare(s, j, dot) {
        Err(e) => Err(e),
        Ok(end) => if end == j {
            Err(DatomFault::InvalidBareSymbol { text: first_char_text(s, j) })
        } else {
            Ok((j, end))
        },
    }
}

/// The character a ruled escape `\e` stands for.
pub open spec fn unescaped(e: char) -> Option<char> {
    if e == '\\' || e == '“' || e == '”' {
        Some(e)
    } else if e == 'n' {
        Some('\n')
    } else if e == 'r' {
        Some('\r')
    } else if e == 't' {
        Some('\t')
    } else {
        None
    }
}

/// Legacy-string text from `k` on, inside `depth` open curly quotes with
/// `acc` read so far: the raw text and the index of the closing quote.
pub open spec fn scan_legacy(s: Seq<char>, k: int, depth: int, acc: Seq<char>) -> Result<
    (Seq<char>, int),
    DatomFault,
>
    decreases s.len() - k,
{
    if 0 <= k < s.len() {
        let c = s[k];
        if c == '\\' {
            if k + 1 < s.len() {
                match unescaped(s[k + 1]) {
                    Some(u) => scan_legacy(s, k + 2, depth, acc.push(u)),
                    None => Err(DatomFault::InvalidEscape { escaped: s[k + 1] }),
                }
            } else {
                Err(DatomFault::Unterminated { shape: ProtosShape::CurlyQuoteDelimited })
            }
        } else if c == '“' {
            scan_legacy(s, k + 1, depth + 1, acc.push(c))
        } else if c == '”' {
            if depth <= 1 {
                Ok((acc, k))
            } else {
                scan_legacy(s, k + 1, depth - 1, acc.push(c))
            }
        } else {
            scan_legacy(s, k + 1, depth, acc.push(c))
        }
    } else {
        Err(DatomFault::Unterminated { shape: ProtosShape::CurlyQuoteDelimited })
    }
}

/// The raw text of the legacy string after `i` and the index of its closing quote.
pub open spec fn legacy_at(s: Seq<char>, i: int) -> Result<(Seq<char>, int), DatomFault> {
    let j = skip_trivia(s, i);
    if 0 <= j < s.len() && s[j] == '“' {
        scan_legacy(s, j + 1, 1, Seq::empty())
    } else {
        Err(
            DatomFault::UnexpectedShape {
                expected: "a legacy string"@,
                found: match probe_at(s, j) {
                    Ok((shape, _)) => shape,
                    Err(_) => ProtosShape::CurlyQuoteDelimited,
                },
            },
        )
    }
}

/// Consuming the literal `c` after `i`: the index after it.
pub open spec fn literal_at(s: Seq<char>, i: int, c: char) -> Result<int, DatomFault> {
    let j = skip_trivia(s, i);
    if 0 <= j < s.len() {
        let found = s[j];
        if found == c {
            Ok(j + 1)
        } else if is_angle(found) {
            Err(DatomFault::AnglesAreNotDatom)
        } else if found == '|' {
            Err(DatomFault::PipeTextIsNotDatom)
        } else {
            Err(DatomFault::UnexpectedClosingDelimiter(found))
        }
    } else {
        Err(DatomFault::EndOfInput { expected: "a context terminator"@ })
    }
}

/// Whether trivia, white space or a comment, begins at `k`.
pub open spec fn trivia_at(s: Seq<char>, k: int) -> bool {
    skip_trivia(s, k) != k
}

/// Consuming a dot glued on both sides at `i`: the dot stands at `i`
/// itself, no trivia follows it, and the index after it is the result.
pub open spec fn dot_at(s: Seq<char>, i: int) -> Result<int, DatomFault> {
    if 0 <= i < s.len() {
        if s[i] != '.' {
            Err(DatomFault::UnexpectedClosingDelimiter(s[i]))
        } else if trivia_at(s, i + 1) {
            Err(
                DatomFault::UnexpectedShape {
                    expected: "a value glued to its dot"@,
                    found: ProtosShape::DotApplied,
                },
            )
        } else {
            Ok(i + 1)
        }
    } else {
        Err(DatomFault::EndOfInput { expected: "a glued dot"@ })
    }
}

/// Consuming the opener that follows a head's dot in a shape.
pub open spec fn dotted_opener_at(s: Seq<char>, k: int, shape: ProtosShape) -> Result<
    int,
    DatomFault,
> {
    match shape {
        ProtosShape::DotBraced => literal_at(s, k, '{'),
        ProtosShape::DotBracketed => literal_at(s, k, '['),
        ProtosShape::DotParenthesized => literal_at(s, k, '('),
        ProtosShape::DotApplied => Ok(k),
        _ => Err(
            DatomFault::UnexpectedShape { expected: "a dotted application"@, found: shape },
        ),
    }
}

/// Consuming `head.` and the opener of `shape` after `i`: the index after them.
pub open spec fn named_shape_at(s: Seq<char>, i: int, head: Seq<char>, shape: ProtosShape) -> Result<
    int,
    DatomFault,
> {
    match probe_at(s, i) {
        Err(e) => Err(e),
        Ok((found, h)) => if shape_is_parenthesized(found) {
            Err(DatomFault::ShapeNotYetRuled { shape: ProtosShape::ParenthesisDelimited })
        } else if found != shape {
            Err(DatomFault::UnexpectedShape { expected: shape_description(shape), found })
        } else if h != Some(head) {
            Err(DatomFault::ExpectedHead { expected: head, found: h })
        } else {
            match dot_at(s, skip_trivia(s, i) + head.len()) {
                Err(e) => Err(e),
                Ok(k) => dotted_opener_at(s, k, shape),
            }
        },
    }
}

/// Consuming the glued head and dot of a single-payload variant after `i`.
pub open spec fn head_dot_at(s: Seq<char>, i: int, head: Seq<char>) -> Result<int, DatomFault> {
    match probe_at(s, i) {
        Err(e) => Err(e),
        Ok((found, h)) => if shape_is_parenthesized(found) {
            Err(DatomFault::ShapeNotYetRuled { shape: ProtosShape::ParenthesisDelimited })
        } else if !shape_is_dotted(found) {
            Err(
                DatomFault::UnexpectedShape {
                    expected: "a dotted single-payload variant"@,
                    found,
                },
            )
        } else if h != Some(head) {
            Err(DatomFault::ExpectedHead { expected: head, found: h })
        } else {
            dot_at(s, skip_trivia(s, i) + head.len())
        },
    }
}

/// Consuming the terminator of a context of `shape` after `i`.
pub open spec fn terminator_at(s: Seq<char>, i: int, shape: ProtosShape) -> Result<int, DatomFault> {
    match shape {
        ProtosShape::CurlyQuoteDelimited => literal_at(s, i, '”'),
        ProtosShape::SquareBracketDelimited => literal_at(s, i, ']'),
        ProtosShape::BraceDelimited => literal_at(s, i, '}'),
        ProtosShape::DotApplied => dot_at(s, i),
        ProtosShape::ParenthesisDelimited => literal_at(s, i, ')'),
        _ => Err(DatomFault::UnexpectedShape { expected: "a context terminator"@, found: shape }),
    }
}

/// Consuming the opener of a context of `shape` after `i`.
pub open spec fn opener_at(s: Seq<char>, i: int, shape: ProtosShape) -> Result<int, DatomFault> {
    let j = skip_trivia(s, i);
    if 0 <= j < s.len() && s[j] == '(' {
        Err(DatomFault::ShapeNotYetRuled { shape: ProtosShape::ParenthesisDelimited })
    } else {
        match shape {
            ProtosShape::CurlyQuoteDelimited => literal_at(s, j, '“'),
            ProtosShape::SquareBracketDelimited => literal_at(s, j, '['),
            ProtosShape::BraceDelimited => literal_at(s, j, '{'),
            ProtosShape::ParenthesisDelimited => literal_at(s, j, '('),
            _ => Err(DatomFault::UnexpectedShape { expected: "a context opener"@, found: shape }),
        }
    }
}

/// The character that closes a context of `shape`, if it has one.
pub open spec fn closing_char(shape: ProtosShape) -> Option<char> {
    match shape {
        ProtosShape::SquareBracketDelimited => Some(']'),
        ProtosShape::BraceDelimited => Some('}'),
        ProtosShape::CurlyQuoteDelimited => Some('”'),
        ProtosShape::ParenthesisDelimited => Some(')'),
        ProtosShape::DotApplied => Some('.'),
        _ => None,
    }
}

/// Whether the terminator of `shape` is what follows `i`.
pub open spec fn at_terminator_at(s: Seq<char>, i: int, shape: ProtosShape) -> bool {
    let j = skip_trivia(s, i);
    0 <= j < s.len() && closing_char(shape) == Some(s[j])
}

/// Whether only trivia follows `i`.
pub open spec fn finish_at(s: Seq<char>, i: int) -> Result<(), DatomFault> {
    let j = skip_trivia(s, i);
    if j >= s.len() {
        Ok(())
    } else {
        Err(
            DatomFault::TrailingInput {
                text: s.subrange(j, if j + 16 < s.len() {
                    j + 16
                } else {
                    s.len() as int
                }),
            },
        )
    }
}

pub proof fn lemma_scan_symbol_bounds(s: Seq<char>, k: int)
    requires
        0 <= k <= s.len(),
    ensures
        scan_symbol(s, k) matches Ok(e) ==> k <= e <= s.len(),
    decreases s.len() - k,
{
    if k < s.len() && !is_angle(s[k]) && !is_bare_boundary(s[k]) {
        lemma_scan_symbol_bounds(s, k + 1);
    }
}

pub proof fn lemma_scan_bare_bounds(s: Seq<char>, k: int, dot: bool)
    requires
        0 <= k <= s.len(),
    ensures
        scan_bare(s, k, dot) matches Ok(e) ==> k <= e <= s.len(),
    decreases s.len() - k,
{
    if k < s.len() && !is_angle(s[k]) && !((dot && s[k] == '.') || is_bare_boundary(s[k])) {
        lemma_scan_bare_bounds(s, k + 1, dot);
    }
}

pub proof fn lemma_find_dot_bounds(t: Seq<char>, k: int)
    requires
        0 <= k,
    ensures
        find_dot(t, k) matches Some(o) ==> k <= o < t.len() && t[o] == '.',
    decreases t.len() - k,
{
    if k < t.len() && t[k] != '.' {
        lemma_find_dot_bounds(t, k + 1);
    }
}

pub proof fn lemma_scan_legacy_bounds(s: Seq<char>, k: int, depth: int, acc: Seq<char>)
    requires
        0 <= k,
    ensures
        scan_legacy(s, k, depth, acc) matches Ok((_, e)) ==> k <= e < s.len() && s[e] == '”',
    decreases s.len() - k,
{
    if 0 <= k < s.len() {
        let c = s[k];
        if c == '\\' {
            if k + 1 < s.len() {
                if let Some(u) = unescaped(s[k + 1]) {
                    lemma_scan_legacy_bounds(s, k + 2, depth, acc.push(u));
                }
            }
        } else if c == '“' {
            lemma_scan_legacy_bounds(s, k + 1, depth + 1, acc.push(c));
        } else if c == '”' {
            if depth > 1 {
                lemma_scan_legacy_bounds(s, k + 1, depth - 1, acc.push(c));
            }
        } else {
            lemma_scan_legacy_bounds(s, k + 1, depth, acc.push(c));
        }
    }
}

/// Inside a legacy string each ruled escape reads as its fixed character:
/// `\n` as a line feed, `\r` as a carriage return, `\t` as a tab, and `\\`,
/// `\“`, `\”` as the escaped character itself; any other escaped character
/// is refused.
pub proof fn law_escapes_read_as(s: Seq<char>, k: int, depth: int, acc: Seq<char>)
    requires
        0 <= k,
        k + 1 < s.len(),
        s[k] == '\\',
    ensures
        s[k + 1] == 'n' ==> scan_legacy(s, k, depth, acc) == scan_legacy(s, k + 2, depth, acc.push('\n')),
        s[k + 1] == 'r' ==> scan_legacy(s, k, depth, acc) == scan_legacy(s, k + 2, depth, acc.push('\r')),
        s[k + 1] == 't' ==> scan_legacy(s, k, depth, acc) == scan_legacy(s, k + 2, depth, acc.push('\t')),
        s[k + 1] == '\\' ==> scan_legacy(s, k, depth, acc) == scan_legacy(s, k + 2, depth, acc.push('\\')),
        s[k + 1] == '“' ==> scan_legacy(s, k, depth, acc) == scan_legacy(s, k + 2, depth, acc.push('“')),
        s[k + 1] == '”' ==> scan_legacy(s, k, depth, acc) == scan_legacy(s, k + 2, depth, acc.push('”')),
        !(s[k + 1] == 'n' || s[k + 1] == 'r' || s[k + 1] == 't' || s[k + 1] == '\\' || s[k + 1] == '“'
            || s[k + 1] == '”') ==> scan_legacy(s, k, depth, acc) == Err::<(Seq<char>, int), DatomFault>(
            DatomFault::InvalidEscape { escaped: s[k + 1] },
        ),
{
}

/// A legacy string that holds one escape and nothing else, met after any
/// trivia, reads as the one character the escape stands for, and the read
/// stops at its closing quote.
pub proof fn law_single_escape_reads_as(s: Seq<char>, i: int, e: char)
    requires
        0 <= i <= s.len(),
        skip_trivia(s, i) + 3 < s.len(),
        s[skip_trivia(s, i)] == '“',
        s[skip_trivia(s, i) + 1] == '\\',
        s[skip_trivia(s, i) + 2] == e,
        s[skip_trivia(s, i) + 3] == '”',
    ensures
        e == 'n' ==> legacy_at(s, i) == Ok::<(Seq<char>, int), DatomFault>((seq!['\n'], skip_trivia(s, i) + 3)),
        e == 'r' ==> legacy_at(s, i) == Ok::<(Seq<char>, int), DatomFault>((seq!['\r'], skip_trivia(s, i) + 3)),
        e == 't' ==> legacy_at(s, i) == Ok::<(Seq<char>, int), DatomFault>((seq!['\t'], skip_trivia(s, i) + 3)),
{
    let j = skip_trivia(s, i);
    lemma_skip_trivia_bounds(s, i);
    law_escapes_read_as(s, j + 1, 1, Seq::empty());
    assert(Seq::<char>::empty().push('\n') =~= seq!['\n']);
    assert(Seq::<char>::empty().push('\r') =~= seq!['\r']);
    assert(Seq::<char>::empty().push('\t') =~= seq!['\t']);
}

/// Consuming a terminator moves past at least one character.
pub proof fn lemma_terminator_advances(s: Seq<char>, i: int, shape: ProtosShape)
    requires
        0 <= i <= s.len(),
    ensures
        terminator_at(s, i, shape) matches Ok(k) ==> i < k <= s.len(),
        literal_at(s, i, '”') matches Ok(k) ==> i < k <= s.len(),
{
    lemma_skip_trivia_bounds(s, i);
}

/// Consuming a named shape moves past at least one character.
pub proof fn lemma_named_shape_advances(s: Seq<char>, i: int, head: Seq<char>, shape: ProtosShape)
    requires
        0 <= i <= s.len(),
    ensures
        named_shape_at(s, i, head, shape) matches Ok(k) ==> i < k <= s.len(),
        opener_at(s, i, shape) matches Ok(k) ==> i < k <= s.len(),
        head_dot_at(s, i, head) matches Ok(k) ==> i < k <= s.len(),
{
    lemma_skip_trivia_bounds(s, i);
    let j = skip_trivia(s, i);
    lemma_skip_trivia_bounds(s, j);
    lemma_probe_head(s, i);
    if j + head.len() <= s.len() {
        lemma_skip_trivia_bounds(s, j + head.len());
        let d = skip_trivia(s, j + head.len());
        if d < s.len() {
            lemma_skip_trivia_bounds(s, d + 1);
        }
    }
}

/// A head a probe reports stands in the source just after the trivia.
pub proof fn lemma_probe_head(s: Seq<char>, i: int)
    requires
        0 <= i <= s.len(),
    ensures
        probe_at(s, i) matches Ok((_, Some(h))) ==> skip_trivia(s, i) + h.len() <= s.len()
            && s.subrange(skip_trivia(s, i), skip_trivia(s, i) + h.len()) == h,
{
    let j = skip_trivia(s, i);
    lemma_skip_trivia_bounds(s, i);
    if j < s.len() {
        lemma_scan_symbol_bounds(s, j);
        if let Ok(end) = scan_symbol(s, j) {
            let text = s.subrange(j, end);
            lemma_find_dot_bounds(text, 0);
            if let Some(off) = find_dot(text, 0) {
                assert(s.subrange(j, j + off) =~= text.subrange(0, off));
            }
        }
    }
}

/// The parser's cursor over one Datom source, counted in characters.
pub(crate) struct Parser<'source> {
    source: &'source str,
    chars: Vec<char>,
    index: usize,
}

impl<'source> Parser<'source> {
    pub(crate) closed spec fn text(&self) -> Seq<char> {
        self.chars@
    }

    pub(crate) closed spec fn at(&self) -> int {
        self.index as int
    }

    pub(crate) closed spec fn wf(&self) -> bool {
        &&& self.chars@ == self.source@
        &&& self.index <= self.chars@.len()
    }

    pub(crate) fn new(source: &'source str) -> (r: Self)
        ensures
            r.wf(),
            r.text() == source@,
            r.at() == 0,
    {
        let chars = chars_of(source);
        Parser { source, chars, index: 0 }
    }

    fn current(&self) -> (r: Option<char>)
        requires
            self.wf(),
        ensures
            r == (if self.at() < self.text().len() {
                Some(self.text()[self.at()])
            } else {
                None::<char>
            }),
    {
        if self.index < self.chars.len() {
            Some(self.chars[self.index])
        } else {
            None
        }
    }

    fn skip_trivia(&mut self)
        requires
            old(self).wf(),
        ensures
            final(self).wf(),
            final(self).text() == old(self).text(),
            final(self).at() == skip_trivia(old(self).text(), old(self).at()),
    {
        let ghost s = self.chars@;
        let ghost i0 = self.index as int;
        proof {
            lemma_skip_trivia_bounds(s, i0);
        }
        loop
            invariant
                self.wf(),
                self.chars@ == s,
                s == old(self).text(),
                i0 == old(self).at(),
                i0 <= self.index,
                skip_trivia(s, self.index as int) == skip_trivia(s, i0),
            decreases self.chars@.len() - self.index,
        {
            let ghost before = self.index as int;
            while self.index < self.chars.len() && is_whitespace_char(self.chars[self.index])
                invariant
                    self.wf(),
                    self.chars@ == s,
                    before <= self.index,
                    skip_ws(s, self.index as int) == skip_ws(s, before),
                decreases self.chars@.len() - self.index,
            {
                self.index = self.index + 1;
            }
            if self.chars.len() - self.index > 1 && self.chars[self.index] == ';'
                && self.chars[self.index + 1] == ';' {
                let ghost j = self.index as int;
                while self.index < self.chars.len() && self.chars[self.index] != '\n'
                    invariant
                        self.wf(),
                        self.chars@ == s,
                        j <= self.index,
                        skip_line(s, self.index as int) == skip_line(s, j),
                    decreases self.chars@.len() - self.index,
                {
                    self.index = self.index + 1;
                }
                if self.index < self.chars.len() {
                    self.index = self.index + 1;
                }
                proof {
                    lemma_skip_line_bounds(s, j);
                }
            } else {
                return;
            }
        }
    }

    /// The text of the first character at `j`, or nothing at the end.
    fn first_char_text(&self, j: usize) -> (r: String)
        requires
            self.wf(),
        ensures
            r@ == first_char_text(self.text(), j as int),
    {
        if j < self.chars.len() {
            self.source.substring_char(j, j + 1).to_owned()
        } else {
            String::new()
        }
    }

    /// The end of the symbol that begins at the cursor.
    fn symbol_end(&self) -> (r: Result<usize, DatomError>)
        requires
            self.wf(),
        ensures
            index_outcome(r) == scan_symbol(self.text(), self.at()),
            r matches Ok(e) ==> self.at() <= e <= self.text().len(),
    {
        let ghost s = self.chars@;
        let mut end = self.index;
        while end < self.chars.len()
            invariant
                self.wf(),
                s == self.chars@,
                self.index <= end <= s.len(),
                scan_symbol(s, end as int) == scan_symbol(s, self.at()),
            decreases s.len() - end,
        {
            let character = self.chars[end];
            if character == '<' || character == '>' {
                return Err(DatomError::AnglesAreNotDatom);
            }
            if is_boundary_char(character) {
                return Ok(end);
            }
            end = end + 1;
        }
        Ok(end)
    }

    /// What the symbol at the cursor announces.
    fn probe_symbol(&self) -> (r: Result<ShapeProbe<'source>, DatomError>)
        requires
            self.wf(),
        ensures
            probe_outcome(r) == probe_symbol_at(self.text(), self.at()),
    {
        let ghost s = self.chars@;
        let start = self.index;
        let end = self.symbol_end()?;
        if end == start {
            return Err(DatomError::InvalidBareSymbol { text: self.first_char_text(start) });
        }
        let ghost text = s.subrange(start as int, end as int);
        let mut k = start;
        while k < end && self.chars[k] != '.'
            invariant
                self.wf(),
                s == self.chars@,
                start <= k <= end <= s.len(),
                text == s.subrange(start as int, end as int),
                find_dot(text, k - start) == find_dot(text, 0),
            decreases end - k,
        {
            k = k + 1;
        }
        if k < end {
            let head = self.source.substring_char(start, k);
            let after = k + 1;
            let shape = if after < self.chars.len() && self.chars[after] == '{' {
                ProtosShape::DotBraced
            } else if after < self.chars.len() && self.chars[after] == '[' {
                ProtosShape::DotBracketed
            } else if after < self.chars.len() && self.chars[after] == '(' {
                ProtosShape::DotParenthesized
            } else {
                ProtosShape::DotApplied
            };
            assert(head@ =~= text.subrange(0, k - start));
            Ok(ShapeProbe::new(shape, Some(head)))
        } else {
            let t = self.source.substring_char(start, end);
            Ok(ShapeProbe::new(ProtosShape::BareSymbol, Some(t)))
        }
    }

    /// Skip trivia, then report the next structural evidence.
    pub(crate) fn probe(&mut self) -> (r: Result<ShapeProbe<'source>, DatomError>)
        requires
            old(self).wf(),
        ensures
            final(self).wf(),
            final(self).text() == old(self).text(),
            final(self).at() == skip_trivia(old(self).text(), old(self).at()),
            probe_outcome(r) == probe_at(old(self).text(), old(self).at()),
    {
        self.skip_trivia();
        proof {
            lemma_skip_trivia_bounds(self.chars@, old(self).at());
        }
        let first = match self.current() {
            Some(c) => c,
            None => {
                return Err(DatomError::EndOfInput { expected: "a Datom value" });
            },
        };
        if first == '“' {
            Ok(ShapeProbe::new(ProtosShape::CurlyQuoteDelimited, None))
        } else if first == '(' && self.chars.len() - self.index > 1 && self.chars[self.index + 1] == '|' {
            Err(DatomError::PipeTextIsNotDatom)
        } else if first == '(' {
            Ok(ShapeProbe::new(ProtosShape::ParenthesisDelimited, None))
        } else if first == '[' {
            Ok(ShapeProbe::new(ProtosShape::SquareBracketDelimited, None))
        } else if first == '{' {
            Ok(ShapeProbe::new(ProtosShape::BraceDelimited, None))
        } else if first == '|' {
            Err(DatomError::PipeTextIsNotDatom)
        } else if first == '<' || first == '>' {
            Err(DatomError::AnglesAreNotDatom)
        } else if first == ']' || first == '}' || first == '”' || first == ')' {
            Err(DatomError::UnexpectedClosingDelimiter(first))
        } else {
            self.probe_symbol()
        }
    }

    pub(crate) proof fn lemma_cursor(&self)
        requires
            self.wf(),
        ensures
            0 <= self.at() <= self.text().len(),
    {
    }

    /// The cursor has moved forward over the same source.
    pub(crate) open spec fn moved_from(&self, before: &Self) -> bool {
        &&& self.wf()
        &&& self.text() == before.text()
        &&& before.at() <= self.at()
    }

    /// Read a bare symbol; a dot ends it only when `dot_terminates`.
    pub(crate) fn take_bare(&mut self, dot_terminates: bool) -> (r: Result<&'source str, DatomError>)
        requires
            old(self).wf(),
        ensures
            final(self).moved_from(old(self)),
            match take_bare_at(old(self).text(), old(self).at(), dot_terminates) {
                Ok((j, e)) => (r matches Ok(t) && t@ == old(self).text().subrange(j, e))
                    && final(self).at() == e && old(self).at() <= j < e,
                Err(f) => r matches Err(x) && x@ == f,
            },
    {
        self.skip_trivia();
        let ghost s = self.chars@;
        proof {
            lemma_skip_trivia_bounds(s, old(self).at());
        }
        let start = self.index;
        while self.index < self.chars.len() && !(self.chars[self.index] == '<'
            || self.chars[self.index] == '>') && !((dot_terminates && self.chars[self.index] == '.')
            || is_boundary_char(self.chars[self.index]))
            invariant
                self.wf(),
                s == self.chars@,
                start <= self.index <= s.len(),
                scan_bare(s, self.index as int, dot_terminates) == scan_bare(
                    s,
                    start as int,
                    dot_terminates,
                ),
            decreases s.len() - self.index,
        {
            self.index = self.index + 1;
        }
        if self.index < self.chars.len() && (self.chars[self.index] == '<' || self.chars[self.index]
            == '>') {
            return Err(DatomError::AnglesAreNotDatom);
        }
        if self.index == start {
            return Err(DatomError::InvalidBareSymbol { text: self.first_char_text(start) });
        }
        proof {
            lemma_scan_bare_bounds(s, start as int, dot_terminates);
        }
        Ok(self.source.substring_char(start, self.index))
    }

    /// Read the raw text of the legacy string that opens after the cursor,
    /// leaving the cursor at its closing quote, and strip its indentation.
    pub(crate) fn take_legacy_string(&mut self) -> (r: Result<String, DatomError>)
        requires
            old(self).wf(),
        ensures
            final(self).moved_from(old(self)),
            match legacy_at(old(self).text(), old(self).at()) {
                Ok((raw, k)) => (r matches Ok(t) && t@ == strip_indentation(raw)) && final(self).at()
                    == k && old(self).at() < k < old(self).text().len() && old(self).text()[k] == '”',
                Err(f) => r matches Err(x) && x@ == f,
            },
    {
        self.skip_trivia();
        let ghost s = self.chars@;
        proof {
            lemma_skip_trivia_bounds(s, old(self).at());
        }
        if !(self.index < self.chars.len() && self.chars[self.index] == '“') {
            return Err(self.expected_shape("a legacy string", ProtosShape::CurlyQuoteDelimited));
        }
        let ghost j = self.index as int;
        self.index = self.index + 1;
        let mut depth: usize = 1;
        let mut text: Vec<char> = Vec::new();
        while self.index < self.chars.len()
            invariant
                self.wf(),
                s == self.chars@,
                s == old(self).text(),
                j == skip_trivia(s, old(self).at()),
                old(self).at() <= j,
                s[j] == '“',
                j < self.index <= s.len(),
                1 <= depth <= self.index - j,
                scan_legacy(s, self.index as int, depth as int, text@) == scan_legacy(
                    s,
                    j + 1,
                    1,
                    Seq::empty(),
                ),
            decreases s.len() - self.index,
        {
            let character = self.chars[self.index];
            let ghost k0 = self.index as int;
            if character == '\\' {
                self.index = self.index + 1;
                if self.index >= self.chars.len() {
                    assert(scan_legacy(s, k0, depth as int, text@) == Err::<(Seq<char>, int), _>(
                        DatomFault::Unterminated { shape: ProtosShape::CurlyQuoteDelimited },
                    ));
                    return Err(DatomError::Unterminated { shape: ProtosShape::CurlyQuoteDelimited });
                }
                let escaped = self.chars[self.index];
                self.index = self.index + 1;
                if escaped == '\\' || escaped == '“' || escaped == '”' {
                    text.push(escaped);
                } else if escaped == 'n' {
                    text.push('\n');
                } else if escaped == 'r' {
                    text.push('\r');
                } else if escaped == 't' {
                    text.push('\t');
                } else {
                    assert(scan_legacy(s, k0, depth as int, text@) == Err::<(Seq<char>, int), _>(
                        DatomFault::InvalidEscape { escaped },
                    ));
                    return Err(DatomError::InvalidEscape { escaped });
                }
            } else if character == '“' {
                self.index = self.index + 1;
                depth = depth + 1;
                text.push(character);
            } else if character == '”' {
                if depth == 1 {
                    proof {
                        lemma_scan_legacy_bounds(s, j + 1, 1, Seq::empty());
                    }
                    return Ok(strip_common_indentation(&text));
                }
                self.index = self.index + 1;
                depth = depth - 1;
                text.push(character);
            } else {
                self.index = self.index + 1;
                text.push(character);
            }
        }
        Err(DatomError::Unterminated { shape: ProtosShape::CurlyQuoteDelimited })
    }

    /// The refusal for a position that does not hold the `expected` shape.
    fn expected_shape(&mut self, expected: &'static str, fallback: ProtosShape) -> (r: DatomError)
        requires
            old(self).wf(),
        ensures
            final(self).moved_from(old(self)),
            r@ == (DatomFault::UnexpectedShape {
                expected: expected@,
                found: match probe_at(old(self).text(), old(self).at()) {
                    Ok((shape, _)) => shape,
                    Err(_) => fallback,
                },
            }),
    {
        proof {
            lemma_skip_trivia_bounds(self.chars@, self.index as int);
        }
        match self.probe() {
            Ok(probe) => DatomError::UnexpectedShape { expected, found: probe.shape() },
            Err(_) => DatomError::UnexpectedShape { expected, found: fallback },
        }
    }

    fn consume_literal(&mut self, expected: char) -> (r: Result<(), DatomError>)
        requires
            old(self).wf(),
        ensures
            final(self).moved_from(old(self)),
            match literal_at(old(self).text(), old(self).at(), expected) {
                Ok(k) => r is Ok && final(self).at() == k,
                Err(f) => r matches Err(x) && x@ == f,
            },
    {
        self.skip_trivia();
        proof {
            lemma_skip_trivia_bounds(self.chars@, old(self).at());
        }
        if self.index < self.chars.len() {
            let found = self.chars[self.index];
            if found == expected {
                self.index = self.index + 1;
                Ok(())
            } else if found == '<' || found == '>' {
                Err(DatomError::AnglesAreNotDatom)
            } else if found == '|' {
                Err(DatomError::PipeTextIsNotDatom)
            } else {
                Err(DatomError::UnexpectedClosingDelimiter(found))
            }
        } else {
            Err(DatomError::EndOfInput { expected: "a context terminator" })
        }
    }

    fn consume_dot(&mut self) -> (r: Result<(), DatomError>)
        requires
            old(self).wf(),
        ensures
            final(self).moved_from(old(self)),
            match dot_at(old(self).text(), old(self).at()) {
                Ok(k) => r is Ok && final(self).at() == k,
                Err(f) => r matches Err(x) && x@ == f,
            },
    {
        if self.index < self.chars.len() {
            let found = self.chars[self.index];
            if found != '.' {
                Err(DatomError::UnexpectedClosingDelimiter(found))
            } else if self.trivia_at(self.index + 1) {
                Err(
                    DatomError::UnexpectedShape {
                        expected: "a value glued to its dot",
                        found: ProtosShape::DotApplied,
                    },
                )
            } else {
                self.index = self.index + 1;
                Ok(())
            }
        } else {
            Err(DatomError::EndOfInput { expected: "a glued dot" })
        }
    }

    /// Whether trivia begins at `k`.
    fn trivia_at(&self, k: usize) -> (r: bool)
        requires
            self.wf(),
            k <= self.text().len(),
        ensures
            r == trivia_at(self.text(), k as int),
    {
        let ghost s = self.chars@;
        proof {
            lemma_skip_ws_bounds(s, k as int);
            if (k as int) < s.len() {
                lemma_skip_ws_bounds(s, k + 1);
                if starts_comment(s, k as int) {
                    lemma_skip_line_bounds(s, k as int);
                    lemma_skip_trivia_bounds(s, skip_line(s, k as int));
                } else if is_ws(s[k as int]) {
                    let j = skip_ws(s, k as int);
                    if starts_comment(s, j) {
                        lemma_skip_line_bounds(s, j);
                        lemma_skip_trivia_bounds(s, skip_line(s, j));
                    }
                }
            }
        }
        if k < self.chars.len() {
            is_whitespace_char(self.chars[k]) || (self.chars.len() - k > 1 && self.chars[k] == ';'
                && self.chars[k + 1] == ';')
        } else {
            false
        }
    }

    /// Whether a probed head is exactly `expected`.
    fn head_is(head: Option<&'source str>, expected: &'static str) -> (r: bool)
        ensures
            r == (match head {
                Some(h) => h@ == expected@,
                None => false,
            }),
    {
        match head {
            Some(h) => same_text(h, expected),
            None => false,
        }
    }

    /// The refusal for a met head other than `expected`.
    fn head_mismatch(expected: &'static str, head: Option<&'source str>) -> (r: DatomError)
        ensures
            r@ == (DatomFault::ExpectedHead {
                expected: expected@,
                found: match head {
                    Some(h) => Some(h@),
                    None => None,
                },
            }),
    {
        DatomError::ExpectedHead {
            expected,
            found: match head {
                Some(h) => Some(h.to_owned()),
                None => None,
            },
        }
    }

    /// Consume `expected_head.` and the opener of the dotted `expected_shape`.
    pub(crate) fn consume_named_shape(
        &mut self,
        expected_head: &'static str,
        expected_shape: ProtosShape,
    ) -> (r: Result<(), DatomError>)
        requires
            old(self).wf(),
        ensures
            final(self).moved_from(old(self)),
            match named_shape_at(old(self).text(), old(self).at(), expected_head@, expected_shape) {
                Ok(k) => r is Ok && final(self).at() == k,
                Err(f) => r matches Err(x) && x@ == f,
            },
    {
        proof {
            lemma_probe_head(self.chars@, self.index as int);
            lemma_skip_trivia_bounds(self.chars@, self.index as int);
        }
        let ghost s0 = self.chars@;
        let ghost i0 = self.index as int;
        let probe = self.probe()?;
        assert(probe_at(s0, i0) == Ok::<_, DatomFault>((probe.spec_shape(), probe.spec_head())));
        if probe.shape() == ProtosShape::ParenthesisDelimited || probe.shape()
            == ProtosShape::DotParenthesized {
            return Err(DatomError::ShapeNotYetRuled { shape: ProtosShape::ParenthesisDelimited });
        }
        if probe.shape() != expected_shape {
            return Err(
                DatomError::UnexpectedShape {
                    expected: expected_shape.description(),
                    found: probe.shape(),
                },
            );
        }
        if !Self::head_is(probe.head(), expected_head) {
            return Err(Self::head_mismatch(expected_head, probe.head()));
        }
        let head_len = expected_head.unicode_len();
        let n = self.chars.len();
        proof {
            assert(probe.spec_head() == Some(expected_head@));
            assert(probe_at(s0, i0)->Ok_0.1 == Some(expected_head@));
            assert(skip_trivia(s0, i0) + expected_head@.len() <= s0.len());
            assert(head_len as int == expected_head@.len());
            assert(self.index as int == skip_trivia(s0, i0));
        }
        self.index = self.index + head_len;
        self.consume_dot()?;
        match expected_shape {
            ProtosShape::DotBraced => self.consume_literal('{'),
            ProtosShape::DotBracketed => self.consume_literal('['),
            ProtosShape::DotParenthesized => self.consume_literal('('),
            ProtosShape::DotApplied => Ok(()),
            _ => Err(
                DatomError::UnexpectedShape {
                    expected: "a dotted application",
                    found: expected_shape,
                },
            ),
        }
    }

    /// Consume the glued `expected_head.` of a single-payload variant.
    pub(crate) fn consume_head_dot(&mut self, expected_head: &'static str) -> (r: Result<
        (),
        DatomError,
    >)
        requires
            old(self).wf(),
        ensures
            final(self).moved_from(old(self)),
            match head_dot_at(old(self).text(), old(self).at(), expected_head@) {
                Ok(k) => r is Ok && final(self).at() == k,
                Err(f) => r matches Err(x) && x@ == f,
            },
    {
        proof {
            lemma_probe_head(self.chars@, self.index as int);
            lemma_skip_trivia_bounds(self.chars@, self.index as int);
        }
        let ghost s0 = self.chars@;
        let ghost i0 = self.index as int;
        let probe = self.probe()?;
        assert(probe_at(s0, i0) == Ok::<_, DatomFault>((probe.spec_shape(), probe.spec_head())));
        if probe.shape() == ProtosShape::ParenthesisDelimited || probe.shape()
            == ProtosShape::DotParenthesized {
            return Err(DatomError::ShapeNotYetRuled { shape: ProtosShape::ParenthesisDelimited });
        }
        if !probe.shape().is_dotted() {
            return Err(
                DatomError::UnexpectedShape {
                    expected: "a dotted single-payload variant",
                    found: probe.shape(),
                },
            );
        }
        if !Self::head_is(probe.head(), expected_head) {
            return Err(Self::head_mismatch(expected_head, probe.head()));
        }
        let head_len = expected_head.unicode_len();
        let n = self.chars.len();
        proof {
            assert(probe.spec_head() == Some(expected_head@));
            assert(probe_at(s0, i0)->Ok_0.1 == Some(expected_head@));
            assert(skip_trivia(s0, i0) + expected_head@.len() <= s0.len());
            assert(head_len as int == expected_head@.len());
            assert(self.index as int == skip_trivia(s0, i0));
        }
        self.index = self.index + head_len;
        self.consume_dot()?;
        Ok(())
    }

    /// Consume the terminator of a context of `shape`.
    pub(crate) fn consume_terminator(&mut self, shape: ProtosShape) -> (r: Result<(), DatomError>)
        requires
            old(self).wf(),
        ensures
            final(self).moved_from(old(self)),
            match terminator_at(old(self).text(), old(self).at(), shape) {
                Ok(k) => r is Ok && final(self).at() == k,
                Err(f) => r matches Err(x) && x@ == f,
            },
    {
        match shape {
            ProtosShape::CurlyQuoteDelimited => self.consume_literal('”'),
            ProtosShape::SquareBracketDelimited => self.consume_literal(']'),
            ProtosShape::BraceDelimited => self.consume_literal('}'),
            ProtosShape::DotApplied => self.consume_dot(),
            ProtosShape::ParenthesisDelimited => self.consume_literal(')'),
            _ => Err(DatomError::UnexpectedShape { expected: "a context terminator", found: shape }),
        }
    }

    /// Consume the opener of a context of `shape`.
    pub(crate) fn consume_opener(&mut self, shape: ProtosShape) -> (r: Result<(), DatomError>)
        requires
            old(self).wf(),
        ensures
            final(self).moved_from(old(self)),
            match opener_at(old(self).text(), old(self).at(), shape) {
                Ok(k) => r is Ok && final(self).at() == k,
                Err(f) => r matches Err(x) && x@ == f,
            },
    {
        self.skip_trivia();
        proof {
            lemma_skip_trivia_bounds(self.chars@, old(self).at());
        }
        if self.current() == Some('(') {
            return Err(DatomError::ShapeNotYetRuled { shape: ProtosShape::ParenthesisDelimited });
        }
        match shape {
            ProtosShape::CurlyQuoteDelimited => self.consume_literal('“'),
            ProtosShape::SquareBracketDelimited => self.consume_literal('['),
            ProtosShape::BraceDelimited => self.consume_literal('{'),
            ProtosShape::ParenthesisDelimited => self.consume_literal('('),
            _ => Err(DatomError::UnexpectedShape { expected: "a context opener", found: shape }),
        }
    }

    /// Whether the terminator of `shape` follows, after skipping trivia.
    pub(crate) fn at_terminator(&mut self, shape: ProtosShape) -> (r: bool)
        requires
            old(self).wf(),
        ensures
            final(self).wf(),
            final(self).text() == old(self).text(),
            final(self).at() == skip_trivia(old(self).text(), old(self).at()),
            r == at_terminator_at(old(self).text(), old(self).at(), shape),
    {
        self.skip_trivia();
        proof {
            lemma_skip_trivia_bounds(self.chars@, old(self).at());
        }
        match (shape, self.current()) {
            (ProtosShape::SquareBracketDelimited, Some(']')) => true,
            (ProtosShape::BraceDelimited, Some('}')) => true,
            (ProtosShape::CurlyQuoteDelimited, Some('”')) => true,
            (ProtosShape::ParenthesisDelimited, Some(')')) => true,
            (ProtosShape::DotApplied, Some('.')) => true,
            _ => false,
        }
    }

    /// Whether a parenthesis opens after the trivia, which is skipped.
    pub(crate) fn at_parenthesis(&mut self) -> (r: bool)
        requires
            old(self).wf(),
        ensures
            final(self).wf(),
            final(self).text() == old(self).text(),
            final(self).at() == skip_trivia(old(self).text(), old(self).at()),
            r == {
                let j = skip_trivia(old(self).text(), old(self).at());
                0 <= j < old(self).text().len() && old(self).text()[j] == '('
            },
    {
        self.skip_trivia();
        proof {
            lemma_skip_trivia_bounds(self.chars@, old(self).at());
        }
        match self.current() {
            Some(c) => c == '(',
            None => false,
        }
    }

    /// Succeed only if nothing but trivia remains.
    pub(crate) fn finish(&mut self) -> (r: Result<(), DatomError>)
        requires
            old(self).wf(),
        ensures
            final(self).wf(),
            final(self).text() == old(self).text(),
            final(self).at() == skip_trivia(old(self).text(), old(self).at()),
            outcome(r) == finish_at(old(self).text(), old(self).at()),
    {
        self.skip_trivia();
        proof {
            lemma_skip_trivia_bounds(self.chars@, old(self).at());
        }
        if self.index == self.chars.len() {
            Ok(())
        } else {
            let end = if self.chars.len() - self.index > 16 {
                self.index + 16
            } else {
                self.chars.len()
            };
            Err(
                DatomError::TrailingInput {
                    text: self.source.substring_char(self.index, end).to_owned(),
                },
            )
        }
    }
}

} // verus!
