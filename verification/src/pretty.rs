//! Canonical legacy-string projection.

use vstd::prelude::*;

use crate::lexis::{is_ws, is_whitespace_char};
use crate::strings::{chars_of, push_char};

verus! {

/// A character that may stand in a bare symbol written by the encoder.
pub open spec fn is_bare_char(c: char) -> bool {
    !is_ws(c) && !(c == '[' || c == ']' || c == '{' || c == '}' || c == '(' || c == ')' || c
        == '“' || c == '”' || c == '|' || c == ';' || c == '<' || c == '>' || c == '.' || c
        == '\\')
}

/// Text that the encoder writes bare: not empty, and only bare characters.
pub open spec fn is_bare_text(t: Seq<char>) -> bool {
    t.len() > 0 && forall|k: int| 0 <= k < t.len() ==> is_bare_char(#[trigger] t[k])
}

/// The ruled escape of one character inside a legacy string.
pub open spec fn escape_char(c: char) -> Seq<char> {
    if c == '\\' {
        seq!['\\', '\\']
    } else if c == '“' {
        seq!['\\', '“']
    } else if c == '”' {
        seq!['\\', '”']
    } else if c == '\n' {
        seq!['\\', 'n']
    } else if c == '\r' {
        seq!['\\', 'r']
    } else if c == '\t' {
        seq!['\\', 't']
    } else {
        seq![c]
    }
}

/// `t` with every character escaped.
pub open spec fn escaped(t: Seq<char>) -> Seq<char>
    decreases t.len(),
{
    if t.len() == 0 {
        Seq::empty()
    } else {
        escaped(t.drop_last()) + escape_char(t.last())
    }
}

/// `t` as an escaped legacy string between curly quotes.
pub open spec fn legacy_text(t: Seq<char>) -> Seq<char> {
    seq!['“'] + escaped(t) + seq!['”']
}

/// The canonical text of a string: bare where it can be, legacy otherwise.
pub open spec fn string_text(t: Seq<char>) -> Seq<char> {
    if is_bare_text(t) {
        t
    } else {
        legacy_text(t)
    }
}

/// The writer escapes each character by a fixed table: a line feed as
/// `\n`, a carriage return as `\r`, a tab as `\t`, a backslash and each
/// curly quote behind a backslash, and every other character as itself.
pub proof fn law_escapes_written_as(t: Seq<char>, c: char)
    ensures
        c == '\n' ==> escaped(t.push(c)) == escaped(t) + seq!['\\', 'n'],
        c == '\r' ==> escaped(t.push(c)) == escaped(t) + seq!['\\', 'r'],
        c == '\t' ==> escaped(t.push(c)) == escaped(t) + seq!['\\', 't'],
        c == '\\' ==> escaped(t.push(c)) == escaped(t) + seq!['\\', '\\'],
        c == '“' ==> escaped(t.push(c)) == escaped(t) + seq!['\\', '“'],
        c == '”' ==> escaped(t.push(c)) == escaped(t) + seq!['\\', '”'],
        !(c == '\n' || c == '\r' || c == '\t' || c == '\\' || c == '“' || c == '”') ==> escaped(
            t.push(c),
        ) == escaped(t).push(c),
        escaped(Seq::<char>::empty()) == Seq::<char>::empty(),
{
    assert(t.push(c).drop_last() =~= t);
    assert(t.push(c).last() == c);
    assert(escaped(t) + seq![c] =~= escaped(t).push(c));
}

/// A string is written bare exactly when it is not empty and holds no white
/// space and none of `[ ] { } ( ) “ ” | ; < > . \`; any other string is
/// written between curly quotes.
pub proof fn law_written_bare_exactly(t: Seq<char>)
    ensures
        (t.len() > 0 && forall|k: int| 0 <= k < t.len() ==> {
            let c = #[trigger] t[k];
            &&& !is_ws(c)
            &&& c != '[' && c != ']' && c != '{' && c != '}' && c != '(' && c != ')'
            &&& c != '“' && c != '”' && c != '|' && c != ';' && c != '<' && c != '>'
            &&& c != '.' && c != '\\'
        }) ==> string_text(t) == t,
        !(t.len() > 0 && forall|k: int| 0 <= k < t.len() ==> {
            let c = #[trigger] t[k];
            &&& !is_ws(c)
            &&& c != '[' && c != ']' && c != '{' && c != '}' && c != '(' && c != ')'
            &&& c != '“' && c != '”' && c != '|' && c != ';' && c != '<' && c != '>'
            &&& c != '.' && c != '\\'
        }) ==> string_text(t) == seq!['“'] + escaped(t) + seq!['”'],
{
    if t.len() > 0 && forall|k: int| 0 <= k < t.len() ==> {
        let c = #[trigger] t[k];
        &&& !is_ws(c)
        &&& c != '[' && c != ']' && c != '{' && c != '}' && c != '(' && c != ')'
        &&& c != '“' && c != '”' && c != '|' && c != ';' && c != '<' && c != '>'
        &&& c != '.' && c != '\\'
    } {
        assert(is_bare_text(t));
    } else {
        if t.len() > 0 {
            let k = choose|k: int| 0 <= k < t.len() && !{
                let c = #[trigger] t[k];
                &&& !is_ws(c)
                &&& c != '[' && c != ']' && c != '{' && c != '}' && c != '(' && c != ')'
                &&& c != '“' && c != '”' && c != '|' && c != ';' && c != '<' && c != '>'
                &&& c != '.' && c != '\\'
            };
            assert(!is_bare_char(t[k]));
        }
        assert(!is_bare_text(t));
    }
}

/// The bare-versus-curly decision for one text.
pub(crate) struct CanonicalText<'text> {
    text: &'text str,
}

impl<'text> CanonicalText<'text> {
    pub(crate) closed spec fn view_text(&self) -> Seq<char> {
        self.text@
    }

    pub(crate) fn new(text: &'text str) -> (r: Self)
        ensures
            r.view_text() == text@,
    {
        CanonicalText { text }
    }

    /// Whether the text can be written bare.
    pub(crate) fn is_bare(&self) -> (r: bool)
        ensures
            r == is_bare_text(self.view_text()),
    {
        let chars = chars_of(self.text);
        if chars.len() == 0 {
            return false;
        }
        let mut k: usize = 0;
        while k < chars.len()
            invariant
                chars@ == self.text@,
                k <= chars@.len(),
                forall|m: int| 0 <= m < k ==> is_bare_char(#[trigger] chars@[m]),
            decreases chars@.len() - k,
        {
            let character = chars[k];
            if is_whitespace_char(character) || character == '[' || character == ']' || character
                == '{' || character == '}' || character == '(' || character == ')' || character
                == '“' || character == '”' || character == '|' || character == ';' || character
                == '<' || character == '>' || character == '.' || character == '\\' {
                return false;
            }
            k = k + 1;
        }
        true
    }

    /// Append the text as an escaped legacy string to `output`.
    pub(crate) fn push_legacy_escaped(&self, output: &mut String)
        ensures
            final(output)@ == old(output)@ + legacy_text(self.view_text()),
    {
        let chars = chars_of(self.text);
        push_char(output, '“');
        let ghost start = output@;
        let mut k: usize = 0;
        while k < chars.len()
            invariant
                chars@ == self.text@,
                k <= chars@.len(),
                start == old(output)@ + seq!['“'],
                output@ == start + escaped(chars@.subrange(0, k as int)),
            decreases chars@.len() - k,
        {
            let character = chars[k];
            if character == '\\' {
                push_char(output, '\\');
                push_char(output, '\\');
            } else if character == '“' {
                push_char(output, '\\');
                push_char(output, '“');
            } else if character == '”' {
                push_char(output, '\\');
                push_char(output, '”');
            } else if character == '\n' {
                push_char(output, '\\');
                push_char(output, 'n');
            } else if character == '\r' {
                push_char(output, '\\');
                push_char(output, 'r');
            } else if character == '\t' {
                push_char(output, '\\');
                push_char(output, 't');
            } else {
                push_char(output, character);
            }
            proof {
                assert(chars@.subrange(0, k + 1).drop_last() =~= chars@.subrange(0, k as int));
            }
            k = k + 1;
        }
        push_char(output, '”');
        proof {
            assert(chars@.subrange(0, chars@.len() as int) =~= chars@);
            assert(output@ =~= old(output)@ + legacy_text(self.view_text()));
        }
    }
}

} // verus!
