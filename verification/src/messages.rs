//! The diagnostic sentence of each refusal.

use vstd::prelude::*;
use vstd::string::StringExecFns;

use crate::expectation::shape_description;
use crate::parser::{DatomError, DatomFault};
use crate::strings::push_char;

verus! {

/// What std's `Debug` for `str` writes for the text `s`: the text between
/// double quotes, with quotes, backslashes and unprintable characters escaped.
pub uninterp spec fn debug_quoted(s: Seq<char>) -> Seq<char>;

/// `format!("{:?}", text)`: the text quoted and escaped as std's `Debug` for
/// `str` writes it.  That rendering is named by [`debug_quoted`], and a
/// function of the text alone.
#[verifier::external_body]
fn quoted(text: &str) -> (r: String)
    ensures
        r@ == debug_quoted(text@),
{
    format!("{:?}", text)
}

/// The sentence that describes the refusal `f`.
pub open spec fn fault_message(f: DatomFault) -> Seq<char> {
    match f {
        DatomFault::EndOfInput { expected } => "expected "@ + expected + ", found end of input"@,
        DatomFault::UnexpectedShape { expected, found } => "expected "@ + expected + ", found "@
            + shape_description(found),
        DatomFault::UnexpectedClosingDelimiter(d) => "unexpected closing delimiter "@ + seq![d],
        DatomFault::ShapeNotYetRuled { shape } => shape_description(shape)
            + " is reserved for Meaning, whose shape is not yet ruled"@,
        DatomFault::PipeTextIsNotDatom => "pipe text is not Datom"@,
        DatomFault::AnglesAreNotDatom => "angle syntax and generics are not Datom"@,
        DatomFault::InvalidBareSymbol { text } => debug_quoted(text) + " is not a bare Datom symbol"@,
        DatomFault::InvalidScalar { expected, text } => debug_quoted(text) + " is not a "@
            + expected,
        DatomFault::InvalidEscape { escaped } => seq!['\\', escaped]
            + " is not a ruled string escape"@,
        DatomFault::Unterminated { shape } => "unterminated "@ + shape_description(shape),
        DatomFault::ExpectedHead { expected, found } => match found {
            Some(h) => "expected dotted head "@ + debug_quoted(expected) + ", found "@
                + debug_quoted(h),
            None => "expected dotted head "@ + debug_quoted(expected),
        },
        DatomFault::TrailingInput { text } => "trailing Datom input begins with "@ + debug_quoted(
            text,
        ),
        DatomFault::NonFiniteFloat => "Datom does not serialize non-finite floats"@,
    }
}

impl DatomError {
    /// The diagnostic sentence of this refusal.
    pub fn message(&self) -> (r: String)
        ensures
            r@ == fault_message(self@),
    {
        let mut out = String::new();
        match self {
            DatomError::EndOfInput { expected } => {
                out.append("expected ");
                out.append(expected);
                out.append(", found end of input");
            },
            DatomError::UnexpectedShape { expected, found } => {
                out.append("expected ");
                out.append(expected);
                out.append(", found ");
                out.append(found.description());
            },
            DatomError::UnexpectedClosingDelimiter(d) => {
                out.append("unexpected closing delimiter ");
                push_char(&mut out, *d);
            },
            DatomError::ShapeNotYetRuled { shape } => {
                out.append(shape.description());
                out.append(" is reserved for Meaning, whose shape is not yet ruled");
            },
            DatomError::PipeTextIsNotDatom => {
                out.append("pipe text is not Datom");
            },
            DatomError::AnglesAreNotDatom => {
                out.append("angle syntax and generics are not Datom");
            },
            DatomError::InvalidBareSymbol { text } => {
                out = quoted(text.as_str());
                out.append(" is not a bare Datom symbol");
            },
            DatomError::InvalidScalar { expected, text } => {
                out = quoted(text.as_str());
                out.append(" is not a ");
                out.append(expected);
            },
            DatomError::InvalidEscape { escaped } => {
                push_char(&mut out, '\\');
                push_char(&mut out, *escaped);
                out.append(" is not a ruled string escape");
            },
            DatomError::Unterminated { shape } => {
                out.append("unterminated ");
                out.append(shape.description());
            },
            DatomError::ExpectedHead { expected, found } => {
                out.append("expected dotted head ");
                let q = quoted(expected);
                out.append(q.as_str());
                match found {
                    Some(h) => {
                        out.append(", found ");
                        let q = quoted(h.as_str());
                        out.append(q.as_str());
                    },
                    None => {},
                }
            },
            DatomError::TrailingInput { text } => {
                out.append("trailing Datom input begins with ");
                let q = quoted(text.as_str());
                out.append(q.as_str());
            },
            DatomError::NonFiniteFloat => {
                out.append("Datom does not serialize non-finite floats");
            },
        }
        assert(out@ =~= fault_message(self@));
        out
    }
}

} // verus!
