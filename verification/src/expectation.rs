//! The fixed structural vocabulary used by the Datom walk.

use vstd::prelude::*;

use crate::parser::DatomError;

verus! {

/// The fixed vocabulary of structural shapes a Datom position can present.
#[derive(Clone, Copy, Debug, PartialEq, Eq, Structural)]
pub enum ProtosShape {
    /// A context-local unstructured symbol.
    BareSymbol,
    CurlyQuoteDelimited,
    ParenthesisDelimited,
    SquareBracketDelimited,
    BraceDelimited,
    DotApplied,
    DotBraced,
    DotBracketed,
    DotParenthesized,
}

/// The shapes that begin with a glued dot after their head.
pub open spec fn shape_is_dotted(shape: ProtosShape) -> bool {
    shape is DotApplied || shape is DotBraced || shape is DotBracketed || shape is DotParenthesized
}

/// The two shapes that stand for the reserved parenthesized Meaning.
pub open spec fn shape_is_parenthesized(shape: ProtosShape) -> bool {
    shape is ParenthesisDelimited || shape is DotParenthesized
}

/// The stable diagnostic spelling of each shape.
pub open spec fn shape_description(shape: ProtosShape) -> Seq<char> {
    match shape {
        ProtosShape::BareSymbol => "bare symbol"@,
        ProtosShape::CurlyQuoteDelimited => "curly-quote-delimited text"@,
        ProtosShape::ParenthesisDelimited => "parenthesis-delimited Meaning"@,
        ProtosShape::SquareBracketDelimited => "square-bracket-delimited vector"@,
        ProtosShape::BraceDelimited => "brace-delimited record"@,
        ProtosShape::DotApplied => "dotted application"@,
        ProtosShape::DotBraced => "dotted brace application"@,
        ProtosShape::DotBracketed => "dotted bracket application"@,
        ProtosShape::DotParenthesized => "dotted parenthesis application"@,
    }
}

impl ProtosShape {
    /// Whether this shape begins with a glued dot after its head.
    pub(crate) fn is_dotted(self) -> (r: bool)
        ensures
            r == shape_is_dotted(self),
    {
        match self {
            ProtosShape::DotApplied | ProtosShape::DotBraced | ProtosShape::DotBracketed
            | ProtosShape::DotParenthesized => true,
            _ => false,
        }
    }

    /// A stable diagnostic spelling for this fixed vocabulary.
    pub(crate) fn description(self) -> (r: &'static str)
        ensures
            r@ == shape_description(self),
    {
        match self {
            ProtosShape::BareSymbol => "bare symbol",
            ProtosShape::CurlyQuoteDelimited => "curly-quote-delimited text",
            ProtosShape::ParenthesisDelimited => "parenthesis-delimited Meaning",
            ProtosShape::SquareBracketDelimited => "square-bracket-delimited vector",
            ProtosShape::BraceDelimited => "brace-delimited record",
            ProtosShape::DotApplied => "dotted application",
            ProtosShape::DotBraced => "dotted brace application",
            ProtosShape::DotBracketed => "dotted bracket application",
            ProtosShape::DotParenthesized => "dotted parenthesis application",
        }
    }
}

/// The lexical evidence a context gives to a shape-discriminated type: the
/// met shape and the optional dotted-application head, and no value.
#[derive(Clone, Copy, Debug, PartialEq, Eq)]
pub struct ShapeProbe<'source> {
    shape: ProtosShape,
    head: Option<&'source str>,
}

impl<'source> ShapeProbe<'source> {
    /// The shape of this probe.
    pub closed spec fn spec_shape(self) -> ProtosShape {
        self.shape
    }

    /// The head of this probe, as text.
    pub closed spec fn spec_head(self) -> Option<Seq<char>> {
        match self.head {
            Some(h) => Some(h@),
            None => None,
        }
    }

    pub(crate) fn new(shape: ProtosShape, head: Option<&'source str>) -> (r: Self)
        ensures
            r.spec_shape() == shape,
            r.spec_head() == (match head {
                Some(h) => Some(h@),
                None => None::<Seq<char>>,
            }),
    {
        ShapeProbe { shape, head }
    }

    /// The fixed shape met at this position.
    pub fn shape(self) -> (r: ProtosShape)
        ensures
            r == self.spec_shape(),
    {
        self.shape
    }

    /// The optional dotted-application head, without its glued dot.
    pub fn head(self) -> (r: Option<&'source str>)
        ensures
            r is Some <==> self.spec_head() is Some,
            r matches Some(h) ==> self.spec_head() == Some(h@),
    {
        self.head
    }
}

/// Selects a variant from a met standard shape.  An implementation may only
/// select its `Selection`; it must not read an interior, which the selected
/// type's decoding context owns.
pub trait ShapeDefined: Sized {
    /// A type-local variant or selection token; it must not be a parsed value.
    type Selection;

    /// The standard shapes this type recognizes at this one position.
    fn shapes() -> &'static [ProtosShape];

    /// Select only the type-local variant announced by `met`.
    fn select(met: ShapeProbe<'_>) -> Result<Self::Selection, DatomError>;
}

} // verus!
