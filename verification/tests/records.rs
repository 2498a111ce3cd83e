use datom::{
    DatomError, DatomRecord, DatomSource, DatomText, DecodeWalk, EncodeWalk, ProtosShape,
};

#[derive(Debug, PartialEq)]
struct Pair {
    a: String,
    b: bool,
}

impl DatomRecord for Pair {
    const NAME: &'static str = "Pair";

    fn read_fields(walk: &mut DecodeWalk<'_>) -> Result<Self, DatomError> {
        Ok(Self {
            a: walk.value::<String>()?,
            b: walk.value::<bool>()?,
        })
    }

    fn write_fields(&self, walk: &mut EncodeWalk) -> Result<(), DatomError> {
        walk.value(&self.a)?;
        walk.value(&self.b)
    }
}

#[test]
fn records_write_their_head_and_positional_fields_in_braces() {
    let pair = Pair {
        a: "x y".to_owned(),
        b: true,
    };
    let text = DatomText::encode(&pair).unwrap();
    assert_eq!(text.as_str(), "Pair.{“x y” True}");
    assert_eq!(DatomSource::new(text.as_str()).decode::<Pair>(), Ok(pair));
}

#[test]
fn records_refuse_another_head_and_meaning() {
    assert_eq!(
        DatomSource::new("Other.{a True}").decode::<Pair>(),
        Err(DatomError::ExpectedHead {
            expected: "Pair",
            found: Some("Other".to_owned()),
        })
    );
    assert_eq!(
        DatomSource::new("Pair.[a True]").decode::<Pair>(),
        Err(DatomError::UnexpectedShape {
            expected: "dotted brace application",
            found: ProtosShape::DotBracketed,
        })
    );
    assert_eq!(
        DatomSource::new("(Pair)").decode::<Pair>(),
        Err(DatomError::ShapeNotYetRuled {
            shape: ProtosShape::ParenthesisDelimited,
        })
    );
    assert_eq!(
        DatomSource::new("Pair.{a True").decode::<Pair>(),
        Err(DatomError::EndOfInput {
            expected: "a context terminator",
        })
    );
}
