use datom::{
    ContextName, DatomDecode, DatomEncode, DatomError, DatomSource, DatomText, DecodeWalk,
    EncodeWalk, ProtosShape, WalkEvent,
};

/// A temperature written as the glued variant `Celsius.<degrees>`.
#[derive(Debug, PartialEq)]
struct Celsius(i32);

impl DatomDecode for Celsius {
    fn decode(walk: &mut DecodeWalk<'_>) -> Result<Self, DatomError> {
        walk.variant("Celsius", |walk| walk.value::<i32>().map(Celsius))
    }
}

impl DatomEncode for Celsius {
    fn encode(&self, walk: &mut EncodeWalk) -> Result<(), DatomError> {
        walk.variant("Celsius", |walk| walk.value(&self.0))
    }
}

/// A flag written as a bare `on` or `off` in its own scalar context.
#[derive(Debug, PartialEq)]
struct Switch(bool);

impl DatomDecode for Switch {
    fn decode(walk: &mut DecodeWalk<'_>) -> Result<Self, DatomError> {
        walk.scalar("Switch", |walk| match walk.bare()? {
            "on" => Ok(Switch(true)),
            "off" => Ok(Switch(false)),
            text => Err(DatomError::InvalidScalar {
                expected: "switch",
                text: text.to_owned(),
            }),
        })
    }
}

impl DatomEncode for Switch {
    fn encode(&self, walk: &mut EncodeWalk) -> Result<(), DatomError> {
        walk.scalar("Switch", |walk| {
            walk.raw(if self.0 { "on" } else { "off" });
            Ok(())
        })
    }
}

/// A key and a flag written glued as `key.flag`.
struct Keyed(String, bool);

impl DatomDecode for Keyed {
    fn decode(walk: &mut DecodeWalk<'_>) -> Result<Self, DatomError> {
        let key = walk.dotted_key(|walk| walk.value::<String>())?;
        let value = walk.value::<bool>()?;
        Ok(Keyed(key, value))
    }
}

#[test]
fn a_variant_context_glues_its_head_to_its_payload() {
    assert_eq!(
        DatomText::encode(&Celsius(-4)).unwrap().as_str(),
        "Celsius.-4"
    );
    assert_eq!(
        DatomSource::new("Celsius.21").decode::<Celsius>(),
        Ok(Celsius(21))
    );
    assert_eq!(
        DatomSource::new("Kelvin.21").decode::<Celsius>(),
        Err(DatomError::ExpectedHead {
            expected: "Celsius",
            found: Some("Kelvin".to_owned()),
        })
    );
    assert_eq!(
        DatomSource::new("21").decode::<Celsius>(),
        Err(DatomError::UnexpectedShape {
            expected: "a dotted single-payload variant",
            found: ProtosShape::BareSymbol,
        })
    );
}

#[test]
fn a_scalar_context_reads_and_writes_its_own_bare_text() {
    assert_eq!(
        DatomText::encode(&vec![Switch(true), Switch(false)])
            .unwrap()
            .into_string(),
        "[on off]"
    );
    let (read, events) = DatomSource::new("[on ;; lights\n off]")
        .decode_with_trace::<Vec<Switch>>()
        .unwrap();
    assert_eq!(read, vec![Switch(true), Switch(false)]);
    assert!(events.contains(&WalkEvent::Enter {
        context: ContextName::Value("Switch"),
        position: 0,
    }));
    assert_eq!(
        DatomSource::new("dim").decode::<Switch>(),
        Err(DatomError::InvalidScalar {
            expected: "switch",
            text: "dim".to_owned(),
        })
    );
}

#[test]
fn a_dotted_key_context_gives_its_scalar_the_dot_as_terminator() {
    let read = DatomSource::new("name.True").decode::<Keyed>().unwrap();
    assert_eq!(read.0, "name");
    assert!(read.1);
}

/// A string read after a probe of the shape it stands in.
#[derive(Debug, PartialEq)]
struct Probed(String);

impl DatomDecode for Probed {
    fn decode(walk: &mut DecodeWalk<'_>) -> Result<Self, DatomError> {
        let _ = walk.probe();
        let _ = walk.probe();
        walk.value::<String>().map(Probed)
    }
}

#[test]
fn a_probe_changes_nothing_that_is_read_after_it() {
    for text in [
        "  ;; a comment\n  word",
        "“  legacy text”",
        "[x]",
        "(meaning)",
        "",
        "  ;; only a comment",
    ] {
        assert_eq!(
            DatomSource::new(text).decode::<Probed>().map(|p| p.0),
            DatomSource::new(text).decode::<String>(),
            "{text:?}"
        );
    }
}
