use std::collections::BTreeMap;
use std::fmt::Debug;

use datom::{
    ContextName, DatomDecode, DatomEncode, DatomError, DatomSource, DatomText, ProtosShape,
    WalkEvent,
};

fn reads_back<T>(value: T)
where
    T: DatomDecode + DatomEncode + Debug + PartialEq,
{
    let encoded = DatomText::encode(&value).expect("value writes");
    let decoded = DatomSource::new(encoded.as_str())
        .decode::<T>()
        .expect("value reads");
    assert_eq!(decoded, value);
    assert_eq!(
        DatomText::encode(&decoded).unwrap().as_str(),
        encoded.as_str()
    );
}

fn text_of<T: DatomEncode>(value: &T) -> String {
    DatomText::encode(value).unwrap().into_string()
}

#[test]
fn ruled_primitives_collections_and_variants_have_witnesses() {
    reads_back("bare".to_owned());
    reads_back("spaces and } ] “ are legacy text".to_owned());
    reads_back(42_i64);
    reads_back(-7_i32);
    reads_back(true);
    reads_back(false);
    reads_back(vec!["alpha".to_owned(), "beta gamma".to_owned()]);
    reads_back(Some(Some("value".to_owned())));
    reads_back::<Option<String>>(None);
    reads_back(BTreeMap::from([
        ("one".to_owned(), 1_i64),
        ("minus".to_owned(), -2_i64),
    ]));
    assert_eq!(text_of(&Some(Some("value".to_owned()))), "Some.Some.value");
}

#[test]
fn scalars_are_written_in_their_canonical_text() {
    assert_eq!(text_of(&"bare".to_owned()), "bare");
    assert_eq!(text_of(&"two words".to_owned()), "“two words”");
    assert_eq!(text_of(&String::new()), "“”");
    assert_eq!(text_of(&"a.b".to_owned()), "“a.b”");
    assert_eq!(
        text_of(&"quote “ and \\ and\nline".to_owned()),
        "“quote \\“ and \\\\ and\\nline”"
    );
    assert_eq!(text_of(&true), "True");
    assert_eq!(text_of(&false), "False");
    assert_eq!(text_of(&0_u8), "0");
    assert_eq!(text_of(&i64::MIN), "-9223372036854775808");
    assert_eq!(text_of(&u64::MAX), "18446744073709551615");
    assert_eq!(text_of(&Vec::<String>::new()), "[]");
    assert_eq!(text_of(&vec![1_u16, 2, 3]), "[1 2 3]");
    assert_eq!(text_of(&None::<bool>), "None");
}

#[test]
fn integers_read_within_their_range_only() {
    assert_eq!(DatomSource::new("255").decode::<u8>(), Ok(255));
    assert_eq!(DatomSource::new("+7").decode::<u32>(), Ok(7));
    assert_eq!(DatomSource::new(" -128 ").decode::<i8>(), Ok(-128));
    assert_eq!(
        DatomSource::new("256").decode::<u8>(),
        Err(DatomError::InvalidScalar {
            expected: "u8",
            text: "256".to_owned(),
        })
    );
    assert_eq!(
        DatomSource::new("-1").decode::<u64>(),
        Err(DatomError::InvalidScalar {
            expected: "u64",
            text: "-1".to_owned(),
        })
    );
    assert_eq!(
        DatomSource::new("1x").decode::<i16>(),
        Err(DatomError::InvalidScalar {
            expected: "i16",
            text: "1x".to_owned(),
        })
    );
    reads_back(i8::MIN);
    reads_back(u32::MAX);
    reads_back(i16::MAX);
}

#[test]
fn booleans_are_only_true_or_false() {
    assert_eq!(DatomSource::new("True").decode::<bool>(), Ok(true));
    assert_eq!(
        DatomSource::new("true").decode::<bool>(),
        Err(DatomError::InvalidScalar {
            expected: "boolean",
            text: "true".to_owned(),
        })
    );
}

#[test]
fn maps_write_by_key_and_later_keys_replace_earlier() {
    let map = BTreeMap::from([
        ("b".to_owned(), true),
        ("a".to_owned(), false),
    ]);
    assert_eq!(text_of(&map), "Map.[a.False b.True]");
    let read = DatomSource::new("Map.[k.True k.False j.True]")
        .decode::<BTreeMap<String, bool>>()
        .unwrap();
    assert_eq!(
        read,
        BTreeMap::from([("j".to_owned(), true), ("k".to_owned(), false)])
    );
    assert_eq!(
        DatomSource::new("Map.[]").decode::<BTreeMap<String, bool>>(),
        Ok(BTreeMap::new())
    );
    assert_eq!(
        DatomSource::new("Tags.[a.True]").decode::<BTreeMap<String, bool>>(),
        Err(DatomError::ExpectedHead {
            expected: "Map",
            found: Some("Tags".to_owned()),
        })
    );
}

#[test]
fn each_refusal_has_an_input_that_gives_it() {
    assert_eq!(
        DatomSource::new("").decode::<String>(),
        Err(DatomError::EndOfInput {
            expected: "a Datom value",
        })
    );
    assert_eq!(
        DatomSource::new("[a]").decode::<String>(),
        Err(DatomError::UnexpectedShape {
            expected: "a Datom string",
            found: ProtosShape::SquareBracketDelimited,
        })
    );
    assert_eq!(
        DatomSource::new("]").decode::<String>(),
        Err(DatomError::UnexpectedClosingDelimiter(']'))
    );
    assert_eq!(
        DatomSource::new("“a\\qb”").decode::<String>(),
        Err(DatomError::InvalidEscape { escaped: 'q' })
    );
    assert_eq!(
        DatomSource::new("“never closed").decode::<String>(),
        Err(DatomError::Unterminated {
            shape: ProtosShape::CurlyQuoteDelimited,
        })
    );
    assert_eq!(
        DatomSource::new("a b").decode::<String>(),
        Err(DatomError::TrailingInput {
            text: "b".to_owned(),
        })
    );
    assert_eq!(
        DatomSource::new("[a").decode::<Vec<String>>(),
        Err(DatomError::EndOfInput {
            expected: "a Datom value",
        })
    );
    assert_eq!(
        DatomSource::new("Other.x").decode::<Option<bool>>(),
        Err(DatomError::UnexpectedShape {
            expected: "None or Some.value",
            found: ProtosShape::DotApplied,
        })
    );
    assert_eq!(
        DatomSource::new("[a b]").decode::<Option<bool>>(),
        Err(DatomError::UnexpectedShape {
            expected: "None or Some.value",
            found: ProtosShape::SquareBracketDelimited,
        })
    );
}

#[test]
fn refusals_describe_themselves() {
    assert_eq!(
        DatomError::EndOfInput {
            expected: "a Datom value"
        }
        .message(),
        "expected a Datom value, found end of input"
    );
    assert_eq!(
        DatomError::UnexpectedShape {
            expected: "a Datom string",
            found: ProtosShape::SquareBracketDelimited,
        }
        .message(),
        "expected a Datom string, found square-bracket-delimited vector"
    );
    assert_eq!(
        DatomError::UnexpectedClosingDelimiter(']').message(),
        "unexpected closing delimiter ]"
    );
    assert_eq!(
        DatomError::ShapeNotYetRuled {
            shape: ProtosShape::ParenthesisDelimited
        }
        .message(),
        "parenthesis-delimited Meaning is reserved for Meaning, whose shape is not yet ruled"
    );
    assert_eq!(
        DatomError::PipeTextIsNotDatom.message(),
        "pipe text is not Datom"
    );
    assert_eq!(
        DatomError::AnglesAreNotDatom.message(),
        "angle syntax and generics are not Datom"
    );
    assert_eq!(
        DatomError::InvalidBareSymbol {
            text: "]".to_owned()
        }
        .message(),
        "\"]\" is not a bare Datom symbol"
    );
    assert_eq!(
        DatomError::InvalidScalar {
            expected: "u8",
            text: "2\"56".to_owned(),
        }
        .message(),
        "\"2\\\"56\" is not a u8"
    );
    assert_eq!(
        DatomError::InvalidEscape { escaped: 'q' }.message(),
        "\\q is not a ruled string escape"
    );
    assert_eq!(
        DatomError::Unterminated {
            shape: ProtosShape::CurlyQuoteDelimited
        }
        .message(),
        "unterminated curly-quote-delimited text"
    );
    assert_eq!(
        DatomError::ExpectedHead {
            expected: "Map",
            found: Some("Tags".to_owned()),
        }
        .message(),
        "expected dotted head \"Map\", found \"Tags\""
    );
    assert_eq!(
        DatomError::ExpectedHead {
            expected: "Some",
            found: None,
        }
        .message(),
        "expected dotted head \"Some\""
    );
    assert_eq!(
        DatomError::TrailingInput {
            text: "b".to_owned()
        }
        .message(),
        "trailing Datom input begins with \"b\""
    );
    assert_eq!(
        DatomError::NonFiniteFloat.message(),
        "Datom does not serialize non-finite floats"
    );
}

#[test]
fn the_walk_witnesses_every_entry_exit_and_resumption() {
    let (values, events) = DatomSource::new("[a b]")
        .decode_with_trace::<Vec<String>>()
        .unwrap();
    assert_eq!(values, vec!["a".to_owned(), "b".to_owned()]);
    let string = ContextName::Value("String");
    assert_eq!(
        events,
        vec![
            WalkEvent::Enter {
                context: ContextName::Document,
                position: 0
            },
            WalkEvent::Enter {
                context: ContextName::Vector,
                position: 0
            },
            WalkEvent::Enter {
                context: string,
                position: 0
            },
            WalkEvent::Exit {
                context: string,
                position: 0
            },
            WalkEvent::Resume {
                context: ContextName::Vector,
                position: 1
            },
            WalkEvent::Enter {
                context: string,
                position: 0
            },
            WalkEvent::Exit {
                context: string,
                position: 0
            },
            WalkEvent::Resume {
                context: ContextName::Vector,
                position: 2
            },
            WalkEvent::Exit {
                context: ContextName::Vector,
                position: 2
            },
            WalkEvent::Resume {
                context: ContextName::Document,
                position: 1
            },
            WalkEvent::Exit {
                context: ContextName::Document,
                position: 1
            },
        ]
    );
}

#[test]
fn a_map_key_is_read_in_its_own_dotted_context() {
    let (_, events) = DatomSource::new("Map.[k.True]")
        .decode_with_trace::<BTreeMap<String, bool>>()
        .unwrap();
    assert!(events.contains(&WalkEvent::Enter {
        context: ContextName::DottedKey,
        position: 0
    }));
    assert!(events.contains(&WalkEvent::Resume {
        context: ContextName::Mapping,
        position: 1
    }));
}

#[test]
fn legacy_text_that_stripping_changes_does_not_read_back_unchanged() {
    let written = text_of(&"  indented".to_owned());
    assert_eq!(written, "“  indented”");
    assert_eq!(
        DatomSource::new(&written).decode::<String>(),
        Ok("indented".to_owned())
    );
}

#[test]
fn parenthesis_is_refused_as_not_yet_ruled_wherever_a_value_stands() {
    let refused: Result<(), DatomError> = Err(DatomError::ShapeNotYetRuled {
        shape: ProtosShape::ParenthesisDelimited,
    });
    assert_eq!(DatomSource::new("(x)").decode::<bool>().map(|_| ()), refused);
    assert_eq!(DatomSource::new("(1)").decode::<u8>().map(|_| ()), refused);
    assert_eq!(DatomSource::new("[(x)]").decode::<Vec<String>>().map(|_| ()), refused);
    assert_eq!(DatomSource::new("(x)").decode::<Option<String>>().map(|_| ()), refused);
    assert_eq!(
        DatomSource::new("Map.[(k).v]").decode::<BTreeMap<String, String>>().map(|_| ()),
        refused
    );
    assert_eq!(
        DatomSource::new("Map.[ (k).v]").decode::<BTreeMap<u8, String>>().map(|_| ()),
        refused
    );
    assert_eq!(
        DatomSource::new("Map.[k.(v)]").decode::<BTreeMap<String, String>>().map(|_| ()),
        refused
    );
}

#[test]
fn dots_are_glued_on_both_sides() {
    assert_eq!(
        DatomSource::new("Map.[a . b]").decode::<BTreeMap<String, String>>(),
        Err(DatomError::UnexpectedClosingDelimiter(' '))
    );
    assert_eq!(
        DatomSource::new("Map.[a. b]").decode::<BTreeMap<String, String>>(),
        Err(DatomError::UnexpectedShape {
            expected: "a value glued to its dot",
            found: ProtosShape::DotApplied,
        })
    );
    assert_eq!(
        DatomSource::new("Map.[a.;; note\nb]").decode::<BTreeMap<String, String>>(),
        Err(DatomError::UnexpectedShape {
            expected: "a value glued to its dot",
            found: ProtosShape::DotApplied,
        })
    );
    assert_eq!(
        DatomSource::new("Some. x").decode::<Option<String>>(),
        Err(DatomError::UnexpectedShape {
            expected: "a value glued to its dot",
            found: ProtosShape::DotApplied,
        })
    );
    assert_eq!(
        DatomSource::new("Map.[a.b]").decode::<BTreeMap<String, String>>(),
        Ok(BTreeMap::from([("a".to_owned(), "b".to_owned())]))
    );
    assert_eq!(
        DatomSource::new("Some.x").decode::<Option<String>>(),
        Ok(Some("x".to_owned()))
    );
    assert_eq!(
        DatomSource::new("Map.[ a.b\n c.d ]").decode::<BTreeMap<String, String>>(),
        Ok(BTreeMap::from([
            ("a".to_owned(), "b".to_owned()),
            ("c".to_owned(), "d".to_owned()),
        ]))
    );
}

#[test]
fn a_scalar_read_witnesses_its_own_context() {
    let (value, events) = DatomSource::new("True").decode_with_trace::<bool>().unwrap();
    assert!(value);
    let boolean = ContextName::Value("bool");
    assert_eq!(
        events,
        vec![
            WalkEvent::Enter { context: ContextName::Document, position: 0 },
            WalkEvent::Enter { context: boolean, position: 0 },
            WalkEvent::Exit { context: boolean, position: 0 },
            WalkEvent::Resume { context: ContextName::Document, position: 1 },
            WalkEvent::Exit { context: ContextName::Document, position: 1 },
        ]
    );
    let (text, events) = DatomSource::new("“a b”").decode_with_trace::<String>().unwrap();
    assert_eq!(text, "a b");
    let string = ContextName::Value("String");
    assert_eq!(
        events,
        vec![
            WalkEvent::Enter { context: ContextName::Document, position: 0 },
            WalkEvent::Enter { context: string, position: 0 },
            WalkEvent::Enter { context: ContextName::LegacyString, position: 0 },
            WalkEvent::Exit { context: ContextName::LegacyString, position: 0 },
            WalkEvent::Exit { context: string, position: 0 },
            WalkEvent::Resume { context: ContextName::Document, position: 1 },
            WalkEvent::Exit { context: ContextName::Document, position: 1 },
        ]
    );
}

#[test]
fn maps_with_integer_keys_read_back() {
    let map = BTreeMap::from([
        (3_u64, vec!["c".to_owned()]),
        (1_u64, vec!["a".to_owned(), "b c".to_owned()]),
    ]);
    assert_eq!(text_of(&map), "Map.[1.[a “b c”] 3.[c]]");
    reads_back(map);
    reads_back(BTreeMap::<i32, Option<bool>>::new());
    reads_back(BTreeMap::from([(-5_i32, Some(true)), (7_i32, None)]));
}

#[test]
fn nested_options_and_vectors_read_back() {
    reads_back(Some(vec![true, false]));
    reads_back(vec![Some(1_u8), None, Some(255_u8)]);
    reads_back(vec![vec!["x".to_owned()], vec![]]);
    assert_eq!(text_of(&Some(vec![true])), "Some.[True]");
    assert_eq!(text_of(&vec![Some(1_u8), None]), "[Some.1 None]");
}

#[test]
fn dotted_float_text_is_the_rule_of_float_text() {
    assert!(datom::is_dotted_float("1.5"));
    assert!(datom::is_dotted_float("-0.25"));
    assert!(!datom::is_dotted_float("15"));
    assert!(!datom::is_dotted_float("1e5"));
    assert_eq!(datom::dotted_float_text("1"), "1.0");
    assert_eq!(datom::dotted_float_text("-7"), "-7.0");
    assert_eq!(datom::dotted_float_text("1.25"), "1.25");
    assert_eq!(datom::dotted_float_text("1e300"), "1e300");
    assert_eq!(datom::dotted_float_text("2E8"), "2E8");
    assert_eq!(datom::dotted_float_text(&1.0_f64.to_string()), "1.0");
    assert_eq!(datom::dotted_float_text(&(-1.25_f64).to_string()), "-1.25");
}

#[test]
fn stripped_text_strips_to_itself() {
    let once = DatomSource::new("“\n      first\n\n        second\n    ”")
        .decode::<String>()
        .unwrap();
    assert_eq!(once, "first\n\n  second");
    let again = DatomSource::new(text_of(&once).as_str())
        .decode::<String>()
        .unwrap();
    assert_eq!(again, once);
}

#[test]
fn bare_text_is_written_probed_and_read_as_itself() {
    for bare in ["alpha", "x-1", "Some", "42abc"] {
        assert_eq!(text_of(&bare.to_owned()), bare);
        assert_eq!(
            DatomSource::new(bare).decode::<String>(),
            Ok(bare.to_owned())
        );
    }
}

fn replays_to_nothing(events: &[WalkEvent]) -> bool {
    let mut open: Vec<(ContextName, usize)> = Vec::new();
    for (k, event) in events.iter().enumerate() {
        if k > 0 && open.is_empty() {
            return false;
        }
        match *event {
            WalkEvent::Enter { context, position } => {
                if position != 0 || (open.is_empty() && context != ContextName::Document) {
                    return false;
                }
                open.push((context, 0));
            }
            WalkEvent::Resume { context, position } => match open.last_mut() {
                Some(top) if top.0 == context && position == top.1 + 1 => top.1 = position,
                _ => return false,
            },
            WalkEvent::Exit { context, position } => match open.pop() {
                Some(top) if top == (context, position) => {}
                _ => return false,
            },
        }
    }
    !events.is_empty() && open.is_empty()
}

#[test]
fn traces_nest_like_brackets() {
    let (map, events) = DatomSource::new("Map.[1.[Some.a None] 3.[Some.“b c”]]")
        .decode_with_trace::<BTreeMap<u8, Vec<Option<String>>>>()
        .unwrap();
    assert_eq!(map.len(), 2);
    assert!(replays_to_nothing(&events));
    let (_, events) = DatomSource::new("[[True] [] [False True]]")
        .decode_with_trace::<Vec<Vec<bool>>>()
        .unwrap();
    assert!(replays_to_nothing(&events));
    assert_eq!(
        events.last(),
        Some(&WalkEvent::Exit {
            context: ContextName::Document,
            position: 1
        })
    );
}

#[test]
fn string_keyed_maps_read_empty_and_refuse_quoted_keys() {
    assert_eq!(
        DatomSource::new("Map.[]").decode::<BTreeMap<String, String>>(),
        Ok(BTreeMap::new())
    );
    assert_eq!(
        DatomSource::new("Map.[“a b”.x]").decode::<BTreeMap<String, String>>(),
        Err(DatomError::InvalidBareSymbol {
            text: "“".to_owned()
        })
    );
    assert_eq!(
        DatomSource::new("Map.[b.y a.x b.z]").decode::<BTreeMap<String, String>>(),
        Ok(BTreeMap::from([
            ("a".to_owned(), "x".to_owned()),
            ("b".to_owned(), "z".to_owned()),
        ]))
    );
}

#[test]
fn an_empty_string_keyed_map_writes_its_bare_brackets() {
    assert_eq!(text_of(&BTreeMap::<String, String>::new()), "Map.[]");
    assert_eq!(
        text_of(&BTreeMap::from([("b".to_owned(), 2_u8), ("a".to_owned(), 1_u8)])),
        "Map.[a.1 b.2]"
    );
}
