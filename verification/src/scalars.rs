//! The scalar contexts: strings, booleans and integers.

use vstd::prelude::*;

use crate::codec::{
    ContextName, DatomDecode, DatomEncode, DecodeState, DecodeWalk, EncodeState, EncodeWalk,
    WalkEvent, bare_at, legacy_read,
};
use crate::expectation::{ProtosShape, shape_is_parenthesized};
use crate::lexis::skip_trivia;
use crate::parser::{DatomError, DatomFault, outcome, probe_at, terminator_at};
use crate::pretty::{CanonicalText, string_text};
use crate::strings::{chars_of, same_text};
use crate::decimal::{decimal_text, integer_text, parse_decimal, parse_integer};

verus! {

/// A scalar read whose interior produced `inner`, with the terminator that
/// a scalar context inherits inside a map key consumed after it.
pub open spec fn scalar_read<V>(before: DecodeState, inner: Result<(V, int), DatomFault>) -> Result<
    (V, int),
    DatomFault,
> {
    match inner {
        Err(f) => Err(f),
        Ok((v, k)) => match before.scalar_terminator() {
            None => Ok((v, k)),
            Some(t) => match terminator_at(before.text, k, t) {
                Ok(k2) => Ok((v, k2)),
                Err(f) => Err(f),
            },
        },
    }
}

/// The state in which a scalar named `name` reads its interior.
pub open spec fn scalar_entered(before: DecodeState, name: &'static str) -> DecodeState {
    before.entered(ContextName::Value(name), before.scalar_terminator())
}

/// Reading the interior of a string context in state `st`: a bare symbol,
/// or a legacy string; inside a map key only a bare symbol, up to its dot.
pub open spec fn string_interior(st: DecodeState) -> Result<(Seq<char>, int), DatomFault> {
    if st.top_terminator() == Some(ProtosShape::DotApplied) {
        match bare_at(st) {
            Ok((j, e)) => Ok((st.text.subrange(j, e), e)),
            Err(f) => Err(f),
        }
    } else {
        match probe_at(st.text, st.at) {
            Err(f) => Err(f),
            Ok((shape, _)) => {
                let j = skip_trivia(st.text, st.at);
                if shape == ProtosShape::BareSymbol {
                    match bare_at(st.moved(j)) {
                        Ok((a, e)) => Ok((st.text.subrange(a, e), e)),
                        Err(f) => Err(f),
                    }
                } else if shape == ProtosShape::CurlyQuoteDelimited {
                    legacy_read(st.text, j)
                } else if shape_is_parenthesized(shape) {
                    Err(DatomFault::ShapeNotYetRuled { shape: ProtosShape::ParenthesisDelimited })
                } else {
                    Err(DatomFault::UnexpectedShape { expected: "a Datom string"@, found: shape })
                }
            },
        }
    }
}

/// The witnesses of a scalar context named `name` entered after `before`,
/// whose interior added `inner`: its entry, the interior's witnesses, and its
/// exit at its first position, for a scalar holds no values of its own.
pub open spec fn scalar_trace(before: DecodeState, name: &'static str, inner: Seq<WalkEvent>) -> Seq<
    WalkEvent,
> {
    before.events + seq![WalkEvent::Enter { context: ContextName::Value(name), position: 0 }]
        + inner + seq![WalkEvent::Exit { context: ContextName::Value(name), position: 0 }]
}

/// The witnesses the interior of a string context in state `st` adds: a
/// legacy string enters and leaves its own context, a bare symbol adds none.
pub open spec fn string_interior_trace(st: DecodeState) -> Seq<WalkEvent> {
    if st.top_terminator() != Some(ProtosShape::DotApplied) && probe_at(st.text, st.at) is Ok
        && probe_at(st.text, st.at)->Ok_0.0 == ProtosShape::CurlyQuoteDelimited {
        seq![
            WalkEvent::Enter { context: ContextName::LegacyString, position: 0 },
            WalkEvent::Exit { context: ContextName::LegacyString, position: 0 },
        ]
    } else {
        Seq::empty()
    }
}

/// How witnesses appended one by one line up with appended sequences.
proof fn lemma_trace_shapes()
    ensures
        forall|e: Seq<WalkEvent>| #[trigger] (e + Seq::<WalkEvent>::empty()) == e,
        forall|e: Seq<WalkEvent>, x: WalkEvent, y: WalkEvent| #[trigger] e.push(x).push(y) == e + seq![
            x,
            y,
        ],
        forall|e: Seq<WalkEvent>, it: Seq<WalkEvent>, x: WalkEvent, y: WalkEvent| #[trigger] (e.push(
            x,
        ) + it).push(y) == e + seq![x] + it + seq![y],
{
    assert forall|e: Seq<WalkEvent>| #[trigger] (e + Seq::<WalkEvent>::empty()) == e by {
        assert(e + Seq::<WalkEvent>::empty() =~= e);
    }
    assert forall|e: Seq<WalkEvent>, x: WalkEvent, y: WalkEvent| #[trigger] e.push(x).push(y) == e
        + seq![x, y] by {
        assert(e.push(x).push(y) =~= e + seq![x, y]);
    }
    assert forall|e: Seq<WalkEvent>, it: Seq<WalkEvent>, x: WalkEvent, y: WalkEvent| #[trigger] (e.push(
        x,
    ) + it).push(y) == e + seq![x] + it + seq![y] by {
        assert((e.push(x) + it).push(y) =~= e + seq![x] + it + seq![y]);
    }
}

/// Reading the interior of a boolean context in state `st`.
pub open spec fn bool_interior(st: DecodeState) -> Result<(bool, int), DatomFault> {
    match bare_at(st) {
        Err(f) => Err(f),
        Ok((j, e)) => {
            let t = st.text.subrange(j, e);
            if t == "True"@ {
                Ok((true, e))
            } else if t == "False"@ {
                Ok((false, e))
            } else {
                Err(DatomFault::InvalidScalar { expected: "boolean"@, text: t })
            }
        },
    }
}

/// The text a boolean is written as.
pub open spec fn bool_text(b: bool) -> Seq<char> {
    if b {
        "True"@
    } else {
        "False"@
    }
}

impl DatomDecode for String {
    open spec fn reads(before: DecodeState, after: DecodeState, result: Result<String, DatomFault>) -> bool {
        after.frames == before.frames && after.events == scalar_trace(
            before,
            "String",
            string_interior_trace(scalar_entered(before, "String")),
        ) && match scalar_read(
            before,
            string_interior(scalar_entered(before, "String")),
        ) {
            Ok((v, k)) => (result matches Ok(x) && x@ == v) && after.at == k,
            Err(f) => result == Err::<String, DatomFault>(f),
        }
    }

    fn decode(walk: &mut DecodeWalk<'_>) -> (r: Result<Self, DatomError>) {
        proof {
            lemma_trace_shapes();
        }
        walk.scalar(
            "String",
            (|walk: &mut DecodeWalk| -> (r: Result<String, DatomError>)
                requires
                    old(walk).wf(),
                ensures
                    final(walk).wf(),
                    final(walk)@.resumes(old(walk)@),
                    final(walk)@.frames == old(walk)@.frames,
                    final(walk)@.events == old(walk)@.events + string_interior_trace(old(walk)@),
                    r is Ok ==> old(walk)@.at < final(walk)@.at,
                    match string_interior(old(walk)@) {
                        Ok((v, k)) => (r matches Ok(x) && x@ == v) && final(walk)@.at == k,
                        Err(f) => r matches Err(x) && x@ == f,
                    },
                {
                    proof {
                        lemma_trace_shapes();
                    }
                    match walk.top_terminator() {
                        Some(ProtosShape::DotApplied) => {
                            let text = walk.bare()?;
                            return Ok(text.to_owned());
                        },
                        _ => {},
                    }
                    let probe = walk.probe()?;
                    match probe.shape() {
                        ProtosShape::BareSymbol => {
                            let text = walk.bare()?;
                            Ok(text.to_owned())
                        },
                        ProtosShape::CurlyQuoteDelimited => walk.legacy_string(),
                        ProtosShape::ParenthesisDelimited | ProtosShape::DotParenthesized => {
                            Err(DatomError::ShapeNotYetRuled { shape: ProtosShape::ParenthesisDelimited })
                        },
                        found => Err(DatomError::UnexpectedShape { expected: "a Datom string", found }),
                    }
                }),
        )
    }
}

impl DatomEncode for String {
    open spec fn writes(&self, before: EncodeState, after: EncodeState, result: Result<(), DatomFault>) -> bool {
        &&& result is Ok
        &&& after.output == before.output + string_text(self@)
        &&& after.frames == before.frames
    }

    fn encode(&self, walk: &mut EncodeWalk) -> (r: Result<(), DatomError>) {
        walk.scalar(
            "String",
            (|walk: &mut EncodeWalk| -> (r: Result<(), DatomError>)
                requires
                    old(walk).wf(),
                ensures
                    final(walk).wf(),
                    final(walk)@.resumes(old(walk)@),
                    r is Ok,
                    final(walk)@.output == old(walk)@.output + string_text(self@),
                    final(walk)@.frames == old(walk)@.frames,
                {
                    let canonical = CanonicalText::new(self.as_str());
                    if canonical.is_bare() {
                        walk.raw(self.as_str());
                        Ok(())
                    } else {
                        walk.legacy_string(self.as_str())
                    }
                }),
        )
    }
}

impl DatomDecode for bool {
    open spec fn reads(before: DecodeState, after: DecodeState, result: Result<bool, DatomFault>) -> bool {
        after.frames == before.frames && after.events == scalar_trace(before, "bool", Seq::empty())
            && match scalar_read(
            before,
            bool_interior(scalar_entered(before, "bool")),
        ) {
            Ok((v, k)) => result == Ok::<bool, DatomFault>(v) && after.at == k,
            Err(f) => result == Err::<bool, DatomFault>(f),
        }
    }

    fn decode(walk: &mut DecodeWalk<'_>) -> (r: Result<Self, DatomError>) {
        proof {
            lemma_trace_shapes();
        }
        walk.scalar(
            "bool",
            (|walk: &mut DecodeWalk| -> (r: Result<bool, DatomError>)
                requires
                    old(walk).wf(),
                ensures
                    final(walk).wf(),
                    final(walk)@.resumes(old(walk)@),
                    final(walk)@.frames == old(walk)@.frames,
                    final(walk)@.events == old(walk)@.events + Seq::<WalkEvent>::empty(),
                    r is Ok ==> old(walk)@.at < final(walk)@.at,
                    match bool_interior(old(walk)@) {
                        Ok((v, k)) => r == Ok::<bool, DatomError>(v) && final(walk)@.at == k,
                        Err(f) => r matches Err(x) && x@ == f,
                    },
                {
                    let text = walk.bare()?;
                    if same_text(text, "True") {
                        Ok(true)
                    } else if same_text(text, "False") {
                        Ok(false)
                    } else {
                        Err(DatomError::InvalidScalar { expected: "boolean", text: text.to_owned() })
                    }
                }),
        )
    }
}

impl DatomEncode for bool {
    open spec fn writes(&self, before: EncodeState, after: EncodeState, result: Result<(), DatomFault>) -> bool {
        &&& result is Ok
        &&& after.output == before.output + bool_text(*self)
        &&& after.frames == before.frames
    }

    fn encode(&self, walk: &mut EncodeWalk) -> (r: Result<(), DatomError>) {
        walk.scalar(
            "bool",
            (|walk: &mut EncodeWalk| -> (r: Result<(), DatomError>)
                requires
                    old(walk).wf(),
                ensures
                    final(walk).wf(),
                    final(walk)@.resumes(old(walk)@),
                    r is Ok,
                    final(walk)@.output == old(walk)@.output + bool_text(*self),
                    final(walk)@.frames == old(walk)@.frames,
                {
                    walk.raw(
                        if *self {
                            "True"
                        } else {
                            "False"
                        },
                    );
                    Ok(())
                }),
        )
    }
}

/// Reading the interior of an integer context named `name` in state `st`:
/// decimal text of a value in `[min, max]`.
pub open spec fn integer_interior(
    st: DecodeState,
    name: &'static str,
    signed: bool,
    min: int,
    max: int,
) -> Result<(int, int), DatomFault> {
    match bare_at(st) {
        Err(f) => Err(f),
        Ok((j, e)) => {
            let t = st.text.subrange(j, e);
            match parse_decimal(t, signed) {
                Some(v) => if min <= v <= max {
                    Ok((v, e))
                } else {
                    Err(DatomFault::InvalidScalar { expected: name@, text: t })
                },
                None => Err(DatomFault::InvalidScalar { expected: name@, text: t }),
            }
        },
    }
}

/// Reading an integer context named `name` from `before` ends in `after`
/// with `result`, the value taken as an integer.
pub open spec fn integer_reads(
    before: DecodeState,
    after: DecodeState,
    result: Result<int, DatomFault>,
    name: &'static str,
    signed: bool,
    min: int,
    max: int,
) -> bool {
    after.frames == before.frames && after.events == scalar_trace(before, name, Seq::empty())
        && match scalar_read(
        before,
        integer_interior(scalar_entered(before, name), name, signed, min, max),
    ) {
        Ok((v, k)) => result == Ok::<int, DatomFault>(v) && after.at == k,
        Err(f) => result == Err::<int, DatomFault>(f),
    }
}

/// Writing an integer `v` in a context named `name` from `before` ends in `after`.
pub open spec fn integer_writes(
    before: EncodeState,
    after: EncodeState,
    result: Result<(), DatomFault>,
    v: int,
) -> bool {
    &&& result is Ok
    &&& after.output == before.output + decimal_text(v)
    &&& after.frames == before.frames
}

/// Read an integer scalar named `name` whose values lie in `[min, max]`.
fn decode_integer(
    walk: &mut DecodeWalk<'_>,
    name: &'static str,
    signed: bool,
    min: i128,
    max: i128,
) -> (r: Result<i128, DatomError>)
    requires
        old(walk).wf(),
        min <= 0 <= max,
        signed ==> min < 0,
        -min <= i128::MAX,
    ensures
        final(walk).wf(),
        final(walk)@.resumes(old(walk)@),
        r is Ok ==> old(walk)@.at < final(walk)@.at,
        integer_reads(
            old(walk)@,
            final(walk)@,
            match r {
                Ok(v) => Ok(v as int),
                Err(e) => Err(e@),
            },
            name,
            signed,
            min as int,
            max as int,
        ),
{
    proof {
        lemma_trace_shapes();
    }
    walk.scalar(
        name,
        (|walk: &mut DecodeWalk| -> (r: Result<i128, DatomError>)
            requires
                old(walk).wf(),
            ensures
                final(walk).wf(),
                final(walk)@.resumes(old(walk)@),
                final(walk)@.frames == old(walk)@.frames,
                final(walk)@.events == old(walk)@.events + Seq::<WalkEvent>::empty(),
                r is Ok ==> old(walk)@.at < final(walk)@.at,
                match integer_interior(old(walk)@, name, signed, min as int, max as int) {
                    Ok((v, k)) => (r matches Ok(x) && x as int == v) && final(walk)@.at == k,
                    Err(f) => r matches Err(x) && x@ == f,
                },
            {
                let text = walk.bare()?;
                match parse_integer(text, signed, min, max) {
                    Some(v) => Ok(v),
                    None => Err(DatomError::InvalidScalar { expected: name, text: text.to_owned() }),
                }
            }),
    )
}

/// Write an integer scalar named `name`.
fn encode_integer(walk: &mut EncodeWalk, name: &'static str, v: i128) -> (r: Result<(), DatomError>)
    requires
        old(walk).wf(),
        v > i128::MIN,
    ensures
        final(walk).wf(),
        final(walk)@.resumes(old(walk)@),
        integer_writes(old(walk)@, final(walk)@, outcome(r), v as int),
{
    walk.scalar(
        name,
        (|walk: &mut EncodeWalk| -> (r: Result<(), DatomError>)
            requires
                old(walk).wf(),
            ensures
                final(walk).wf(),
                final(walk)@.resumes(old(walk)@),
                r is Ok,
                final(walk)@.output == old(walk)@.output + decimal_text(v as int),
                final(walk)@.frames == old(walk)@.frames,
            {
                let text = integer_text(v);
                walk.raw(text.as_str());
                Ok(())
            }),
    )
}

impl DatomDecode for u8 {
    open spec fn reads(before: DecodeState, after: DecodeState, result: Result<u8, DatomFault>) -> bool {
        integer_reads(
            before,
            after,
            match result {
                Ok(x) => Ok(x as int),
                Err(f) => Err(f),
            },
            "u8",
            false,
            u8::MIN as int,
            u8::MAX as int,
        )
    }

    fn decode(walk: &mut DecodeWalk<'_>) -> (r: Result<Self, DatomError>) {
        match decode_integer(walk, "u8", false, u8::MIN as i128, u8::MAX as i128) {
            Ok(v) => Ok(v as u8),
            Err(e) => Err(e),
        }
    }
}

impl DatomEncode for u8 {
    open spec fn writes(&self, before: EncodeState, after: EncodeState, result: Result<(), DatomFault>) -> bool {
        integer_writes(before, after, result, *self as int)
    }

    fn encode(&self, walk: &mut EncodeWalk) -> (r: Result<(), DatomError>) {
        encode_integer(walk, "u8", *self as i128)
    }
}

impl DatomDecode for u16 {
    open spec fn reads(before: DecodeState, after: DecodeState, result: Result<u16, DatomFault>) -> bool {
        integer_reads(
            before,
            after,
            match result {
                Ok(x) => Ok(x as int),
                Err(f) => Err(f),
            },
            "u16",
            false,
            u16::MIN as int,
            u16::MAX as int,
        )
    }

    fn decode(walk: &mut DecodeWalk<'_>) -> (r: Result<Self, DatomError>) {
        match decode_integer(walk, "u16", false, u16::MIN as i128, u16::MAX as i128) {
            Ok(v) => Ok(v as u16),
            Err(e) => Err(e),
        }
    }
}

impl DatomEncode for u16 {
    open spec fn writes(&self, before: EncodeState, after: EncodeState, result: Result<(), DatomFault>) -> bool {
        integer_writes(before, after, result, *self as int)
    }

    fn encode(&self, walk: &mut EncodeWalk) -> (r: Result<(), DatomError>) {
        encode_integer(walk, "u16", *self as i128)
    }
}

impl DatomDecode for u32 {
    open spec fn reads(before: DecodeState, after: DecodeState, result: Result<u32, DatomFault>) -> bool {
        integer_reads(
            before,
            after,
            match result {
                Ok(x) => Ok(x as int),
                Err(f) => Err(f),
            },
            "u32",
            false,
            u32::MIN as int,
            u32::MAX as int,
        )
    }

    fn decode(walk: &mut DecodeWalk<'_>) -> (r: Result<Self, DatomError>) {
        match decode_integer(walk, "u32", false, u32::MIN as i128, u32::MAX as i128) {
            Ok(v) => Ok(v as u32),
            Err(e) => Err(e),
        }
    }
}

impl DatomEncode for u32 {
    open spec fn writes(&self, before: EncodeState, after: EncodeState, result: Result<(), DatomFault>) -> bool {
        integer_writes(before, after, result, *self as int)
    }

    fn encode(&self, walk: &mut EncodeWalk) -> (r: Result<(), DatomError>) {
        encode_integer(walk, "u32", *self as i128)
    }
}

impl DatomDecode for u64 {
    open spec fn reads(before: DecodeState, after: DecodeState, result: Result<u64, DatomFault>) -> bool {
        integer_reads(
            before,
            after,
            match result {
                Ok(x) => Ok(x as int),
                Err(f) => Err(f),
            },
            "u64",
            false,
            u64::MIN as int,
            u64::MAX as int,
        )
    }

    fn decode(walk: &mut DecodeWalk<'_>) -> (r: Result<Self, DatomError>) {
        match decode_integer(walk, "u64", false, u64::MIN as i128, u64::MAX as i128) {
            Ok(v) => Ok(v as u64),
            Err(e) => Err(e),
        }
    }
}

impl DatomEncode for u64 {
    open spec fn writes(&self, before: EncodeState, after: EncodeState, result: Result<(), DatomFault>) -> bool {
        integer_writes(before, after, result, *self as int)
    }

    fn encode(&self, walk: &mut EncodeWalk) -> (r: Result<(), DatomError>) {
        encode_integer(walk, "u64", *self as i128)
    }
}

impl DatomDecode for i8 {
    open spec fn reads(before: DecodeState, after: DecodeState, result: Result<i8, DatomFault>) -> bool {
        integer_reads(
            before,
            after,
            match result {
                Ok(x) => Ok(x as int),
                Err(f) => Err(f),
            },
            "i8",
            true,
            i8::MIN as int,
            i8::MAX as int,
        )
    }

    fn decode(walk: &mut DecodeWalk<'_>) -> (r: Result<Self, DatomError>) {
        match decode_integer(walk, "i8", true, i8::MIN as i128, i8::MAX as i128) {
            Ok(v) => Ok(v as i8),
            Err(e) => Err(e),
        }
    }
}

impl DatomEncode for i8 {
    open spec fn writes(&self, before: EncodeState, after: EncodeState, result: Result<(), DatomFault>) -> bool {
        integer_writes(before, after, result, *self as int)
    }

    fn encode(&self, walk: &mut EncodeWalk) -> (r: Result<(), DatomError>) {
        encode_integer(walk, "i8", *self as i128)
    }
}

impl DatomDecode for i16 {
    open spec fn reads(before: DecodeState, after: DecodeState, result: Result<i16, DatomFault>) -> bool {
        integer_reads(
            before,
            after,
            match result {
                Ok(x) => Ok(x as int),
                Err(f) => Err(f),
            },
            "i16",
            true,
            i16::MIN as int,
            i16::MAX as int,
        )
    }

    fn decode(walk: &mut DecodeWalk<'_>) -> (r: Result<Self, DatomError>) {
        match decode_integer(walk, "i16", true, i16::MIN as i128, i16::MAX as i128) {
            Ok(v) => Ok(v as i16),
            Err(e) => Err(e),
        }
    }
}

impl DatomEncode for i16 {
    open spec fn writes(&self, before: EncodeState, after: EncodeState, result: Result<(), DatomFault>) -> bool {
        integer_writes(before, after, result, *self as int)
    }

    fn encode(&self, walk: &mut EncodeWalk) -> (r: Result<(), DatomError>) {
        encode_integer(walk, "i16", *self as i128)
    }
}

impl DatomDecode for i32 {
    open spec fn reads(before: DecodeState, after: DecodeState, result: Result<i32, DatomFault>) -> bool {
        integer_reads(
            before,
            after,
            match result {
                Ok(x) => Ok(x as int),
                Err(f) => Err(f),
            },
            "i32",
            true,
            i32::MIN as int,
            i32::MAX as int,
        )
    }

    fn decode(walk: &mut DecodeWalk<'_>) -> (r: Result<Self, DatomError>) {
        match decode_integer(walk, "i32", true, i32::MIN as i128, i32::MAX as i128) {
            Ok(v) => Ok(v as i32),
            Err(e) => Err(e),
        }
    }
}

impl DatomEncode for i32 {
    open spec fn writes(&self, before: EncodeState, after: EncodeState, result: Result<(), DatomFault>) -> bool {
        integer_writes(before, after, result, *self as int)
    }

    fn encode(&self, walk: &mut EncodeWalk) -> (r: Result<(), DatomError>) {
        encode_integer(walk, "i32", *self as i128)
    }
}

impl DatomDecode for i64 {
    open spec fn reads(before: DecodeState, after: DecodeState, result: Result<i64, DatomFault>) -> bool {
        integer_reads(
            before,
            after,
            match result {
                Ok(x) => Ok(x as int),
                Err(f) => Err(f),
            },
            "i64",
            true,
            i64::MIN as int,
            i64::MAX as int,
        )
    }

    fn decode(walk: &mut DecodeWalk<'_>) -> (r: Result<Self, DatomError>) {
        match decode_integer(walk, "i64", true, i64::MIN as i128, i64::MAX as i128) {
            Ok(v) => Ok(v as i64),
            Err(e) => Err(e),
        }
    }
}

impl DatomEncode for i64 {
    open spec fn writes(&self, before: EncodeState, after: EncodeState, result: Result<(), DatomFault>) -> bool {
        integer_writes(before, after, result, *self as int)
    }

    fn encode(&self, walk: &mut EncodeWalk) -> (r: Result<(), DatomError>) {
        encode_integer(walk, "i64", *self as i128)
    }
}

/// Whether bare text may stand for a float: a Datom float carries a dot.
pub fn is_dotted_float(text: &str) -> (r: bool)
    ensures
        r == text@.contains('.'),
{
    let chars = chars_of(text);
    let mut k: usize = 0;
    while k < chars.len()
        invariant
            chars@ == text@,
            k <= chars@.len(),
            forall|m: int| 0 <= m < k ==> chars@[m] != '.',
        decreases chars@.len() - k,
    {
        if chars[k] == '.' {
            assert(text@[k as int] == '.');
            return true;
        }
        k = k + 1;
    }
    false
}

/// The text a finite float is written as, from its shortest rendering that
/// reads back as it: one without a dot or an exponent gains `.0`.
pub open spec fn dotted_float(rendered: Seq<char>) -> Seq<char> {
    if rendered.contains('.') || rendered.contains('e') || rendered.contains('E') {
        rendered
    } else {
        rendered + ".0"@
    }
}

/// Write the rendering of a finite float as Datom's dotted float text.
pub fn dotted_float_text(rendered: &str) -> (r: String)
    ensures
        r@ == dotted_float(rendered@),
{
    let chars = chars_of(rendered);
    let mut marked = false;
    let mut k: usize = 0;
    while k < chars.len()
        invariant
            chars@ == rendered@,
            k <= chars@.len(),
            marked <==> exists|m: int| 0 <= m < k && (chars@[m] == '.' || chars@[m] == 'e' || chars@[m] == 'E'),
        decreases chars@.len() - k,
    {
        if chars[k] == '.' || chars[k] == 'e' || chars[k] == 'E' {
            marked = true;
        }
        k = k + 1;
    }
    let mut out = rendered.to_owned();
    if !marked {
        out.append(".0");
    }
    proof {
        if marked {
            let m = choose|m: int| 0 <= m < k && (chars@[m] == '.' || chars@[m] == 'e' || chars@[m] == 'E');
            assert(rendered@[m] == chars@[m]);
        } else {
            assert(!rendered@.contains('.'));
            assert(!rendered@.contains('e'));
            assert(!rendered@.contains('E'));
        }
    }
    out
}

} // verus!
