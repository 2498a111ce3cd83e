//! The collection contexts: vectors, optional values and maps.

use vstd::prelude::*;

use crate::codec::{
    ContextName, DatomDecode, DatomEncode, DecodeState, DecodeWalk, EncodeState, EncodeWalk,
    concluded_read, lemma_concluded_read,
};
use crate::expectation::ProtosShape;
use crate::lexis::skip_trivia;
use crate::parser::{
    DatomError, DatomFault, at_terminator_at, head_dot_at, lemma_named_shape_advances, opener_at,
    outcome, probe_at,
};
use crate::codec::{bare_at, lemma_write_advanced_resumes};
use crate::expectation::{shape_is_dotted, shape_is_parenthesized};
use crate::strings::same_text;

verus! {

/// The walk with its cursor moved past the trivia that follows it.
pub open spec fn skipped(s: DecodeState) -> DecodeState {
    s.moved(skip_trivia(s.text, s.at))
}

/// One element step of a bracketed context: the closing bracket does not
/// follow `s`, and one `v` is read, leaving the walk resumed in `next`.
pub open spec fn element_step<T: DatomDecode>(s: DecodeState, v: T, next: DecodeState) -> bool {
    &&& !at_terminator_at(s.text, s.at, ProtosShape::SquareBracketDelimited)
    &&& exists|mid: DecodeState|
        #![trigger T::reads(skipped(s), mid, Ok::<T, DatomFault>(v))]
        T::reads(skipped(s), mid, Ok::<T, DatomFault>(v)) && mid.resumes(skipped(s)) && next
            == mid.advanced()
}

/// `states` and `vals` trace elements read one after another from `start`.
pub open spec fn elements_trace<T: DatomDecode>(
    start: DecodeState,
    states: Seq<DecodeState>,
    vals: Seq<T>,
) -> bool {
    &&& states.len() == vals.len() + 1
    &&& states[0] == start
    &&& forall|i: int| 0 <= i < vals.len() ==> element_step(#[trigger] states[i], vals[i], states[i + 1])
}

/// Reading the elements of a bracketed context from `start` ended in
/// `inner` with `ir`: elements up to the closing bracket, or the refusal of
/// the first element that failed.
pub open spec fn elements_read<T: DatomDecode>(
    start: DecodeState,
    inner: DecodeState,
    ir: Result<Vec<T>, DatomFault>,
) -> bool {
    exists|states: Seq<DecodeState>, vals: Seq<T>|
        #![trigger elements_trace(start, states, vals)]
        elements_trace(start, states, vals) && match ir {
            Ok(vs) => vs@ == vals && at_terminator_at(
                states.last().text,
                states.last().at,
                ProtosShape::SquareBracketDelimited,
            ) && inner == skipped(states.last()),
            Err(f) => !at_terminator_at(
                states.last().text,
                states.last().at,
                ProtosShape::SquareBracketDelimited,
            ) && T::reads(skipped(states.last()), inner, Err(f)) && inner.resumes(
                skipped(states.last()),
            ),
        }
}

/// Read values of `T` until the closing bracket of the current context.
fn read_elements<T: DatomDecode>(walk: &mut DecodeWalk<'_>) -> (r: Result<Vec<T>, DatomError>)
    requires
        old(walk).wf(),
    ensures
        final(walk).wf(),
        final(walk)@.resumes(old(walk)@),
        elements_read::<T>(old(walk)@, final(walk)@, outcome(r)),
{
    let ghost start = walk@;
    let mut values: Vec<T> = Vec::new();
    let ghost mut states: Seq<DecodeState> = seq![walk@];
    proof {
        crate::codec::lemma_resumes_refl(start);
    }
    loop
        invariant
            walk.wf(),
            start == old(walk)@,
            walk@.resumes(start),
            elements_trace(start, states, values@),
            walk@ == states.last(),
        decreases walk@.text.len() - walk@.at,
    {
        proof {
            walk.lemma_cursor();
        }
        let ghost before = walk@;
        if walk.at_terminator(ProtosShape::SquareBracketDelimited) {
            proof {
                broadcast use crate::codec::lemma_resumes_trans;

                assert(elements_trace(start, states, values@));
            }
            let r: Result<Vec<T>, DatomError> = Ok(values);
            assert(elements_read::<T>(start, walk@, outcome(r)));
            return r;
        }
        let ghost st = walk@;
        let read = walk.value::<T>();
        match read {
            Ok(v) => {
                proof {
                    broadcast use crate::codec::lemma_resumes_trans;

                    assert(outcome(read) == Ok::<T, DatomFault>(v));
                    assert(st == skipped(before));
                    let mid = choose|mid: DecodeState|
                        #![trigger T::reads(st, mid, outcome(read))]
                        T::reads(st, mid, outcome(read)) && mid.resumes(st) && walk@ == mid.advanced();
                    crate::codec::lemma_advanced_resumes(mid);
                    assert(T::reads(skipped(before), mid, Ok::<T, DatomFault>(v)));

                    assert(element_step(before, v, walk@));
                    let old_states = states;
                    states = states.push(walk@);
                    assert forall|i: int| 0 <= i < values@.len() + 1 implies element_step(
                        #[trigger] states[i],
                        values@.push(v)[i],
                        states[i + 1],
                    ) by {
                        if i < values@.len() {
                            assert(states[i] == old_states[i]);
                            assert(states[i + 1] == old_states[i + 1]);
                        }
                    }
                }
                values.push(v);
                proof {
                    walk.lemma_cursor();
                }
            },
            Err(e) => {
                proof {
                    broadcast use crate::codec::lemma_resumes_trans;

                }
                let r: Result<Vec<T>, DatomError> = Err(e);
                assert(elements_read::<T>(start, walk@, outcome(r)));
                return r;
            },
        }
    }
}

impl<T: DatomDecode> DatomDecode for Vec<T> {
    open spec fn reads(before: DecodeState, after: DecodeState, result: Result<Vec<T>, DatomFault>) -> bool {
        let entered = before.entered(ContextName::Vector, Some(ProtosShape::SquareBracketDelimited));
        match opener_at(before.text, before.at, ProtosShape::SquareBracketDelimited) {
            Err(f) => result == Err::<Vec<T>, DatomFault>(f) && after.left(entered),
            Ok(k) => exists|inner: DecodeState, ir: Result<Vec<T>, DatomFault>|
                #![trigger elements_read(entered.moved(k), inner, ir)]
                elements_read(entered.moved(k), inner, ir) && inner.resumes(entered.moved(k))
                    && concluded_read(
                    inner,
                    Some(ProtosShape::SquareBracketDelimited),
                    ir,
                    result,
                    after,
                ),
        }
    }

    fn decode(walk: &mut DecodeWalk<'_>) -> (r: Result<Self, DatomError>) {
        proof {
            walk.lemma_cursor();
            lemma_named_shape_advances(
                walk@.text,
                walk@.at,
                Seq::empty(),
                ProtosShape::SquareBracketDelimited,
            );
        }
        walk.vector(read_elements::<T>)
    }
}

/// One element step of writing: `v` is written after its separator,
/// leaving the walk resumed in `next`.
pub open spec fn write_step<T: DatomEncode>(s: EncodeState, v: T, next: EncodeState) -> bool {
    exists|mid: EncodeState|
        #![trigger v.writes(s.separated(), mid, Ok::<(), DatomFault>(()))]
        v.writes(s.separated(), mid, Ok::<(), DatomFault>(())) && mid.resumes(s.separated())
            && next == mid.advanced()
}

/// `states` trace the first `states.len() - 1` of `vals` written one after another from `start`.
pub open spec fn writes_trace<T: DatomEncode>(
    start: EncodeState,
    states: Seq<EncodeState>,
    vals: Seq<T>,
) -> bool {
    &&& 1 <= states.len() <= vals.len() + 1
    &&& states[0] == start
    &&& forall|i: int| 0 <= i < states.len() - 1 ==> write_step(#[trigger] states[i], vals[i], states[i + 1])
}

/// Writing `vals` one after another from `start` ended in `inner` with
/// `ir`: all of them, or up to the first one that was refused.
pub open spec fn elements_written<T: DatomEncode>(
    start: EncodeState,
    vals: Seq<T>,
    inner: EncodeState,
    ir: Result<(), DatomFault>,
) -> bool {
    exists|states: Seq<EncodeState>|
        #![trigger writes_trace(start, states, vals)]
        writes_trace(start, states, vals) && match ir {
            Ok(_) => states.len() == vals.len() + 1 && inner == states.last(),
            Err(f) => states.len() <= vals.len() && vals[states.len() - 1].writes(
                states.last().separated(),
                inner,
                Err(f),
            ) && inner.resumes(states.last().separated()),
        }
}

/// Write each of `values` in the current context.
fn write_elements<T: DatomEncode>(walk: &mut EncodeWalk, values: &Vec<T>) -> (r: Result<(), DatomError>)
    requires
        old(walk).wf(),
    ensures
        final(walk).wf(),
        final(walk)@.resumes(old(walk)@),
        elements_written(old(walk)@, values@, final(walk)@, outcome(r)),
{
    let ghost start = walk@;
    let ghost mut states: Seq<EncodeState> = seq![walk@];
    proof {
        crate::codec::lemma_resumes_write_refl(start);
    }
    let mut i: usize = 0;
    while i < values.len()
        invariant
            walk.wf(),
            start == old(walk)@,
            i <= values@.len(),
            walk@.resumes(start),
            states.len() == i + 1,
            writes_trace(start, states, values@),
            walk@ == states.last(),
        decreases values@.len() - i,
    {
        let ghost before = walk@;
        let written = walk.value(&values[i]);
        match written {
            Ok(()) => {
                proof {
                    broadcast use crate::codec::lemma_write_resumes_trans;

                    let mid = choose|mid: EncodeState|
                        #![trigger values@[i as int].writes(before.separated(), mid, outcome(written))]
                        values@[i as int].writes(before.separated(), mid, outcome(written))
                            && mid.resumes(before.separated()) && walk@ == mid.advanced();
                    lemma_write_advanced_resumes(mid);
                    lemma_write_advanced_resumes(before);
                    assert(write_step(before, values@[i as int], walk@));
                    let old_states = states;
                    states = states.push(walk@);
                    assert forall|k: int| 0 <= k < states.len() - 1 implies write_step(
                        #[trigger] states[k],
                        values@[k],
                        states[k + 1],
                    ) by {
                        if k < old_states.len() - 1 {
                            assert(states[k] == old_states[k]);
                            assert(states[k + 1] == old_states[k + 1]);
                        }
                    }
                }
                i = i + 1;
            },
            Err(e) => {
                proof {
                    broadcast use crate::codec::lemma_write_resumes_trans;

                    lemma_write_advanced_resumes(before);
                }
                let r: Result<(), DatomError> = Err(e);
                assert(elements_written(start, values@, walk@, outcome(r)));
                return r;
            },
        }
    }
    let r: Result<(), DatomError> = Ok(());
    assert(elements_written(start, values@, walk@, outcome(r)));
    r
}

impl<T: DatomEncode> DatomEncode for Vec<T> {
    open spec fn writes(&self, before: EncodeState, after: EncodeState, result: Result<(), DatomFault>) -> bool {
        let entered = before.entered(ContextName::Vector, Some(ProtosShape::SquareBracketDelimited)).wrote(
            "["@,
        );
        exists|inner: EncodeState, ir: Result<(), DatomFault>|
            #![trigger elements_written(entered, self@, inner, ir)]
            elements_written(entered, self@, inner, ir) && inner.resumes(entered) && result == ir
                && after == (if ir is Ok {
                inner.wrote(seq![']'])
            } else {
                inner
            }).closed()
    }

    fn encode(&self, walk: &mut EncodeWalk) -> (r: Result<(), DatomError>) {
        walk.vector(
            (|walk: &mut EncodeWalk| -> (r: Result<(), DatomError>)
                requires
                    old(walk).wf(),
                ensures
                    final(walk).wf(),
                    final(walk)@.resumes(old(walk)@),
                    elements_written(old(walk)@, self@, final(walk)@, outcome(r)),
                { write_elements(walk, self) }),
        )
    }
}

/// Reading the payload of `Some.` from `s` ended in `inner` with `ir`.
pub open spec fn some_read<T: DatomDecode>(
    s: DecodeState,
    inner: DecodeState,
    ir: Result<Option<T>, DatomFault>,
) -> bool {
    let entered = s.entered(ContextName::Variant("Some"), None);
    match head_dot_at(s.text, s.at, "Some"@) {
        Err(f) => ir == Err::<Option<T>, DatomFault>(f) && inner.left(entered),
        Ok(k) => exists|mid: DecodeState, vr: Result<T, DatomFault>|
            #![trigger T::reads(entered.moved(k), mid, vr)]
            T::reads(entered.moved(k), mid, vr) && mid.resumes(entered.moved(k)) && match vr {
                Ok(v) => ir == Ok::<Option<T>, DatomFault>(Some(v)) && inner == mid.advanced().closed(),
                Err(f) => ir == Err::<Option<T>, DatomFault>(f) && inner == mid.closed(),
            },
    }
}

/// Reading the interior of an optional context in state `st` ended in
/// `inner` with `ir`: `None`, or `Some.` and a value.
pub open spec fn option_interior<T: DatomDecode>(
    st: DecodeState,
    inner: DecodeState,
    ir: Result<Option<T>, DatomFault>,
) -> bool {
    match probe_at(st.text, st.at) {
        Err(f) => ir == Err::<Option<T>, DatomFault>(f) && inner == skipped(st),
        Ok((shape, head)) => if shape == ProtosShape::BareSymbol && head == Some("None"@) {
            match bare_at(skipped(st)) {
                Ok((_, e)) => ir == Ok::<Option<T>, DatomFault>(None) && inner == skipped(st).moved(e),
                Err(f) => ir == Err::<Option<T>, DatomFault>(f) && inner == skipped(st).moved(inner.at)
                    && skipped(st).at <= inner.at,
            }
        } else if shape_is_dotted(shape) && head == Some("Some"@) {
            some_read(skipped(st), inner, ir)
        } else if shape_is_parenthesized(shape) {
            ir == Err::<Option<T>, DatomFault>(
                DatomFault::ShapeNotYetRuled { shape: ProtosShape::ParenthesisDelimited },
            ) && inner == skipped(st)
        } else {
            ir == Err::<Option<T>, DatomFault>(
                DatomFault::UnexpectedShape { expected: "None or Some.value"@, found: shape },
            ) && inner == skipped(st)
        },
    }
}

/// Whether a probed head is exactly `expected`.
fn head_is(head: Option<&str>, expected: &str) -> (r: bool)
    ensures
        r == (match head {
            Some(h) => h@ == expected@,
            None => false,
        }),
{
    match head {
        Some(h) => same_text(h, expected),
        None => false,
    }
}

impl<T: DatomDecode> DatomDecode for Option<T> {
    open spec fn reads(before: DecodeState, after: DecodeState, result: Result<Option<T>, DatomFault>) -> bool {
        let st = before.entered(ContextName::Value("Option"), before.scalar_terminator());
        exists|inner: DecodeState, ir: Result<Option<T>, DatomFault>|
            #![trigger option_interior(st, inner, ir)]
            option_interior(st, inner, ir) && inner.resumes(st) && concluded_read(
                inner,
                before.scalar_terminator(),
                ir,
                result,
                after,
            )
    }

    fn decode(walk: &mut DecodeWalk<'_>) -> (r: Result<Self, DatomError>) {
        walk.scalar(
            "Option",
            (|walk: &mut DecodeWalk| -> (r: Result<Option<T>, DatomError>)
                requires
                    old(walk).wf(),
                ensures
                    final(walk).wf(),
                    final(walk)@.resumes(old(walk)@),
                    r is Ok ==> old(walk)@.at < final(walk)@.at,
                    option_interior(old(walk)@, final(walk)@, outcome(r)),
                {
                    let probe = walk.probe()?;
                    let shape = probe.shape();
                    if shape == ProtosShape::BareSymbol && head_is(probe.head(), "None") {
                        let _ = walk.bare()?;
                        return Ok(None);
                    }
                    if shape.is_dotted() && head_is(probe.head(), "Some") {
                        proof {
                            walk.lemma_cursor();
                            lemma_named_shape_advances(
                                walk@.text,
                                walk@.at,
                                "Some"@,
                                ProtosShape::DotApplied,
                            );
                        }
                        return walk.variant(
                            "Some",
                            (|walk: &mut DecodeWalk| -> (r: Result<Option<T>, DatomError>)
                                requires
                                    old(walk).wf(),
                                ensures
                                    final(walk).wf(),
                                    final(walk)@.resumes(old(walk)@),
                                    r is Ok ==> old(walk)@.at < final(walk)@.at,
                                    exists|mid: DecodeState, vr: Result<T, DatomFault>|
                                        #![trigger T::reads(old(walk)@, mid, vr)]
                                        T::reads(old(walk)@, mid, vr) && mid.resumes(old(walk)@)
                                            && match vr {
                                            Ok(v) => r == Ok::<Option<T>, DatomError>(Some(v))
                                                && final(walk)@ == mid.advanced(),
                                            Err(f) => (r matches Err(x) && x@ == f) && final(walk)@
                                                == mid,
                                        },
                                {
                                    let read = walk.value::<T>();
                                    proof {
                                        broadcast use crate::codec::lemma_resumes_trans;

                                        let mid = choose|mid: DecodeState|
                                            #![trigger T::reads(old(walk)@, mid, outcome(read))]
                                            T::reads(old(walk)@, mid, outcome(read)) && mid.resumes(
                                                old(walk)@,
                                            ) && walk@ == (if read is Ok {
                                                mid.advanced()
                                            } else {
                                                mid
                                            });
                                        crate::codec::lemma_advanced_resumes(mid);
                                    }
                                    match read {
                                        Ok(v) => Ok(Some(v)),
                                        Err(e) => Err(e),
                                    }
                                }),
                        );
                    }
                    if shape == ProtosShape::ParenthesisDelimited || shape
                        == ProtosShape::DotParenthesized {
                        return Err(
                            DatomError::ShapeNotYetRuled { shape: ProtosShape::ParenthesisDelimited },
                        );
                    }
                    Err(DatomError::UnexpectedShape { expected: "None or Some.value", found: shape })
                }),
        )
    }
}

/// Writing `opt` as the interior of an optional context from `st` ended in
/// `inner` with `ir`.
pub open spec fn option_written<T: DatomEncode>(
    opt: Option<T>,
    st: EncodeState,
    inner: EncodeState,
    ir: Result<(), DatomFault>,
) -> bool {
    match opt {
        None => ir == Ok::<(), DatomFault>(()) && inner == st.wrote("None"@),
        Some(v) => {
            let e = st.entered(ContextName::Variant("Some"), None).wrote("Some"@ + "."@);
            exists|mid: EncodeState, vr: Result<(), DatomFault>|
                #![trigger v.writes(e.separated(), mid, vr)]
                v.writes(e.separated(), mid, vr) && mid.resumes(e.separated()) && ir == vr && inner
                    == (if vr is Ok {
                    mid.advanced()
                } else {
                    mid
                }).closed()
        },
    }
}

impl<T: DatomEncode> DatomEncode for Option<T> {
    open spec fn writes(&self, before: EncodeState, after: EncodeState, result: Result<(), DatomFault>) -> bool {
        let st = before.entered(ContextName::Value("Option"), None);
        exists|inner: EncodeState, ir: Result<(), DatomFault>|
            #![trigger option_written(*self, st, inner, ir)]
            option_written(*self, st, inner, ir) && inner.resumes(st) && result == ir && after
                == inner.closed()
    }

    fn encode(&self, walk: &mut EncodeWalk) -> (r: Result<(), DatomError>) {
        walk.scalar(
            "Option",
            (|walk: &mut EncodeWalk| -> (r: Result<(), DatomError>)
                requires
                    old(walk).wf(),
                ensures
                    final(walk).wf(),
                    final(walk)@.resumes(old(walk)@),
                    option_written(*self, old(walk)@, final(walk)@, outcome(r)),
                {
                    match self {
                        None => {
                            walk.raw("None");
                            Ok(())
                        },
                        Some(value) => walk.variant(
                            "Some",
                            (|walk: &mut EncodeWalk| -> (r: Result<(), DatomError>)
                                requires
                                    old(walk).wf(),
                                ensures
                                    final(walk).wf(),
                                    final(walk)@.resumes(old(walk)@),
                                    exists|mid: EncodeState|
                                        #![trigger value.writes(old(walk)@.separated(), mid, outcome(r))]
                                        value.writes(old(walk)@.separated(), mid, outcome(r))
                                            && mid.resumes(old(walk)@.separated()) && final(walk)@ == (
                                        if r is Ok {
                                            mid.advanced()
                                        } else {
                                            mid
                                        }),
                                {
                                    let r = walk.value(value);
                                    proof {
                                        broadcast use crate::codec::lemma_write_resumes_trans;

                                        let mid = choose|mid: EncodeState|
                                            #![trigger value.writes(old(walk)@.separated(), mid, outcome(r))]
                                            value.writes(old(walk)@.separated(), mid, outcome(r))
                                                && mid.resumes(old(walk)@.separated()) && walk@ == (
                                            if r is Ok {
                                                mid.advanced()
                                            } else {
                                                mid
                                            });
                                        lemma_write_advanced_resumes(mid);
                                        lemma_write_advanced_resumes(old(walk)@);
                                    }
                                    r
                                }),
                        ),
                    }
                }),
        )
    }
}

} // verus!
