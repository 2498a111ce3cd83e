//! Direct typed Datom contexts and their shared structural walk drivers.

use vstd::prelude::*;

use crate::expectation::{ProtosShape, ShapeProbe, shape_is_parenthesized};
use crate::lexis::{skip_trivia, lemma_skip_trivia_bounds};
use crate::parser::{
    DatomError, DatomFault, Parser, at_terminator_at, lemma_terminator_advances, lemma_named_shape_advances, finish_at, head_dot_at, legacy_at,
    literal_at, named_shape_at, opener_at, outcome, probe_at, probe_outcome, take_bare_at,
    terminator_at,
};
use crate::indentation::strip_indentation;
use crate::pretty::{CanonicalText, legacy_text};
use crate::strings::pop_char;

verus! {

/// A context tracked by the one walk driver.
#[derive(Clone, Copy, Debug, PartialEq, Eq)]
pub enum ContextName {
    Document,
    Value(&'static str),
    Record(&'static str),
    Vector,
    Mapping,
    DottedKey,
    LegacyString,
    Variant(&'static str),
}

/// A witness emitted by the one shared walk driver.
#[derive(Clone, Copy, Debug, PartialEq, Eq)]
pub enum WalkEvent {
    Enter { context: ContextName, position: usize },
    Exit { context: ContextName, position: usize },
    Resume { context: ContextName, position: usize },
}

/// One open context: the sole owner of its position among its parent's
/// values and of its terminator.
#[derive(Clone, Copy)]
pub struct WalkFrame {
    pub context: ContextName,
    pub position: usize,
    pub terminator: Option<ProtosShape>,
}

impl WalkFrame {
    fn new(context: ContextName, terminator: Option<ProtosShape>) -> (r: Self)
        ensures
            r == (WalkFrame { context, position: 0, terminator }),
    {
        WalkFrame { context, position: 0, terminator }
    }
}

/// The state of a reading walk: the source, the cursor, the open contexts
/// and the witnesses emitted so far.
pub ghost struct DecodeState {
    pub text: Seq<char>,
    pub at: int,
    pub frames: Seq<WalkFrame>,
    pub events: Seq<WalkEvent>,
}

/// The frame that opens a context.
pub open spec fn opened_frame(context: ContextName, terminator: Option<ProtosShape>) -> WalkFrame {
    WalkFrame { context, position: 0, terminator }
}

/// The witness that leaves the innermost of `frames`.
pub open spec fn exit_event(frames: Seq<WalkFrame>) -> WalkEvent {
    WalkEvent::Exit { context: frames.last().context, position: frames.last().position }
}

/// The open contexts of a walk as a stack of contexts with the number of
/// values each has read or written so far.
pub open spec fn open_stack(frames: Seq<WalkFrame>) -> Seq<(ContextName, int)> {
    frames.map_values(|f: WalkFrame| (f.context, f.position as int))
}

/// The stack of open contexts after one more witness `e`, or `None` if `e`
/// does not fit: a context is entered at position 0, and only the document
/// can open the walk; a context resumes at the position after its last; a
/// context leaves at the position it stands at, innermost first.
pub open spec fn trace_step(st: Seq<(ContextName, int)>, e: WalkEvent) -> Option<
    Seq<(ContextName, int)>,
> {
    match e {
        WalkEvent::Enter { context, position } => if position == 0 && (st.len() > 0
            || context == ContextName::Document) {
            Some(st.push((context, 0)))
        } else {
            None
        },
        WalkEvent::Resume { context, position } => if st.len() > 0 && st.last().0 == context
            && position == st.last().1 + 1 {
            Some(st.update(st.len() - 1, (context, position as int)))
        } else {
            None
        },
        WalkEvent::Exit { context, position } => if st.len() > 0 && st.last() == (
            context,
            position as int,
        ) {
            Some(st.drop_last())
        } else {
            None
        },
    }
}

/// The stack of contexts left open by the witnesses `ev`, replayed from the
/// first, or `None` if they do not nest: nothing follows the witness that
/// leaves the last open context.
pub open spec fn trace_stack(ev: Seq<WalkEvent>) -> Option<Seq<(ContextName, int)>>
    decreases ev.len(),
{
    if ev.len() == 0 {
        Some(Seq::empty())
    } else {
        match trace_stack(ev.drop_last()) {
            None => None,
            Some(st) => if st.len() == 0 && ev.len() > 1 {
                None
            } else {
                trace_step(st, ev.last())
            },
        }
    }
}

/// A whole trace: the witnesses nest, and every context they open, the
/// document first among them, is left again.
pub open spec fn nested_trace(ev: Seq<WalkEvent>) -> bool {
    ev.len() > 0 && trace_stack(ev) == Some(Seq::<(ContextName, int)>::empty())
}

/// Replayed witnesses open with the document at position 0, keep the
/// document at the bottom of what is open, and enter every context at
/// position 0.
proof fn lemma_trace_stack_shape(ev: Seq<WalkEvent>)
    requires
        trace_stack(ev) is Some,
    ensures
        ev.len() > 0 ==> ev[0] == (WalkEvent::Enter { context: ContextName::Document, position: 0 }),
        trace_stack(ev)->Some_0.len() > 0 ==> trace_stack(ev)->Some_0[0].0 == ContextName::Document,
        forall|k: int| 0 <= k < ev.len() ==> (#[trigger] ev[k] matches WalkEvent::Enter { position, .. }
            ==> position == 0),
    decreases ev.len(),
{
    if ev.len() > 0 {
        let front = ev.drop_last();
        lemma_trace_stack_shape(front);
        let pst = trace_stack(front)->Some_0;
        let st = trace_stack(ev)->Some_0;
        if ev.len() > 1 {
            assert(ev[0] == front[0]);
        }
        if st.len() > 0 && pst.len() > 0 {
            assert(st[0] == pst[0] || (pst.len() == 1 && st[0].0 == pst.last().0));
        }
        assert forall|k: int| 0 <= k < ev.len() implies (#[trigger] ev[k] matches WalkEvent::Enter {
            position,
            ..
        } ==> position == 0) by {
            if k < ev.len() - 1 {
                assert(ev[k] == front[k]);
            }
        }
    }
}

/// A whole trace of a walk opens by entering the document at position 0,
/// ends by leaving the document, and enters every context at position 0;
/// between, by its definition, entries and exits nest like brackets with
/// equal contexts, and the witnesses of resuming a context carry the
/// positions 1, 2, .. in order up to the position at which it is left.
pub proof fn law_trace_nests(ev: Seq<WalkEvent>)
    requires
        nested_trace(ev),
    ensures
        ev[0] == (WalkEvent::Enter { context: ContextName::Document, position: 0 }),
        ev.last() matches WalkEvent::Exit { context, .. } && context == ContextName::Document,
        forall|k: int| 0 <= k < ev.len() ==> (#[trigger] ev[k] matches WalkEvent::Enter { position, .. }
            ==> position == 0),
{
    lemma_trace_stack_shape(ev);
    let front = ev.drop_last();
    lemma_trace_stack_shape(front);
    let pst = trace_stack(front)->Some_0;
    assert(pst.len() > 0);
    assert(trace_step(pst, ev.last()) == Some(Seq::<(ContextName, int)>::empty()));
    match ev.last() {
        WalkEvent::Enter { .. } => {
            assert(trace_step(pst, ev.last())->Some_0.len() == pst.len() + 1);
        },
        WalkEvent::Resume { .. } => {
            assert(trace_step(pst, ev.last())->Some_0.len() == pst.len());
        },
        WalkEvent::Exit { .. } => {
            assert(pst.drop_last().len() == 0);
            assert(pst.last() == pst[0]);
        },
    }
}

/// `frames` with the innermost one resumed at its following position.
pub open spec fn frames_advanced(frames: Seq<WalkFrame>) -> Seq<WalkFrame> {
    frames.update(
        frames.len() - 1,
        WalkFrame {
            context: frames.last().context,
            position: (frames.last().position + 1) as usize,
            terminator: frames.last().terminator,
        },
    )
}

/// The witness of resuming the innermost of `frames` at its following position.
pub open spec fn resume_event(frames: Seq<WalkFrame>) -> WalkEvent {
    WalkEvent::Resume {
        context: frames.last().context,
        position: (frames.last().position + 1) as usize,
    }
}

/// `events` extends `before` at its end.
pub open spec fn extends(events: Seq<WalkEvent>, before: Seq<WalkEvent>) -> bool {
    before.len() <= events.len() && events.subrange(0, before.len() as int) == before
}

/// `after` keeps the open contexts of `before`, except that the innermost
/// may have moved to another position.
pub open spec fn frames_resume(after: Seq<WalkFrame>, before: Seq<WalkFrame>) -> bool {
    &&& after.len() == before.len()
    &&& forall|k: int| 0 <= k < after.len() - 1 ==> #[trigger] after[k] == before[k]
    &&& after.len() > 0 ==> {
        &&& after.last().context == before.last().context
        &&& after.last().terminator == before.last().terminator
    }
}

impl DecodeState {
    /// The walk at the start of reading `text`.
    pub open spec fn start(text: Seq<char>) -> DecodeState {
        DecodeState {
            text,
            at: 0,
            frames: seq![opened_frame(ContextName::Document, None)],
            events: seq![WalkEvent::Enter { context: ContextName::Document, position: 0 }],
        }
    }

    /// This state with a new innermost context opened.
    pub open spec fn entered(self, context: ContextName, terminator: Option<ProtosShape>) -> DecodeState {
        DecodeState {
            frames: self.frames.push(opened_frame(context, terminator)),
            events: self.events.push(WalkEvent::Enter { context, position: 0 }),
            ..self
        }
    }

    /// This state with its innermost context left.
    pub open spec fn closed(self) -> DecodeState {
        if self.frames.len() > 0 {
            DecodeState {
                frames: self.frames.drop_last(),
                events: self.events.push(exit_event(self.frames)),
                ..self
            }
        } else {
            self
        }
    }

    /// This state with its innermost context resumed at its following position.
    pub open spec fn advanced(self) -> DecodeState {
        if self.frames.len() > 0 {
            DecodeState {
                frames: frames_advanced(self.frames),
                events: self.events.push(resume_event(self.frames)),
                ..self
            }
        } else {
            self
        }
    }

    /// This state with the cursor at `at`.
    pub open spec fn moved(self, at: int) -> DecodeState {
        DecodeState { at, ..self }
    }

    /// The terminator of the innermost context.
    pub open spec fn top_terminator(self) -> Option<ProtosShape> {
        if self.frames.len() > 0 {
            self.frames.last().terminator
        } else {
            None
        }
    }

    /// The terminator a scalar context inherits: the dot of a map key.
    pub open spec fn scalar_terminator(self) -> Option<ProtosShape> {
        if self.frames.len() > 0 && self.frames.last().context == ContextName::DottedKey {
            Some(ProtosShape::DotApplied)
        } else {
            None
        }
    }

    /// This state follows `before` in one walk: the same source, a cursor no
    /// earlier, the same open contexts but for the position of the innermost,
    /// and the earlier witnesses kept.
    pub open spec fn resumes(self, before: DecodeState) -> bool {
        &&& self.text == before.text
        &&& before.at <= self.at
        &&& frames_resume(self.frames, before.frames)
        &&& extends(self.events, before.events)
    }

    /// This state is `inner` with its innermost context left, the cursor
    /// possibly further on.
    pub open spec fn left(self, inner: DecodeState) -> bool {
        &&& inner.at <= self.at
        &&& self == inner.moved(self.at).closed()
    }
}

/// How a context ends after its interior produced `ir`: its terminator is
/// consumed when the interior succeeded, and the context is left either way.
pub open spec fn concluded<T>(
    inner: DecodeState,
    terminator: Option<ProtosShape>,
    ir: Result<T, DatomError>,
    r: Result<T, DatomError>,
    after: DecodeState,
) -> bool {
    match ir {
        Err(e) => r == Err::<T, DatomError>(e) && after == inner.closed(),
        Ok(v) => match terminator {
            None => r == Ok::<T, DatomError>(v) && after == inner.closed(),
            Some(t) => match terminator_at(inner.text, inner.at, t) {
                Ok(k) => r == Ok::<T, DatomError>(v) && inner.at < k && after == inner.moved(k).closed(),
                Err(f) => (r matches Err(x) && x@ == f) && after.left(inner),
            },
        },
    }
}

/// A context whose opening step refused with `f`: the refusal is returned
/// and the context is left.
pub open spec fn refused<T>(entered: DecodeState, f: DatomFault, r: Result<T, DatomError>, after: DecodeState) -> bool {
    (r matches Err(x) && x@ == f) && after.left(entered)
}


/// A walk resumes itself.
pub proof fn lemma_resumes_refl(st: DecodeState)
    ensures
        st.resumes(st),
{
    assert(st.events.subrange(0, st.events.len() as int) =~= st.events);
}

/// Moving the cursor forward resumes the walk.
pub proof fn lemma_moved_resumes(st: DecodeState, k: int)
    requires
        st.at <= k,
    ensures
        st.moved(k).resumes(st),
{
    assert(st.events.subrange(0, st.events.len() as int) =~= st.events);
}

/// Resuming the innermost context at its following position resumes the walk.
pub proof fn lemma_advanced_resumes(st: DecodeState)
    ensures
        st.advanced().resumes(st),
{
    lemma_resumes_refl(st);
    if st.frames.len() > 0 {
        assert(st.advanced().events.subrange(0, st.events.len() as int) =~= st.events);
    }
}

/// Writing: resuming the innermost context at its following position resumes the walk.
pub proof fn lemma_write_advanced_resumes(st: EncodeState)
    ensures
        st.advanced().resumes(st),
        st.separated().resumes(st),
        st.advanced().output == st.output,
        st.wrote(Seq::empty()) == st,
{
    lemma_resumes_write_refl(st);
    lemma_wrote_resumes(st, seq![' ']);
    assert(st.output + Seq::<char>::empty() =~= st.output);
    if st.frames.len() > 0 {
        assert(st.advanced().events.subrange(0, st.events.len() as int) =~= st.events);
        assert(st.advanced().output.subrange(0, st.output.len() as int) =~= st.output);
    }
}

/// Resuming is transitive.
pub broadcast proof fn lemma_resumes_trans(a: DecodeState, b: DecodeState, c: DecodeState)
    requires
        #[trigger] b.resumes(a),
        #[trigger] c.resumes(b),
    ensures
        c.resumes(a),
{
    assert(c.events.subrange(0, a.events.len() as int) =~= b.events.subrange(
        0,
        a.events.len() as int,
    ));
    if c.frames.len() > 0 {
        assert(c.frames.last() == c.frames[c.frames.len() - 1]);
    }
}

/// A context entered and left again, its cursor moved to `k` on the way,
/// resumes the walk with the same open contexts.
pub proof fn lemma_nested_resumes(
    before: DecodeState,
    inner: DecodeState,
    context: ContextName,
    terminator: Option<ProtosShape>,
    after: DecodeState,
)
    requires
        inner.resumes(before.entered(context, terminator)),
        after.left(inner),
    ensures
        after.resumes(before),
        after.frames == before.frames,
{
    let e = before.entered(context, terminator);
    assert(inner.frames.drop_last() =~= before.frames);
    assert(after.events.subrange(0, before.events.len() as int) =~= before.events) by {
        assert(inner.events.subrange(0, e.events.len() as int) == e.events);
        assert(e.events.subrange(0, before.events.len() as int) =~= before.events);
        assert(after.events.subrange(0, before.events.len() as int) =~= inner.events.subrange(
            0,
            before.events.len() as int,
        ));
    }
    lemma_resumes_refl(before);
}

/// A writing walk resumes itself.
pub proof fn lemma_resumes_write_refl(st: EncodeState)
    ensures
        st.resumes(st),
{
    assert(st.events.subrange(0, st.events.len() as int) =~= st.events);
    assert(st.output.subrange(0, st.output.len() as int) =~= st.output);
}

/// Writing text resumes the walk.
pub proof fn lemma_wrote_resumes(st: EncodeState, t: Seq<char>)
    ensures
        st.wrote(t).resumes(st),
{
    assert(st.events.subrange(0, st.events.len() as int) =~= st.events);
    assert((st.output + t).subrange(0, st.output.len() as int) =~= st.output);
}

/// Resuming a writing walk is transitive.
pub broadcast proof fn lemma_write_resumes_trans(a: EncodeState, b: EncodeState, c: EncodeState)
    requires
        #[trigger] b.resumes(a),
        #[trigger] c.resumes(b),
    ensures
        c.resumes(a),
{
    assert(c.events.subrange(0, a.events.len() as int) =~= b.events.subrange(
        0,
        a.events.len() as int,
    ));
    assert(c.output.subrange(0, a.output.len() as int) =~= b.output.subrange(
        0,
        a.output.len() as int,
    ));
}

/// A writing context entered, written into and left again resumes the walk
/// with the same open contexts.
pub proof fn lemma_write_nested_resumes(
    before: EncodeState,
    inner: EncodeState,
    context: ContextName,
    terminator: Option<ProtosShape>,
    after: EncodeState,
)
    requires
        inner.resumes(before.entered(context, terminator)),
        after == inner.closed(),
    ensures
        after.resumes(before),
        after.frames == before.frames,
{
    let e = before.entered(context, terminator);
    assert(inner.frames.drop_last() =~= before.frames);
    assert(after.events.subrange(0, before.events.len() as int) =~= before.events) by {
        assert(inner.events.subrange(0, e.events.len() as int) == e.events);
        assert(e.events.subrange(0, before.events.len() as int) =~= before.events);
        assert(after.events.subrange(0, before.events.len() as int) =~= inner.events.subrange(
            0,
            before.events.len() as int,
        ));
    }
}

/// A writing context entered, opened with `prefix`, written into, closed
/// with `suffix` and left again resumes the walk with the same open contexts.
pub proof fn lemma_write_context(
    before: EncodeState,
    context: ContextName,
    terminator: Option<ProtosShape>,
    prefix: Seq<char>,
    inner: EncodeState,
    suffix: Seq<char>,
    after: EncodeState,
)
    requires
        inner.resumes(before.entered(context, terminator).wrote(prefix)),
        after == inner.wrote(suffix).closed(),
    ensures
        after.resumes(before),
        after.frames == before.frames,
{
    let e = before.entered(context, terminator);
    lemma_wrote_resumes(e, prefix);
    lemma_wrote_resumes(inner, suffix);
    lemma_write_resumes_trans(e, e.wrote(prefix), inner);
    lemma_write_resumes_trans(e, inner, inner.wrote(suffix));
    lemma_write_nested_resumes(before, inner.wrote(suffix), context, terminator, after);
}

/// How a reading context ends after its interior read `ir` and left the
/// walk in `inner`: the terminator is consumed after a value, and the
/// context is left either way.
pub open spec fn concluded_read<T>(
    inner: DecodeState,
    terminator: Option<ProtosShape>,
    ir: Result<T, DatomFault>,
    result: Result<T, DatomFault>,
    after: DecodeState,
) -> bool {
    match ir {
        Err(f) => result == Err::<T, DatomFault>(f) && after == inner.closed(),
        Ok(v) => match terminator {
            None => result == Ok::<T, DatomFault>(v) && after == inner.closed(),
            Some(t) => match terminator_at(inner.text, inner.at, t) {
                Ok(k) => result == Ok::<T, DatomFault>(v) && inner.at < k && after == inner.moved(
                    k,
                ).closed(),
                Err(f) => result == Err::<T, DatomFault>(f) && after.left(inner),
            },
        },
    }
}

/// The conclusion of a context, taken by the views of its outcomes.
pub proof fn lemma_concluded_read<T>(
    inner: DecodeState,
    terminator: Option<ProtosShape>,
    ir: Result<T, DatomError>,
    r: Result<T, DatomError>,
    after: DecodeState,
)
    requires
        concluded(inner, terminator, ir, r, after),
    ensures
        concluded_read(inner, terminator, outcome(ir), outcome(r), after),
{
}

/// A brace record, read and written through its positional fields only.
pub trait DatomRecord: Sized {
    /// The ruled bare record head.
    const NAME: &'static str;

    /// Reading the fields from `before` can leave the walk in `after` with
    /// `result`.  A record that states nothing of its fields promises no more
    /// than a consistent walk.
    open spec fn reads_fields(before: DecodeState, after: DecodeState, result: Result<Self, DatomFault>) -> bool {
        true
    }

    /// Read only this record's positional interior, after `NAME.{` has opened.
    fn read_fields(walk: &mut DecodeWalk<'_>) -> (r: Result<Self, DatomError>)
        requires
            old(walk).wf(),
        ensures
            final(walk).wf(),
            final(walk)@.resumes(old(walk)@),
            Self::reads_fields(old(walk)@, final(walk)@, outcome(r)),
    ;

    /// Writing the fields from `before` can leave the walk in `after` with
    /// `result`.  A record that states nothing of its fields promises no more
    /// than a consistent walk.
    open spec fn writes_fields(&self, before: EncodeState, after: EncodeState, result: Result<(), DatomFault>) -> bool {
        true
    }

    /// Write only this record's positional interior, after `NAME.{` has opened.
    fn write_fields(&self, walk: &mut EncodeWalk) -> (r: Result<(), DatomError>)
        requires
            old(walk).wf(),
        ensures
            final(walk).wf(),
            final(walk)@.resumes(old(walk)@),
            self.writes_fields(old(walk)@, final(walk)@, outcome(r)),
    ;
}

/// A reading walk over one source.  A type reads its own context from it.
pub trait DatomDecode: Sized {
    /// Reading this type from the walk in state `before` can leave it in
    /// `after` with `result`.  A type that states nothing of its reading
    /// promises no more than a consistent walk.
    open spec fn reads(before: DecodeState, after: DecodeState, result: Result<Self, DatomFault>) -> bool {
        true
    }

    /// Read this type's own context from the active structural walk.
    fn decode(walk: &mut DecodeWalk<'_>) -> (r: Result<Self, DatomError>)
        requires
            old(walk).wf(),
        ensures
            final(walk).wf(),
            final(walk)@.resumes(old(walk)@),
            r is Ok ==> old(walk)@.at < final(walk)@.at,
            Self::reads(old(walk)@, final(walk)@, outcome(r)),
    ;
}

/// The reading half of the one shared context-stack driver.
pub struct DecodeWalk<'source> {
    parser: Parser<'source>,
    frames: Vec<WalkFrame>,
    events: Vec<WalkEvent>,
}

impl<'source> View for DecodeWalk<'source> {
    type V = DecodeState;

    closed spec fn view(&self) -> DecodeState {
        DecodeState {
            text: self.parser.text(),
            at: self.parser.at(),
            frames: self.frames@,
            events: self.events@,
        }
    }
}

impl<'source> DecodeWalk<'source> {
    /// The walk is consistent: a well-formed cursor, and every open context at
    /// a position below the number of witnesses.
    pub closed spec fn wf(&self) -> bool {
        &&& self.trace_kept()
        &&& self.frames@.len() > 0
    }

    /// The cursor is well formed, every open context stands at a position
    /// below the number of witnesses, and the witnesses replay to exactly
    /// the open contexts.
    closed spec fn trace_kept(&self) -> bool {
        &&& self.parser.wf()
        &&& forall|k: int| 0 <= k < self.frames@.len() ==> (#[trigger] self.frames@[k]).position < self.events@.len()
        &&& trace_stack(self.events@) == Some(open_stack(self.frames@))
    }

    /// A consistent walk has its cursor within its source.
    pub proof fn lemma_cursor(&self)
        requires
            self.wf(),
        ensures
            0 <= self@.at <= self@.text.len(),
    {
        self.parser.lemma_cursor();
    }

    fn new(source: &'source str) -> (r: Self)
        ensures
            r.wf(),
            r@ == DecodeState::start(source@),
    {
        let document = WalkFrame::new(ContextName::Document, None);
        let r = DecodeWalk {
            parser: Parser::new(source),
            frames: vec![document],
            events: vec![WalkEvent::Enter { context: ContextName::Document, position: 0 }],
        };
        assert(r@.frames =~= DecodeState::start(source@).frames);
        assert(r@.events =~= DecodeState::start(source@).events);
        assert(r.events@.drop_last() =~= Seq::<WalkEvent>::empty());
        assert(trace_stack(r.events@.drop_last()) == Some(Seq::<(ContextName, int)>::empty()));
        assert(Seq::<(ContextName, int)>::empty().push((ContextName::Document, 0int)) =~= seq![
            (ContextName::Document, 0int),
        ]);
        assert(open_stack(r.frames@) =~= seq![(ContextName::Document, 0int)]);
        assert(trace_stack(r.events@) == Some(seq![(ContextName::Document, 0int)]));
        r
    }

    fn push(&mut self, context: ContextName, terminator: Option<ProtosShape>)
        requires
            old(self).wf(),
        ensures
            final(self).wf(),
            final(self)@ == old(self)@.entered(context, terminator),
    {
        self.frames.push(WalkFrame::new(context, terminator));
        self.events.push(WalkEvent::Enter { context, position: 0 });
        assert forall|k: int| 0 <= k < self.frames@.len() implies (#[trigger] self.frames@[k]).position
            < self.events@.len() by {
            if k < self.frames@.len() - 1 {
                assert(self.frames@[k] == old(self).frames@[k]);
            }
        }
        assert(self.events@.drop_last() =~= old(self).events@);
        assert(open_stack(self.frames@) =~= open_stack(old(self).frames@).push((context, 0int)));
    }

    fn pop(&mut self)
        requires
            old(self).wf(),
        ensures
            final(self).trace_kept(),
            old(self)@.frames.len() > 1 ==> final(self).wf(),
            final(self)@ == old(self)@.closed(),
    {
        if self.frames.len() > 0 {
            let frame = self.frames.pop().unwrap();
            self.events.push(WalkEvent::Exit { context: frame.context, position: frame.position });
            assert forall|k: int| 0 <= k < self.frames@.len() implies (
            #[trigger] self.frames@[k]).position < self.events@.len() by {
                assert(self.frames@[k] == old(self).frames@[k]);
            }
            assert(self.events@.drop_last() =~= old(self).events@);
            assert(open_stack(old(self).frames@).last() == (frame.context, frame.position as int));
            assert(open_stack(self.frames@) =~= open_stack(old(self).frames@).drop_last());
        }
    }

    fn advance_current(&mut self)
        requires
            old(self).wf(),
        ensures
            final(self).wf(),
            final(self)@ == old(self)@.advanced(),
    {
        let n = self.frames.len();
        if n > 0 {
            let _count = self.events.len();
            let mut frame = self.frames[n - 1];
            assert(frame.position < self.events@.len());
            frame.position = frame.position + 1;
            self.frames.set(n - 1, frame);
            self.events.push(WalkEvent::Resume { context: frame.context, position: frame.position });
            assert forall|k: int| 0 <= k < self.frames@.len() implies (
            #[trigger] self.frames@[k]).position < self.events@.len() by {
                if k < n - 1 {
                    assert(self.frames@[k] == old(self).frames@[k]);
                }
            }
            assert(self.events@.drop_last() =~= old(self).events@);
            assert(open_stack(old(self).frames@).last() == (frame.context, frame.position - 1));
            assert(open_stack(self.frames@) =~= open_stack(old(self).frames@).update(
                n - 1,
                (frame.context, frame.position as int),
            ));
        }
    }

    /// The terminator of the innermost open context.
    pub(crate) fn top_terminator(&self) -> (r: Option<ProtosShape>)
        ensures
            r == self@.top_terminator(),
    {
        let n = self.frames.len();
        if n > 0 {
            self.frames[n - 1].terminator
        } else {
            None
        }
    }

    /// Whether the innermost open context is a map key.
    fn in_dotted_key(&self) -> (r: bool)
        ensures
            r == (self@.scalar_terminator() == Some(ProtosShape::DotApplied)),
    {
        let n = self.frames.len();
        n > 0 && match self.frames[n - 1].context {
            ContextName::DottedKey => true,
            _ => false,
        }
    }

    /// Consume the terminator of a context whose interior produced `ir`.
    fn conclude<T>(&mut self, terminator: Option<ProtosShape>, ir: Result<T, DatomError>) -> (r: Result<T, DatomError>)
        requires
            old(self).wf(),
        ensures
            final(self).wf(),
            concluded(old(self)@, terminator, ir, r, final(self)@.closed()),
            final(self)@.frames == old(self)@.frames,
            final(self)@.events == old(self)@.events,
            final(self)@.text == old(self)@.text,
            old(self)@.at <= final(self)@.at,
    {
        proof {
            self.lemma_cursor();
            if let Some(t) = terminator {
                lemma_terminator_advances(self@.text, self@.at, t);
            }
        }
        match ir {
            Ok(value) => match terminator {
                Some(t) => match self.parser.consume_terminator(t) {
                    Ok(()) => Ok(value),
                    Err(e) => Err(e),
                },
                None => Ok(value),
            },
            Err(e) => Err(e),
        }
    }

    fn with_context<T>(
        &mut self,
        context: ContextName,
        terminator: Option<ProtosShape>,
        interior: impl FnOnce(&mut Self) -> Result<T, DatomError>,
    ) -> (r: Result<T, DatomError>)
        requires
            old(self).wf(),
            forall|w: &mut DecodeWalk<'source>| w.wf() ==> call_requires(interior, (w,)),
            forall|w: &mut DecodeWalk<'source>, r: Result<T, DatomError>|
                call_ensures(interior, (w,), r) ==> final(w).wf() && final(w)@.resumes(w@),
        ensures
            final(self).wf(),
            exists|w: &mut Self, ir: Result<T, DatomError>|
                #![trigger call_ensures(interior, (w,), ir)]
                call_ensures(interior, (w,), ir) && w@ == old(self)@.entered(context, terminator)
                    && final(w)@.resumes(w@) && concluded(final(w)@, terminator, ir, r, final(self)@),
            final(self)@.resumes(old(self)@),
            final(self)@.frames == old(self)@.frames,
    {
        self.push(context, terminator);
        let ghost entered = self@;
        assert(call_requires(interior, (self,)));
        let ir = interior(self);
        let ghost inner = self@;
        let result = self.conclude(terminator, ir);
        self.pop();
        proof {
            lemma_nested_resumes(old(self)@, inner, context, terminator, self@);
        }
        result
    }

    /// Read one value and then resume the parent at its following position.
    pub fn value<T: DatomDecode>(&mut self) -> (r: Result<T, DatomError>)
        requires
            old(self).wf(),
        ensures
            final(self).wf(),
            exists|mid: DecodeState|
                #![trigger T::reads(old(self)@, mid, outcome(r))]
                T::reads(old(self)@, mid, outcome(r)) && mid.resumes(old(self)@) && final(self)@ == (
                if r is Ok {
                    mid.advanced()
                } else {
                    mid
                }),
            r is Ok ==> old(self)@.at < final(self)@.at,
    {
        let decoded = T::decode(self);
        let ghost mid = self@;
        match decoded {
            Ok(value) => {
                self.advance_current();
                let r: Result<T, DatomError> = Ok(value);
                assert(T::reads(old(self)@, mid, outcome(r)));
                r
            },
            Err(e) => {
                let r: Result<T, DatomError> = Err(e);
                assert(T::reads(old(self)@, mid, outcome(r)));
                r
            },
        }
    }

    /// Inspect only the shape currently meaningful to this context.
    pub fn probe(&mut self) -> (r: Result<ShapeProbe<'source>, DatomError>)
        requires
            old(self).wf(),
        ensures
            final(self).wf(),
            final(self)@ == old(self)@.moved(skip_trivia(old(self)@.text, old(self)@.at)),
            final(self)@.resumes(old(self)@),
            probe_outcome(r) == probe_at(old(self)@.text, old(self)@.at),
    {
        proof {
            self.lemma_cursor();
            lemma_skip_trivia_bounds(self@.text, self@.at);
            lemma_moved_resumes(self@, skip_trivia(self@.text, self@.at));
        }
        self.parser.probe()
    }

    /// Read a context-local bare symbol.  A dot terminates it only when the
    /// current scalar context has inherited the map-key end; there too a
    /// parenthesis, the reserved shape of Meaning, is refused.
    pub fn bare(&mut self) -> (r: Result<&'source str, DatomError>)
        requires
            old(self).wf(),
        ensures
            final(self).wf(),
            final(self)@ == old(self)@.moved(final(self)@.at),
            old(self)@.at <= final(self)@.at,
            final(self)@.resumes(old(self)@),
            r is Ok ==> old(self)@.at < final(self)@.at,
            match bare_at(old(self)@) {
                Ok((j, e)) => r matches Ok(t) && t@ == old(self)@.text.subrange(j, e)
                    && final(self)@.at == e,
                Err(f) => r matches Err(x) && x@ == f,
            },
    {
        let dot_terminates = match self.top_terminator() {
            Some(ProtosShape::DotApplied) => true,
            _ => false,
        };
        proof {
            self.lemma_cursor();
            lemma_skip_trivia_bounds(self@.text, self@.at);
        }
        let ghost st0 = self@;
        if dot_terminates {
            let opens = self.parser.at_parenthesis();
            proof {
                lemma_moved_resumes(st0, self@.at);
            }
            if opens {
                return Err(DatomError::ShapeNotYetRuled { shape: ProtosShape::ParenthesisDelimited });
            }
        } else {
            let probed = self.parser.probe();
            proof {
                lemma_moved_resumes(st0, self@.at);
            }
            let probe = probed?;
            if probe.shape() == ProtosShape::ParenthesisDelimited || probe.shape()
                == ProtosShape::DotParenthesized {
                return Err(DatomError::ShapeNotYetRuled { shape: ProtosShape::ParenthesisDelimited });
            }
        }
        let r = self.parser.take_bare(dot_terminates);
        proof {
            lemma_moved_resumes(st0, self@.at);
        }
        r
    }

    /// Enter a scalar type context with no structural terminator of its own;
    /// inside a map key it inherits the key's dot.
    pub fn scalar<T>(
        &mut self,
        name: &'static str,
        interior: impl FnOnce(&mut Self) -> Result<T, DatomError>,
    ) -> (r: Result<T, DatomError>)
        requires
            old(self).wf(),
            forall|w: &mut DecodeWalk<'source>| w.wf() ==> call_requires(interior, (w,)),
            forall|w: &mut DecodeWalk<'source>, r: Result<T, DatomError>|
                call_ensures(interior, (w,), r) ==> final(w).wf() && final(w)@.resumes(w@),
        ensures
            final(self).wf(),
            exists|w: &mut Self, ir: Result<T, DatomError>|
                #![trigger call_ensures(interior, (w,), ir)]
                call_ensures(interior, (w,), ir) && w@ == old(self)@.entered(
                    ContextName::Value(name),
                    old(self)@.scalar_terminator(),
                ) && final(w)@.resumes(w@) && concluded(
                    final(w)@,
                    old(self)@.scalar_terminator(),
                    ir,
                    r,
                    final(self)@,
                ),
            final(self)@.resumes(old(self)@),
            final(self)@.frames == old(self)@.frames,
    {
        let terminator = if self.in_dotted_key() {
            Some(ProtosShape::DotApplied)
        } else {
            None
        };
        self.with_context(ContextName::Value(name), terminator, interior)
    }

    /// Enter the curly legacy-string context.  Its only terminator is `”`;
    /// braces, brackets and curly openers are text or nested text within it.
    pub fn legacy_string(&mut self) -> (r: Result<String, DatomError>)
        requires
            old(self).wf(),
        ensures
            final(self).wf(),
            final(self)@.resumes(old(self)@),
            final(self)@.frames == old(self)@.frames,
            r is Ok ==> old(self)@.at < final(self)@.at,
            match legacy_read(old(self)@.text, old(self)@.at) {
                Ok((v, k)) => r matches Ok(t) && t@ == v && final(self)@ == old(self)@.entered(
                    ContextName::LegacyString,
                    Some(ProtosShape::CurlyQuoteDelimited),
                ).moved(k).closed(),
                Err(f) => refused(
                    old(self)@.entered(
                        ContextName::LegacyString,
                        Some(ProtosShape::CurlyQuoteDelimited),
                    ),
                    f,
                    r,
                    final(self)@,
                ),
            },
    {
        self.push(ContextName::LegacyString, Some(ProtosShape::CurlyQuoteDelimited));
        let ghost entered = self@;
        let ir = self.parser.take_legacy_string();
        let ghost inner = self@;
        proof {
            lemma_moved_resumes(entered, inner.at);
            self.lemma_cursor();
            lemma_terminator_advances(inner.text, inner.at, ProtosShape::CurlyQuoteDelimited);
        }
        let result = self.conclude(Some(ProtosShape::CurlyQuoteDelimited), ir);
        self.pop();
        proof {
            lemma_nested_resumes(
                old(self)@,
                inner,
                ContextName::LegacyString,
                Some(ProtosShape::CurlyQuoteDelimited),
                self@,
            );
        }
        result
    }

    /// Enter one brace record context `name.{…}`.
    pub fn record<T>(
        &mut self,
        name: &'static str,
        interior: impl FnOnce(&mut Self) -> Result<T, DatomError>,
    ) -> (r: Result<T, DatomError>)
        requires
            old(self).wf(),
            forall|w: &mut DecodeWalk<'source>| w.wf() ==> call_requires(interior, (w,)),
            forall|w: &mut DecodeWalk<'source>, r: Result<T, DatomError>|
                call_ensures(interior, (w,), r) ==> final(w).wf() && final(w)@.resumes(w@),
        ensures
            final(self).wf(),
            final(self)@.resumes(old(self)@),
            final(self)@.frames == old(self)@.frames,
            match named_shape_at(old(self)@.text, old(self)@.at, name@, ProtosShape::DotBraced) {
                Err(f) => refused(
                    old(self)@.entered(ContextName::Record(name), Some(ProtosShape::BraceDelimited)),
                    f,
                    r,
                    final(self)@,
                ),
                Ok(k) => exists|w: &mut Self, ir: Result<T, DatomError>|
                    #![trigger call_ensures(interior, (w,), ir)]
                    call_ensures(interior, (w,), ir) && w@ == old(self)@.entered(
                        ContextName::Record(name),
                        Some(ProtosShape::BraceDelimited),
                    ).moved(k) && final(w)@.resumes(w@) && concluded(
                        final(w)@,
                        Some(ProtosShape::BraceDelimited),
                        ir,
                        r,
                        final(self)@,
                    ),
            },
    {
        self.push(ContextName::Record(name), Some(ProtosShape::BraceDelimited));
        let ghost entered = self@;
        let opened = self.parser.consume_named_shape(name, ProtosShape::DotBraced);
        let ghost moved = self@;
        proof {
            lemma_moved_resumes(entered, moved.at);
        }
        let result = match opened {
            Err(e) => Err(e),
            Ok(()) => {
                assert(self.wf());
                assert(call_requires(interior, (self,)));
                let ir = interior(self);
                let ghost inner = self@;
                proof {
                    broadcast use lemma_resumes_trans;

                    assert(inner.resumes(entered));
                }
                let concluded = self.conclude(Some(ProtosShape::BraceDelimited), ir);
                proof {
                    lemma_nested_resumes(old(self)@, inner, ContextName::Record(name), Some(ProtosShape::BraceDelimited), self@.closed());
                }
                concluded
            },
        };
        proof {
            if opened is Err {
                lemma_nested_resumes(old(self)@, moved, ContextName::Record(name), Some(ProtosShape::BraceDelimited), self@.closed());
            }
        }
        self.pop();
        result
    }

    /// Enter one square-bracket vector context `[…]`.
    pub fn vector<T>(&mut self, interior: impl FnOnce(&mut Self) -> Result<T, DatomError>) -> (r:
        Result<T, DatomError>)
        requires
            old(self).wf(),
            forall|w: &mut DecodeWalk<'source>| w.wf() ==> call_requires(interior, (w,)),
            forall|w: &mut DecodeWalk<'source>, r: Result<T, DatomError>|
                call_ensures(interior, (w,), r) ==> final(w).wf() && final(w)@.resumes(w@),
        ensures
            final(self).wf(),
            final(self)@.resumes(old(self)@),
            final(self)@.frames == old(self)@.frames,
            match opener_at(old(self)@.text, old(self)@.at, ProtosShape::SquareBracketDelimited) {
                Err(f) => refused(
                    old(self)@.entered(
                        ContextName::Vector,
                        Some(ProtosShape::SquareBracketDelimited),
                    ),
                    f,
                    r,
                    final(self)@,
                ),
                Ok(k) => exists|w: &mut Self, ir: Result<T, DatomError>|
                    #![trigger call_ensures(interior, (w,), ir)]
                    call_ensures(interior, (w,), ir) && w@ == old(self)@.entered(
                        ContextName::Vector,
                        Some(ProtosShape::SquareBracketDelimited),
                    ).moved(k) && final(w)@.resumes(w@) && concluded(
                        final(w)@,
                        Some(ProtosShape::SquareBracketDelimited),
                        ir,
                        r,
                        final(self)@,
                    ),
            },
    {
        self.push(ContextName::Vector, Some(ProtosShape::SquareBracketDelimited));
        let ghost entered = self@;
        let opened = self.parser.consume_opener(ProtosShape::SquareBracketDelimited);
        let ghost moved = self@;
        proof {
            lemma_moved_resumes(entered, moved.at);
        }
        let result = match opened {
            Err(e) => Err(e),
            Ok(()) => {
                assert(self.wf());
                assert(call_requires(interior, (self,)));
                let ir = interior(self);
                let ghost inner = self@;
                proof {
                    broadcast use lemma_resumes_trans;

                    assert(inner.resumes(entered));
                }
                let concluded = self.conclude(Some(ProtosShape::SquareBracketDelimited), ir);
                proof {
                    lemma_nested_resumes(old(self)@, inner, ContextName::Vector, Some(ProtosShape::SquareBracketDelimited), self@.closed());
                }
                concluded
            },
        };
        proof {
            if opened is Err {
                lemma_nested_resumes(old(self)@, moved, ContextName::Vector, Some(ProtosShape::SquareBracketDelimited), self@.closed());
            }
        }
        self.pop();
        result
    }

    /// Enter a shape-headed vector such as `Tags.[…]`: a local type context,
    /// not a second parser.
    pub fn named_vector<T>(
        &mut self,
        name: &'static str,
        interior: impl FnOnce(&mut Self) -> Result<T, DatomError>,
    ) -> (r: Result<T, DatomError>)
        requires
            old(self).wf(),
            forall|w: &mut DecodeWalk<'source>| w.wf() ==> call_requires(interior, (w,)),
            forall|w: &mut DecodeWalk<'source>, r: Result<T, DatomError>|
                call_ensures(interior, (w,), r) ==> final(w).wf() && final(w)@.resumes(w@),
        ensures
            final(self).wf(),
            final(self)@.resumes(old(self)@),
            final(self)@.frames == old(self)@.frames,
            match named_shape_at(old(self)@.text, old(self)@.at, name@, ProtosShape::DotBracketed) {
                Err(f) => refused(
                    old(self)@.entered(
                        ContextName::Vector,
                        Some(ProtosShape::SquareBracketDelimited),
                    ),
                    f,
                    r,
                    final(self)@,
                ),
                Ok(k) => exists|w: &mut Self, ir: Result<T, DatomError>|
                    #![trigger call_ensures(interior, (w,), ir)]
                    call_ensures(interior, (w,), ir) && w@ == old(self)@.entered(
                        ContextName::Vector,
                        Some(ProtosShape::SquareBracketDelimited),
                    ).moved(k) && final(w)@.resumes(w@) && concluded(
                        final(w)@,
                        Some(ProtosShape::SquareBracketDelimited),
                        ir,
                        r,
                        final(self)@,
                    ),
            },
    {
        self.push(ContextName::Vector, Some(ProtosShape::SquareBracketDelimited));
        let ghost entered = self@;
        let opened = self.parser.consume_named_shape(name, ProtosShape::DotBracketed);
        let ghost moved = self@;
        proof {
            lemma_moved_resumes(entered, moved.at);
        }
        let result = match opened {
            Err(e) => Err(e),
            Ok(()) => {
                assert(self.wf());
                assert(call_requires(interior, (self,)));
                let ir = interior(self);
                let ghost inner = self@;
                proof {
                    broadcast use lemma_resumes_trans;

                    assert(inner.resumes(entered));
                }
                let concluded = self.conclude(Some(ProtosShape::SquareBracketDelimited), ir);
                proof {
                    lemma_nested_resumes(old(self)@, inner, ContextName::Vector, Some(ProtosShape::SquareBracketDelimited), self@.closed());
                }
                concluded
            },
        };
        proof {
            if opened is Err {
                lemma_nested_resumes(old(self)@, moved, ContextName::Vector, Some(ProtosShape::SquareBracketDelimited), self@.closed());
            }
        }
        self.pop();
        result
    }

    /// Enter the ruled `Map.[…]` context.
    pub fn map<T>(&mut self, interior: impl FnOnce(&mut Self) -> Result<T, DatomError>) -> (r:
        Result<T, DatomError>)
        requires
            old(self).wf(),
            forall|w: &mut DecodeWalk<'source>| w.wf() ==> call_requires(interior, (w,)),
            forall|w: &mut DecodeWalk<'source>, r: Result<T, DatomError>|
                call_ensures(interior, (w,), r) ==> final(w).wf() && final(w)@.resumes(w@),
        ensures
            final(self).wf(),
            final(self)@.resumes(old(self)@),
            final(self)@.frames == old(self)@.frames,
            match named_shape_at(
                old(self)@.text,
                old(self)@.at,
                "Map"@,
                ProtosShape::DotBracketed,
            ) {
                Err(f) => refused(
                    old(self)@.entered(
                        ContextName::Mapping,
                        Some(ProtosShape::SquareBracketDelimited),
                    ),
                    f,
                    r,
                    final(self)@,
                ),
                Ok(k) => exists|w: &mut Self, ir: Result<T, DatomError>|
                    #![trigger call_ensures(interior, (w,), ir)]
                    call_ensures(interior, (w,), ir) && w@ == old(self)@.entered(
                        ContextName::Mapping,
                        Some(ProtosShape::SquareBracketDelimited),
                    ).moved(k) && final(w)@.resumes(w@) && concluded(
                        final(w)@,
                        Some(ProtosShape::SquareBracketDelimited),
                        ir,
                        r,
                        final(self)@,
                    ),
            },
    {
        self.push(ContextName::Mapping, Some(ProtosShape::SquareBracketDelimited));
        let ghost entered = self@;
        let opened = self.parser.consume_named_shape("Map", ProtosShape::DotBracketed);
        let ghost moved = self@;
        proof {
            lemma_moved_resumes(entered, moved.at);
        }
        let result = match opened {
            Err(e) => Err(e),
            Ok(()) => {
                assert(self.wf());
                assert(call_requires(interior, (self,)));
                let ir = interior(self);
                let ghost inner = self@;
                proof {
                    broadcast use lemma_resumes_trans;

                    assert(inner.resumes(entered));
                }
                let concluded = self.conclude(Some(ProtosShape::SquareBracketDelimited), ir);
                proof {
                    lemma_nested_resumes(old(self)@, inner, ContextName::Mapping, Some(ProtosShape::SquareBracketDelimited), self@.closed());
                }
                concluded
            },
        };
        proof {
            if opened is Err {
                lemma_nested_resumes(old(self)@, moved, ContextName::Mapping, Some(ProtosShape::SquareBracketDelimited), self@.closed());
            }
        }
        self.pop();
        result
    }

    /// Read the key half of one ruled `key.value` map entry: the child scalar
    /// context inherits the dot as its terminator, and the key frame is left
    /// before the value reads.
    pub fn dotted_key<T>(&mut self, interior: impl FnOnce(&mut Self) -> Result<T, DatomError>) -> (r:
        Result<T, DatomError>)
        requires
            old(self).wf(),
            forall|w: &mut DecodeWalk<'source>| w.wf() ==> call_requires(interior, (w,)),
            forall|w: &mut DecodeWalk<'source>, r: Result<T, DatomError>|
                call_ensures(interior, (w,), r) ==> final(w).wf() && final(w)@.resumes(w@),
        ensures
            final(self).wf(),
            exists|w: &mut Self, ir: Result<T, DatomError>|
                #![trigger call_ensures(interior, (w,), ir)]
                call_ensures(interior, (w,), ir) && w@ == old(self)@.entered(
                    ContextName::DottedKey,
                    None,
                ) && final(w)@.resumes(w@) && concluded(final(w)@, None, ir, r, final(self)@),
            final(self)@.resumes(old(self)@),
            final(self)@.frames == old(self)@.frames,
    {
        self.with_context(ContextName::DottedKey, None, interior)
    }

    /// Enter one single-payload variant after its glued `head.`.
    pub fn variant<T>(
        &mut self,
        head: &'static str,
        interior: impl FnOnce(&mut Self) -> Result<T, DatomError>,
    ) -> (r: Result<T, DatomError>)
        requires
            old(self).wf(),
            forall|w: &mut DecodeWalk<'source>| w.wf() ==> call_requires(interior, (w,)),
            forall|w: &mut DecodeWalk<'source>, r: Result<T, DatomError>|
                call_ensures(interior, (w,), r) ==> final(w).wf() && final(w)@.resumes(w@),
        ensures
            final(self).wf(),
            final(self)@.resumes(old(self)@),
            final(self)@.frames == old(self)@.frames,
            match head_dot_at(old(self)@.text, old(self)@.at, head@) {
                Err(f) => refused(
                    old(self)@.entered(ContextName::Variant(head), None),
                    f,
                    r,
                    final(self)@,
                ),
                Ok(k) => exists|w: &mut Self, ir: Result<T, DatomError>|
                    #![trigger call_ensures(interior, (w,), ir)]
                    call_ensures(interior, (w,), ir) && w@ == old(self)@.entered(
                        ContextName::Variant(head),
                        None,
                    ).moved(k) && final(w)@.resumes(w@) && concluded(
                        final(w)@,
                        None,
                        ir,
                        r,
                        final(self)@,
                    ),
            },
    {
        self.push(ContextName::Variant(head), None);
        let ghost entered = self@;
        let opened = self.parser.consume_head_dot(head);
        let ghost moved = self@;
        proof {
            lemma_moved_resumes(entered, moved.at);
        }
        let result = match opened {
            Err(e) => Err(e),
            Ok(()) => {
                assert(self.wf());
                assert(call_requires(interior, (self,)));
                let ir = interior(self);
                let ghost inner = self@;
                proof {
                    broadcast use lemma_resumes_trans;

                    assert(inner.resumes(entered));
                }
                let concluded = self.conclude(None, ir);
                proof {
                    lemma_nested_resumes(old(self)@, inner, ContextName::Variant(head), None, self@.closed());
                }
                concluded
            },
        };
        proof {
            if opened is Err {
                lemma_nested_resumes(old(self)@, moved, ContextName::Variant(head), None, self@.closed());
            }
        }
        self.pop();
        result
    }

    /// Whether the active context is immediately followed by its terminator.
    pub fn at_terminator(&mut self, terminator: ProtosShape) -> (r: bool)
        requires
            old(self).wf(),
        ensures
            final(self).wf(),
            final(self)@ == old(self)@.moved(skip_trivia(old(self)@.text, old(self)@.at)),
            final(self)@.resumes(old(self)@),
            r == at_terminator_at(old(self)@.text, old(self)@.at, terminator),
    {
        proof {
            self.lemma_cursor();
            lemma_skip_trivia_bounds(self@.text, self@.at);
            lemma_moved_resumes(self@, skip_trivia(self@.text, self@.at));
        }
        self.parser.at_terminator(terminator)
    }

    /// End the document: only trivia may remain, and the document is left.
    fn finish(&mut self) -> (r: Result<(), DatomError>)
        requires
            old(self).wf(),
        ensures
            final(self).trace_kept(),
            r is Err ==> final(self).wf(),
            outcome(r) == finish_at(old(self)@.text, old(self)@.at),
            final(self)@ == (if r is Ok {
                old(self)@.moved(skip_trivia(old(self)@.text, old(self)@.at)).closed()
            } else {
                old(self)@.moved(skip_trivia(old(self)@.text, old(self)@.at))
            }),
    {
        self.parser.finish()?;
        self.pop();
        Ok(())
    }

    fn into_events(self) -> (r: Vec<WalkEvent>)
        ensures
            r@ == self@.events,
    {
        self.events
    }
}

/// Reading a bare symbol in state `st`: where it begins and ends.
pub open spec fn bare_at(st: DecodeState) -> Result<(int, int), DatomFault> {
    if st.top_terminator() == Some(ProtosShape::DotApplied) {
        let j = skip_trivia(st.text, st.at);
        if 0 <= j < st.text.len() && st.text[j] == '(' {
            Err(DatomFault::ShapeNotYetRuled { shape: ProtosShape::ParenthesisDelimited })
        } else {
            take_bare_at(st.text, j, true)
        }
    } else {
        match probe_at(st.text, st.at) {
            Err(f) => Err(f),
            Ok((shape, _)) => if shape_is_parenthesized(shape) {
                Err(DatomFault::ShapeNotYetRuled { shape: ProtosShape::ParenthesisDelimited })
            } else {
                take_bare_at(st.text, skip_trivia(st.text, st.at), false)
            },
        }
    }
}

/// Reading the legacy string after `i` up to and including its closing
/// quote: its stripped text and the index after it.
pub open spec fn legacy_read(s: Seq<char>, i: int) -> Result<(Seq<char>, int), DatomFault> {
    match legacy_at(s, i) {
        Err(f) => Err(f),
        Ok((raw, k)) => match literal_at(s, k, '”') {
            Ok(k2) => Ok((strip_indentation(raw), k2)),
            Err(f) => Err(f),
        },
    }
}

/// A direct source-bound typed decoder.
pub struct DatomSource<'source> {
    text: &'source str,
}

impl<'source> View for DatomSource<'source> {
    type V = Seq<char>;

    closed spec fn view(&self) -> Seq<char> {
        self.text@
    }
}

/// What reading one `T` from the whole of `text` ends in: `T`'s own reading
/// from the start of the document, then only trivia.
pub open spec fn document_read<T: DatomDecode>(
    text: Seq<char>,
    mid: DecodeState,
    res: Result<T, DatomFault>,
) -> bool {
    T::reads(DecodeState::start(text), mid, res) && mid.resumes(DecodeState::start(text))
}

impl<'source> DatomSource<'source> {
    /// Bind a Datom source without parsing it into a generic document.
    pub fn new(text: &'source str) -> (r: Self)
        ensures
            r@ == text@,
    {
        DatomSource { text }
    }

    /// Decode one expected type directly from the source and retain the
    /// driver's context-stack witness.
    pub fn decode_with_trace<T: DatomDecode>(&self) -> (r: Result<(T, Vec<WalkEvent>), DatomError>)
        ensures
            r is Ok ==> nested_trace(r->Ok_0.1@),
            r is Ok ==> exists|mid: DecodeState|
                #![trigger document_read(self@, mid, Ok::<T, DatomFault>(r->Ok_0.0))]
                document_read(self@, mid, Ok::<T, DatomFault>(r->Ok_0.0)) && finish_at(
                    mid.text,
                    mid.at,
                ) is Ok && r->Ok_0.1@ == mid.advanced().moved(
                    skip_trivia(mid.text, mid.at),
                ).closed().events,
            r matches Err(e) ==> exists|mid: DecodeState, res: Result<T, DatomFault>|
                #![trigger document_read(self@, mid, res)]
                document_read(self@, mid, res) && match res {
                    Err(f) => f == e@,
                    Ok(_) => finish_at(mid.text, mid.at) == Err::<(), DatomFault>(e@),
                },
    {
        let mut walk = DecodeWalk::new(self.text);
        let ghost start = walk@;
        let value = walk.value::<T>();
        let ghost after_value = walk@;
        let ghost mid = choose|mid: DecodeState|
            #![trigger T::reads(start, mid, outcome(value))]
            T::reads(start, mid, outcome(value)) && mid.resumes(start) && after_value == (if value is Ok {
                mid.advanced()
            } else {
                mid
            });
        assert(document_read(self@, mid, outcome(value)));
        match value {
            Err(e) => Err(e),
            Ok(value) => {
                assert(document_read(self@, mid, Ok::<T, DatomFault>(value)));
                match walk.finish() {
                    Err(e) => Err(e),
                    Ok(()) => {
                        assert(walk@.frames.len() == 0);
                        assert(open_stack(walk@.frames) =~= Seq::<(ContextName, int)>::empty());
                        assert(walk@.events.len() > 0);
                        let events = walk.into_events();
                        assert(document_read(self@, mid, Ok::<T, DatomFault>(value)) && finish_at(mid.text, mid.at) is Ok && events@ == mid.advanced().moved(skip_trivia(mid.text, mid.at)).closed().events);
                        let r: Result<(T, Vec<WalkEvent>), DatomError> = Ok((value, events));
                        assert(r->Ok_0.0 == value);
                        assert(r->Ok_0.1 == events);
                        assert(document_read(self@, mid, Ok::<T, DatomFault>(r->Ok_0.0)));
                        r
                    },
                }
            },
        }
    }

    /// Decode one expected type directly from the source.
    pub fn decode<T: DatomDecode>(&self) -> (r: Result<T, DatomError>)
        ensures
            r is Ok ==> exists|mid: DecodeState|
                #![trigger document_read(self@, mid, Ok::<T, DatomFault>(r->Ok_0))]
                document_read(self@, mid, Ok::<T, DatomFault>(r->Ok_0)) && finish_at(
                    mid.text,
                    mid.at,
                ) is Ok,
            r matches Err(e) ==> exists|mid: DecodeState, res: Result<T, DatomFault>|
                #![trigger document_read(self@, mid, res)]
                document_read(self@, mid, res) && match res {
                    Err(f) => f == e@,
                    Ok(_) => finish_at(mid.text, mid.at) == Err::<(), DatomFault>(e@),
                },
    {
        let r = self.decode_with_trace();
        match r {
            Ok((value, _)) => {
                let out: Result<T, DatomError> = Ok(value);
                assert(out->Ok_0 == r->Ok_0.0);
                out
            },
            Err(e) => Err(e),
        }
    }
}

/// The state of a writing walk: the text written, the open contexts and the
/// witnesses emitted so far.
pub ghost struct EncodeState {
    pub output: Seq<char>,
    pub frames: Seq<WalkFrame>,
    pub events: Seq<WalkEvent>,
}

/// The text that closes a context of `terminator`.
pub open spec fn terminator_text(terminator: Option<ProtosShape>) -> Seq<char> {
    match terminator {
        Some(ProtosShape::CurlyQuoteDelimited) => seq!['”'],
        Some(ProtosShape::SquareBracketDelimited) => seq![']'],
        Some(ProtosShape::BraceDelimited) => seq!['}'],
        Some(ProtosShape::DotApplied) => seq!['.'],
        Some(ProtosShape::ParenthesisDelimited) => seq![')'],
        _ => Seq::empty(),
    }
}

impl EncodeState {
    /// The walk at the start of writing a document.
    pub open spec fn start() -> EncodeState {
        EncodeState {
            output: Seq::empty(),
            frames: seq![opened_frame(ContextName::Document, None)],
            events: seq![WalkEvent::Enter { context: ContextName::Document, position: 0 }],
        }
    }

    /// This state with a new innermost context opened.
    pub open spec fn entered(self, context: ContextName, terminator: Option<ProtosShape>) -> EncodeState {
        EncodeState {
            frames: self.frames.push(opened_frame(context, terminator)),
            events: self.events.push(WalkEvent::Enter { context, position: 0 }),
            ..self
        }
    }

    /// This state with its innermost context left.
    pub open spec fn closed(self) -> EncodeState {
        if self.frames.len() > 0 {
            EncodeState {
                frames: self.frames.drop_last(),
                events: self.events.push(exit_event(self.frames)),
                ..self
            }
        } else {
            self
        }
    }

    /// This state with its innermost context resumed at its following position.
    pub open spec fn advanced(self) -> EncodeState {
        if self.frames.len() > 0 {
            EncodeState {
                frames: frames_advanced(self.frames),
                events: self.events.push(resume_event(self.frames)),
                ..self
            }
        } else {
            self
        }
    }

    /// This state with `t` written.
    pub open spec fn wrote(self, t: Seq<char>) -> EncodeState {
        EncodeState { output: self.output + t, ..self }
    }

    /// This state with the separator written that precedes a value which
    /// is not the first of its context.
    pub open spec fn separated(self) -> EncodeState {
        if self.frames.len() > 0 && self.frames.last().position > 0 {
            self.wrote(seq![' '])
        } else {
            self
        }
    }

    /// This state follows `before` in one walk: what was written stays
    /// written, the open contexts are kept but for the position of the
    /// innermost, and the earlier witnesses are kept.
    pub open spec fn resumes(self, before: EncodeState) -> bool {
        &&& before.output.len() <= self.output.len()
        &&& self.output.subrange(0, before.output.len() as int) == before.output
        &&& frames_resume(self.frames, before.frames)
        &&& extends(self.events, before.events)
    }
}

/// How a writing context ends after its interior produced `ir`: its
/// terminator is written when the interior succeeded, and it is left.
pub open spec fn wrote_out(
    inner: EncodeState,
    terminator: Option<ProtosShape>,
    ir: Result<(), DatomError>,
    r: Result<(), DatomError>,
    after: EncodeState,
) -> bool {
    r == ir && after == (if ir is Ok {
        inner.wrote(terminator_text(terminator))
    } else {
        inner
    }).closed()
}

/// Writing the entry `key.value` into the walk in state `before` left it in
/// `after` with `result`: the key in its own dotted-key context after the
/// separator, then, if the key was written, the dot and the value.
pub open spec fn entry_written<K: DatomEncode, V: DatomEncode>(
    key: K,
    value: V,
    before: EncodeState,
    after: EncodeState,
    result: Result<(), DatomFault>,
) -> bool {
    let e = before.separated().entered(ContextName::DottedKey, None);
    exists|ka: EncodeState, kr: Result<(), DatomFault>|
        #![trigger key.writes(e, ka, kr)]
        key.writes(e, ka, kr) && ka.resumes(e) && match kr {
            Err(f) => result == Err::<(), DatomFault>(f) && after == ka.closed(),
            Ok(_) => exists|va: EncodeState, vr: Result<(), DatomFault>|
                #![trigger value.writes(ka.wrote("."@), va, vr)]
                value.writes(ka.wrote("."@), va, vr) && va.resumes(ka.wrote("."@)) && result == vr
                    && after == (if vr is Ok {
                    va.closed().advanced()
                } else {
                    va.closed()
                }),
        }
}

/// A type writes its own context into a writing walk.
pub trait DatomEncode {
    /// Writing this value into the walk in state `before` can leave it in
    /// `after` with `result`.  A type that states nothing of its writing
    /// promises no more than a consistent walk.
    open spec fn writes(&self, before: EncodeState, after: EncodeState, result: Result<(), DatomFault>) -> bool {
        true
    }

    /// Project this type's own context into the active structural walk.
    fn encode(&self, walk: &mut EncodeWalk) -> (r: Result<(), DatomError>)
        requires
            old(walk).wf(),
        ensures
            final(walk).wf(),
            final(walk)@.resumes(old(walk)@),
            self.writes(old(walk)@, final(walk)@, outcome(r)),
    ;
}

/// The writing half of the one shared structural walk driver.
pub struct EncodeWalk {
    output: String,
    frames: Vec<WalkFrame>,
    events: Vec<WalkEvent>,
}

impl View for EncodeWalk {
    type V = EncodeState;

    closed spec fn view(&self) -> EncodeState {
        EncodeState { output: self.output@, frames: self.frames@, events: self.events@ }
    }
}

impl EncodeWalk {
    /// The walk is consistent: every open context at a position below the
    /// number of witnesses.
    pub closed spec fn wf(&self) -> bool {
        forall|k: int| 0 <= k < self.frames@.len() ==> (#[trigger] self.frames@[k]).position < self.events@.len()
    }

    fn new() -> (r: Self)
        ensures
            r.wf(),
            r@ == EncodeState::start(),
    {
        let document = WalkFrame::new(ContextName::Document, None);
        let r = EncodeWalk {
            output: String::new(),
            frames: vec![document],
            events: vec![WalkEvent::Enter { context: ContextName::Document, position: 0 }],
        };
        assert(r@.frames =~= EncodeState::start().frames);
        assert(r@.events =~= EncodeState::start().events);
        r
    }

    fn push(&mut self, context: ContextName, terminator: Option<ProtosShape>)
        requires
            old(self).wf(),
        ensures
            final(self).wf(),
            final(self)@ == old(self)@.entered(context, terminator),
    {
        self.frames.push(WalkFrame::new(context, terminator));
        self.events.push(WalkEvent::Enter { context, position: 0 });
        assert forall|k: int| 0 <= k < self.frames@.len() implies (#[trigger] self.frames@[k]).position
            < self.events@.len() by {
            if k < self.frames@.len() - 1 {
                assert(self.frames@[k] == old(self).frames@[k]);
            }
        }
    }

    fn pop(&mut self)
        requires
            old(self).wf(),
        ensures
            final(self).wf(),
            final(self)@ == old(self)@.closed(),
    {
        if self.frames.len() > 0 {
            let frame = self.frames.pop().unwrap();
            self.events.push(WalkEvent::Exit { context: frame.context, position: frame.position });
            assert forall|k: int| 0 <= k < self.frames@.len() implies (
            #[trigger] self.frames@[k]).position < self.events@.len() by {
                assert(self.frames@[k] == old(self).frames@[k]);
            }
        }
    }

    fn advance_current(&mut self)
        requires
            old(self).wf(),
        ensures
            final(self).wf(),
            final(self)@ == old(self)@.advanced(),
    {
        let n = self.frames.len();
        if n > 0 {
            let _count = self.events.len();
            let mut frame = self.frames[n - 1];
            assert(frame.position < self.events@.len());
            frame.position = frame.position + 1;
            self.frames.set(n - 1, frame);
            self.events.push(WalkEvent::Resume { context: frame.context, position: frame.position });
            assert forall|k: int| 0 <= k < self.frames@.len() implies (
            #[trigger] self.frames@[k]).position < self.events@.len() by {
                if k < n - 1 {
                    assert(self.frames@[k] == old(self).frames@[k]);
                }
            }
        }
    }

    fn separate_current(&mut self)
        requires
            old(self).wf(),
        ensures
            final(self).wf(),
            final(self)@ == old(self)@.separated(),
    {
        let n = self.frames.len();
        if n > 0 && self.frames[n - 1].position > 0 {
            crate::strings::push_char(&mut self.output, ' ');
            assert(self@.output =~= old(self)@.output + seq![' ']);
        }
    }

    fn write_terminator(&mut self, terminator: ProtosShape)
        requires
            old(self).wf(),
        ensures
            final(self).wf(),
            final(self)@ == old(self)@.wrote(terminator_text(Some(terminator))),
    {
        match terminator {
            ProtosShape::CurlyQuoteDelimited => crate::strings::push_char(&mut self.output, '”'),
            ProtosShape::SquareBracketDelimited => crate::strings::push_char(&mut self.output, ']'),
            ProtosShape::BraceDelimited => crate::strings::push_char(&mut self.output, '}'),
            ProtosShape::DotApplied => crate::strings::push_char(&mut self.output, '.'),
            ProtosShape::ParenthesisDelimited => crate::strings::push_char(&mut self.output, ')'),
            _ => {},
        }
        assert(self@.output =~= old(self)@.wrote(terminator_text(Some(terminator))).output);
    }

    /// Write the terminator of a context whose interior produced `ir`, and leave it.
    fn conclude(&mut self, terminator: Option<ProtosShape>, ir: Result<(), DatomError>) -> (r: Result<
        (),
        DatomError,
    >)
        requires
            old(self).wf(),
        ensures
            final(self).wf(),
            wrote_out(old(self)@, terminator, ir, r, final(self)@),
    {
        if ir.is_ok() {
            match terminator {
                Some(t) => self.write_terminator(t),
                None => {
                    assert(self@.output =~= old(self)@.wrote(terminator_text(terminator)).output);
                },
            }
        }
        self.pop();
        ir
    }

    fn with_context(
        &mut self,
        context: ContextName,
        terminator: Option<ProtosShape>,
        interior: impl FnOnce(&mut Self) -> Result<(), DatomError>,
    ) -> (r: Result<(), DatomError>)
        requires
            old(self).wf(),
            forall|w: &mut EncodeWalk| w.wf() ==> call_requires(interior, (w,)),
            forall|w: &mut EncodeWalk, r: Result<(), DatomError>|
                call_ensures(interior, (w,), r) ==> final(w).wf() && final(w)@.resumes(w@),
        ensures
            final(self).wf(),
            exists|w: &mut Self, ir: Result<(), DatomError>|
                #![trigger call_ensures(interior, (w,), ir)]
                call_ensures(interior, (w,), ir) && w@ == old(self)@.entered(context, terminator)
                    && final(w)@.resumes(w@) && wrote_out(final(w)@, terminator, ir, r, final(self)@),
            final(self)@.resumes(old(self)@),
            final(self)@.frames == old(self)@.frames,
    {
        self.push(context, terminator);
        let ghost entered = self@;
        assert(call_requires(interior, (self,)));
        let ir = interior(self);
        let ghost inner = self@;
        let r = self.conclude(terminator, ir);
        proof {
            assert(entered.wrote(Seq::empty()) =~= entered);
            let suffix = if ir is Ok {
                terminator_text(terminator)
            } else {
                Seq::empty()
            };
            assert(inner.wrote(Seq::empty()) =~= inner);
            lemma_write_context(old(self)@, context, terminator, Seq::empty(), inner, suffix, self@);
        }
        r
    }

    /// Write one value and resume the parent at its following position.
    pub fn value<T: DatomEncode>(&mut self, value: &T) -> (r: Result<(), DatomError>)
        requires
            old(self).wf(),
        ensures
            final(self).wf(),
            exists|mid: EncodeState|
                #![trigger value.writes(old(self)@.separated(), mid, outcome(r))]
                value.writes(old(self)@.separated(), mid, outcome(r)) && mid.resumes(
                    old(self)@.separated(),
                ) && final(self)@ == (if r is Ok {
                    mid.advanced()
                } else {
                    mid
                }),
    {
        self.separate_current();
        let written = value.encode(self);
        let ghost mid = self@;
        match written {
            Ok(()) => {
                self.advance_current();
                let r: Result<(), DatomError> = Ok(());
                assert(value.writes(old(self)@.separated(), mid, outcome(r)));
                r
            },
            Err(e) => {
                let r: Result<(), DatomError> = Err(e);
                assert(value.writes(old(self)@.separated(), mid, outcome(r)));
                r
            },
        }
    }

    /// Write unseparated source owned by the active type context.
    pub fn raw(&mut self, source: &str)
        requires
            old(self).wf(),
        ensures
            final(self).wf(),
            final(self)@ == old(self)@.wrote(source@),
            final(self)@.resumes(old(self)@),
    {
        self.output.append(source);
        proof {
            lemma_wrote_resumes(old(self)@, source@);
        }
    }

    /// Enter a scalar type context with no structural terminator.
    pub fn scalar(
        &mut self,
        name: &'static str,
        interior: impl FnOnce(&mut Self) -> Result<(), DatomError>,
    ) -> (r: Result<(), DatomError>)
        requires
            old(self).wf(),
            forall|w: &mut EncodeWalk| w.wf() ==> call_requires(interior, (w,)),
            forall|w: &mut EncodeWalk, r: Result<(), DatomError>|
                call_ensures(interior, (w,), r) ==> final(w).wf() && final(w)@.resumes(w@),
        ensures
            final(self).wf(),
            exists|w: &mut Self, ir: Result<(), DatomError>|
                #![trigger call_ensures(interior, (w,), ir)]
                call_ensures(interior, (w,), ir) && w@ == old(self)@.entered(
                    ContextName::Value(name),
                    None,
                ) && final(w)@.resumes(w@) && wrote_out(final(w)@, None, ir, r, final(self)@),
            final(self)@.resumes(old(self)@),
            final(self)@.frames == old(self)@.frames,
    {
        self.with_context(ContextName::Value(name), None, interior)
    }

    /// Enter and write one curly legacy-string context holding `value`.
    pub fn legacy_string(&mut self, value: &str) -> (r: Result<(), DatomError>)
        requires
            old(self).wf(),
        ensures
            final(self).wf(),
            r is Ok,
            final(self)@ == old(self)@.entered(
                ContextName::LegacyString,
                Some(ProtosShape::CurlyQuoteDelimited),
            ).wrote(legacy_text(value@)).closed(),
            final(self)@.resumes(old(self)@),
            final(self)@.frames == old(self)@.frames,
    {
        self.push(ContextName::LegacyString, Some(ProtosShape::CurlyQuoteDelimited));
        let ghost before = self@;
        CanonicalText::new(value).push_legacy_escaped(&mut self.output);
        let _closing = pop_char(&mut self.output);
        self.write_terminator(ProtosShape::CurlyQuoteDelimited);
        assert(self@.output =~= before.output + legacy_text(value@));
        proof {
            lemma_resumes_write_refl(self@);
            assert(self@ == before.wrote(legacy_text(value@)));
            assert(self@.wrote(Seq::empty()) =~= self@);
            lemma_write_context(
                old(self)@,
                ContextName::LegacyString,
                Some(ProtosShape::CurlyQuoteDelimited),
                legacy_text(value@),
                self@,
                Seq::empty(),
                self@.closed(),
            );
        }
        self.pop();
        Ok(())
    }

    /// Enter and write one brace record context `name.{…}`.
    pub fn record(
        &mut self,
        name: &'static str,
        interior: impl FnOnce(&mut Self) -> Result<(), DatomError>,
    ) -> (r: Result<(), DatomError>)
        requires
            old(self).wf(),
            forall|w: &mut EncodeWalk| w.wf() ==> call_requires(interior, (w,)),
            forall|w: &mut EncodeWalk, r: Result<(), DatomError>|
                call_ensures(interior, (w,), r) ==> final(w).wf() && final(w)@.resumes(w@),
        ensures
            final(self).wf(),
            exists|w: &mut Self, ir: Result<(), DatomError>|
                #![trigger call_ensures(interior, (w,), ir)]
                call_ensures(interior, (w,), ir) && w@ == old(self)@.entered(
                    ContextName::Record(name),
                    Some(ProtosShape::BraceDelimited),
                ).wrote(name@ + ".{"@) && final(w)@.resumes(w@) && wrote_out(
                    final(w)@,
                    Some(ProtosShape::BraceDelimited),
                    ir,
                    r,
                    final(self)@,
                ),
            final(self)@.resumes(old(self)@),
            final(self)@.frames == old(self)@.frames,
    {
        self.push(ContextName::Record(name), Some(ProtosShape::BraceDelimited));
        let ghost entered = self@;
        self.raw(name);
        self.raw(".{");
        assert(self@.output =~= old(self)@.output + (name@ + ".{"@));
        assert(self.wf());
        assert(call_requires(interior, (self,)));
        let ir = interior(self);
        let ghost inner = self@;
        let r = self.conclude(Some(ProtosShape::BraceDelimited), ir);
        proof {
            let suffix = if ir is Ok {
                terminator_text(Some(ProtosShape::BraceDelimited))
            } else {
                Seq::empty()
            };
            assert(inner.wrote(Seq::empty()) =~= inner);
            lemma_write_context(old(self)@, ContextName::Record(name), Some(ProtosShape::BraceDelimited), name@ + ".{"@, inner, suffix, self@);
        }
        r
    }

    /// Enter and write one square-bracket vector context `[…]`.
    pub fn vector(&mut self, interior: impl FnOnce(&mut Self) -> Result<(), DatomError>) -> (r:
        Result<(), DatomError>)
        requires
            old(self).wf(),
            forall|w: &mut EncodeWalk| w.wf() ==> call_requires(interior, (w,)),
            forall|w: &mut EncodeWalk, r: Result<(), DatomError>|
                call_ensures(interior, (w,), r) ==> final(w).wf() && final(w)@.resumes(w@),
        ensures
            final(self).wf(),
            exists|w: &mut Self, ir: Result<(), DatomError>|
                #![trigger call_ensures(interior, (w,), ir)]
                call_ensures(interior, (w,), ir) && w@ == old(self)@.entered(
                    ContextName::Vector,
                    Some(ProtosShape::SquareBracketDelimited),
                ).wrote("["@) && final(w)@.resumes(w@) && wrote_out(
                    final(w)@,
                    Some(ProtosShape::SquareBracketDelimited),
                    ir,
                    r,
                    final(self)@,
                ),
            final(self)@.resumes(old(self)@),
            final(self)@.frames == old(self)@.frames,
    {
        self.push(ContextName::Vector, Some(ProtosShape::SquareBracketDelimited));
        let ghost entered = self@;
        self.raw("[");
        assert(self@.output =~= old(self)@.output + ("["@));
        assert(self.wf());
        assert(call_requires(interior, (self,)));
        let ir = interior(self);
        let ghost inner = self@;
        let r = self.conclude(Some(ProtosShape::SquareBracketDelimited), ir);
        proof {
            let suffix = if ir is Ok {
                terminator_text(Some(ProtosShape::SquareBracketDelimited))
            } else {
                Seq::empty()
            };
            assert(inner.wrote(Seq::empty()) =~= inner);
            lemma_write_context(old(self)@, ContextName::Vector, Some(ProtosShape::SquareBracketDelimited), "["@, inner, suffix, self@);
        }
        r
    }

    /// Enter and write one shape-headed vector such as `Tags.[…]`.
    pub fn named_vector(
        &mut self,
        name: &'static str,
        interior: impl FnOnce(&mut Self) -> Result<(), DatomError>,
    ) -> (r: Result<(), DatomError>)
        requires
            old(self).wf(),
            forall|w: &mut EncodeWalk| w.wf() ==> call_requires(interior, (w,)),
            forall|w: &mut EncodeWalk, r: Result<(), DatomError>|
                call_ensures(interior, (w,), r) ==> final(w).wf() && final(w)@.resumes(w@),
        ensures
            final(self).wf(),
            exists|w: &mut Self, ir: Result<(), DatomError>|
                #![trigger call_ensures(interior, (w,), ir)]
                call_ensures(interior, (w,), ir) && w@ == old(self)@.entered(
                    ContextName::Vector,
                    Some(ProtosShape::SquareBracketDelimited),
                ).wrote(name@ + ".["@) && final(w)@.resumes(w@) && wrote_out(
                    final(w)@,
                    Some(ProtosShape::SquareBracketDelimited),
                    ir,
                    r,
                    final(self)@,
                ),
            final(self)@.resumes(old(self)@),
            final(self)@.frames == old(self)@.frames,
    {
        self.push(ContextName::Vector, Some(ProtosShape::SquareBracketDelimited));
        let ghost entered = self@;
        self.raw(name);
        self.raw(".[");
        assert(self@.output =~= old(self)@.output + (name@ + ".["@));
        assert(self.wf());
        assert(call_requires(interior, (self,)));
        let ir = interior(self);
        let ghost inner = self@;
        let r = self.conclude(Some(ProtosShape::SquareBracketDelimited), ir);
        proof {
            let suffix = if ir is Ok {
                terminator_text(Some(ProtosShape::SquareBracketDelimited))
            } else {
                Seq::empty()
            };
            assert(inner.wrote(Seq::empty()) =~= inner);
            lemma_write_context(old(self)@, ContextName::Vector, Some(ProtosShape::SquareBracketDelimited), name@ + ".["@, inner, suffix, self@);
        }
        r
    }

    /// Enter and write one ruled `Map.[…]` context.
    pub fn map(&mut self, interior: impl FnOnce(&mut Self) -> Result<(), DatomError>) -> (r: Result<
        (),
        DatomError,
    >)
        requires
            old(self).wf(),
            forall|w: &mut EncodeWalk| w.wf() ==> call_requires(interior, (w,)),
            forall|w: &mut EncodeWalk, r: Result<(), DatomError>|
                call_ensures(interior, (w,), r) ==> final(w).wf() && final(w)@.resumes(w@),
        ensures
            final(self).wf(),
            exists|w: &mut Self, ir: Result<(), DatomError>|
                #![trigger call_ensures(interior, (w,), ir)]
                call_ensures(interior, (w,), ir) && w@ == old(self)@.entered(
                    ContextName::Mapping,
                    Some(ProtosShape::SquareBracketDelimited),
                ).wrote("Map.["@) && final(w)@.resumes(w@) && wrote_out(
                    final(w)@,
                    Some(ProtosShape::SquareBracketDelimited),
                    ir,
                    r,
                    final(self)@,
                ),
            final(self)@.resumes(old(self)@),
            final(self)@.frames == old(self)@.frames,
    {
        self.push(ContextName::Mapping, Some(ProtosShape::SquareBracketDelimited));
        let ghost entered = self@;
        self.raw("Map.[");
        assert(self@.output =~= old(self)@.output + ("Map.["@));
        assert(self.wf());
        assert(call_requires(interior, (self,)));
        let ir = interior(self);
        let ghost inner = self@;
        let r = self.conclude(Some(ProtosShape::SquareBracketDelimited), ir);
        proof {
            let suffix = if ir is Ok {
                terminator_text(Some(ProtosShape::SquareBracketDelimited))
            } else {
                Seq::empty()
            };
            assert(inner.wrote(Seq::empty()) =~= inner);
            lemma_write_context(old(self)@, ContextName::Mapping, Some(ProtosShape::SquareBracketDelimited), "Map.["@, inner, suffix, self@);
        }
        r
    }

    /// Write one glued `key.value` entry in the current map context.
    pub fn map_entry<K: DatomEncode, V: DatomEncode>(&mut self, key: &K, value: &V) -> (r: Result<
        (),
        DatomError,
    >)
        requires
            old(self).wf(),
        ensures
            final(self).wf(),
            final(self)@.resumes(old(self)@),
            entry_written(*key, *value, old(self)@, final(self)@, outcome(r)),
    {
        self.separate_current();
        self.push(ContextName::DottedKey, None);
        let ghost entered = self@;
        let key_written = key.encode(self);
        let ghost ka = self@;
        let result = match key_written {
            Err(e) => Err(e),
            Ok(()) => {
                self.raw(".");
                let ghost dotted = self@;
                let value_written = value.encode(self);
                let ghost va = self@;
                assert(value.writes(dotted, va, outcome(value_written)));
                proof {
                    lemma_wrote_resumes(ka, "."@);
                    lemma_write_resumes_trans(entered, ka, dotted);
                    lemma_write_resumes_trans(entered, dotted, va);
                }
                value_written
            },
        };
        let ghost inner = self@;
        self.pop();
        proof {
            lemma_write_advanced_resumes(old(self)@);
            lemma_write_nested_resumes(old(self)@.separated(), inner, ContextName::DottedKey, None, self@);
            lemma_write_resumes_trans(old(self)@, old(self)@.separated(), self@);
        }
        match result {
            Ok(()) => {
                let ghost closed = self@;
                self.advance_current();
                proof {
                    lemma_write_advanced_resumes(closed);
                    lemma_write_resumes_trans(old(self)@, closed, self@);
                }
                assert(key.writes(entered, ka, outcome(key_written)));
                Ok(())
            },
            Err(e) => {
                assert(key.writes(entered, ka, outcome(key_written)));
                Err(e)
            },
        }
    }

    /// Enter and write one single-payload variant after its glued `head.`.
    pub fn variant(
        &mut self,
        head: &'static str,
        interior: impl FnOnce(&mut Self) -> Result<(), DatomError>,
    ) -> (r: Result<(), DatomError>)
        requires
            old(self).wf(),
            forall|w: &mut EncodeWalk| w.wf() ==> call_requires(interior, (w,)),
            forall|w: &mut EncodeWalk, r: Result<(), DatomError>|
                call_ensures(interior, (w,), r) ==> final(w).wf() && final(w)@.resumes(w@),
        ensures
            final(self).wf(),
            exists|w: &mut Self, ir: Result<(), DatomError>|
                #![trigger call_ensures(interior, (w,), ir)]
                call_ensures(interior, (w,), ir) && w@ == old(self)@.entered(
                    ContextName::Variant(head),
                    None,
                ).wrote(head@ + "."@) && final(w)@.resumes(w@) && wrote_out(
                    final(w)@,
                    None,
                    ir,
                    r,
                    final(self)@,
                ),
            final(self)@.resumes(old(self)@),
            final(self)@.frames == old(self)@.frames,
    {
        self.push(ContextName::Variant(head), None);
        let ghost entered = self@;
        self.raw(head);
        self.raw(".");
        assert(self@.output =~= old(self)@.output + (head@ + "."@));
        assert(self.wf());
        assert(call_requires(interior, (self,)));
        let ir = interior(self);
        let ghost inner = self@;
        let r = self.conclude(None, ir);
        proof {
            let suffix = if ir is Ok {
                terminator_text(None)
            } else {
                Seq::empty()
            };
            assert(inner.wrote(Seq::empty()) =~= inner);
            lemma_write_context(old(self)@, ContextName::Variant(head), None, head@ + "."@, inner, suffix, self@);
        }
        r
    }

    /// End the document: every context but the document must be closed.
    fn finish(&mut self) -> (r: Result<String, DatomError>)
        requires
            old(self).wf(),
        ensures
            old(self)@.frames.len() == 1 ==> (r matches Ok(t) && t@ == old(self)@.output),
            old(self)@.frames.len() != 1 ==> (r matches Err(x) && x@ == (DatomFault::TrailingInput {
                text: "unclosed writing context"@,
            })),
    {
        if self.frames.len() != 1 {
            return Err(DatomError::TrailingInput { text: "unclosed writing context".to_owned() });
        }
        self.pop();
        let mut text = String::new();
        std::mem::swap(&mut text, &mut self.output);
        Ok(text)
    }
}

/// Canonical Datom text projected from one expected value.
pub struct DatomText {
    text: String,
}

impl View for DatomText {
    type V = Seq<char>;

    closed spec fn view(&self) -> Seq<char> {
        self.text@
    }
}

impl DatomText {
    /// Encode one expected value without constructing a document tree.
    pub fn encode<T: DatomEncode>(value: &T) -> (r: Result<Self, DatomError>)
        ensures
            exists|mid: EncodeState, res: Result<(), DatomFault>|
                #![trigger value.writes(EncodeState::start(), mid, res)]
                value.writes(EncodeState::start(), mid, res) && mid.resumes(EncodeState::start())
                    && match r {
                    Ok(t) => res is Ok && t@ == mid.output,
                    Err(e) => res == Err::<(), DatomFault>(e@),
                },
    {
        let mut walk = EncodeWalk::new();
        let written = walk.value(value);
        let ghost after = walk@;
        let ghost mid = choose|mid: EncodeState|
            #![trigger value.writes(EncodeState::start().separated(), mid, outcome(written))]
            value.writes(EncodeState::start().separated(), mid, outcome(written)) && mid.resumes(
                EncodeState::start().separated(),
            ) && after == (if written is Ok {
                mid.advanced()
            } else {
                mid
            });
        assert(EncodeState::start().separated() == EncodeState::start());
        assert(value.writes(EncodeState::start(), mid, outcome(written)));
        match written {
            Err(e) => Err(e),
            Ok(()) => {
                let text = walk.finish();
                match text {
                    Ok(text) => Ok(DatomText { text }),
                    Err(e) => Err(e),
                }
            },
        }
    }

    /// The canonical Datom source.
    pub fn as_str(&self) -> (r: &str)
        ensures
            r@ == self@,
    {
        self.text.as_str()
    }

    /// Take ownership of the canonical Datom source.
    pub fn into_string(self) -> (r: String)
        ensures
            r@ == self@,
    {
        self.text
    }
}

impl<T: DatomRecord> DatomDecode for T {
    open spec fn reads(before: DecodeState, after: DecodeState, result: Result<T, DatomFault>) -> bool {
        let entered = before.entered(ContextName::Record(T::NAME), Some(ProtosShape::BraceDelimited));
        match named_shape_at(before.text, before.at, T::NAME@, ProtosShape::DotBraced) {
            Err(f) => result == Err::<T, DatomFault>(f) && after.left(entered),
            Ok(k) => exists|inner: DecodeState, ir: Result<T, DatomFault>|
                #![trigger T::reads_fields(entered.moved(k), inner, ir)]
                T::reads_fields(entered.moved(k), inner, ir) && inner.resumes(entered.moved(k))
                    && concluded_read(inner, Some(ProtosShape::BraceDelimited), ir, result, after),
        }
    }

    fn decode(walk: &mut DecodeWalk<'_>) -> (r: Result<Self, DatomError>) {
        proof {
            walk.lemma_cursor();
            lemma_named_shape_advances(walk@.text, walk@.at, T::NAME@, ProtosShape::DotBraced);
        }
        walk.record(T::NAME, T::read_fields)
    }
}

impl<T: DatomRecord> DatomEncode for T {
    open spec fn writes(&self, before: EncodeState, after: EncodeState, result: Result<(), DatomFault>) -> bool {
        let entered = before.entered(ContextName::Record(T::NAME), Some(ProtosShape::BraceDelimited)).wrote(
            T::NAME@ + ".{"@,
        );
        exists|inner: EncodeState, ir: Result<(), DatomFault>|
            #![trigger self.writes_fields(entered, inner, ir)]
            self.writes_fields(entered, inner, ir) && inner.resumes(entered) && result == ir && after
                == (if ir is Ok {
                inner.wrote(seq!['}'])
            } else {
                inner
            }).closed()
    }

    fn encode(&self, walk: &mut EncodeWalk) -> (r: Result<(), DatomError>) {
        walk.record(
            T::NAME,
            (|walk: &mut EncodeWalk| -> (r: Result<(), DatomError>)
                requires
                    old(walk).wf(),
                ensures
                    final(walk).wf(),
                    final(walk)@.resumes(old(walk)@),
                    self.writes_fields(old(walk)@, final(walk)@, outcome(r)),
                { self.write_fields(walk) }),
        )
    }
}

} // verus!
