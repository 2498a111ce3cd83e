//! Probing looks and consumes nothing but trivia: whatever is read after a
//! probe is read as it would have been without it.

use std::collections::BTreeMap;

use vstd::prelude::*;

use crate::codec::{ContextName, DatomDecode, DatomRecord, DecodeState, bare_at, concluded_read, legacy_read};
use crate::collections::{option_interior, skipped};
use crate::expectation::ProtosShape;
use crate::lexis::{lemma_skip_trivia_bounds, skip_trivia};
use crate::parser::{
    DatomFault, at_terminator_at, finish_at, head_dot_at, named_shape_at, opener_at, probe_at,
    take_bare_at,
};
use crate::scalars::integer_reads;

verus! {

/// A probe leaves a reading walk in `skipped(st)`: the cursor past the
/// trivia, nothing else changed.  Probing there again meets the same shape,
/// and every reading step, and every read of a string, a boolean or an
/// integer, gives there exactly what it gives at `st`.
pub proof fn law_probe_reads_nothing(st: DecodeState)
    requires
        0 <= st.at <= st.text.len(),
    ensures
        probe_at(skipped(st).text, skipped(st).at) == probe_at(st.text, st.at),
        bare_at(skipped(st)) == bare_at(st),
        legacy_read(st.text, skipped(st).at) == legacy_read(st.text, st.at),
        forall|dot: bool| #[trigger]
            take_bare_at(st.text, skipped(st).at, dot) == take_bare_at(st.text, st.at, dot),
        forall|head: Seq<char>, shape: ProtosShape| #[trigger]
            named_shape_at(st.text, skipped(st).at, head, shape) == named_shape_at(
                st.text,
                st.at,
                head,
                shape,
            ),
        forall|shape: ProtosShape| #[trigger]
            opener_at(st.text, skipped(st).at, shape) == opener_at(st.text, st.at, shape),
        forall|head: Seq<char>| #[trigger]
            head_dot_at(st.text, skipped(st).at, head) == head_dot_at(st.text, st.at, head),
        forall|shape: ProtosShape| #[trigger]
            at_terminator_at(st.text, skipped(st).at, shape) == at_terminator_at(
                st.text,
                st.at,
                shape,
            ),
        finish_at(st.text, skipped(st).at) == finish_at(st.text, st.at),
        forall|after: DecodeState, r: Result<String, DatomFault>| #[trigger]
            String::reads(skipped(st), after, r) == String::reads(st, after, r),
        forall|after: DecodeState, r: Result<bool, DatomFault>| #[trigger]
            bool::reads(skipped(st), after, r) == bool::reads(st, after, r),
        forall|
            after: DecodeState,
            r: Result<int, DatomFault>,
            name: &'static str,
            signed: bool,
            min: int,
            max: int,
        | #[trigger]
            integer_reads(skipped(st), after, r, name, signed, min, max) == integer_reads(
                st,
                after,
                r,
                name,
                signed,
                min,
                max,
            ),
{
    lemma_skip_trivia_bounds(st.text, st.at);
}

/// What reading an optional value, a vector, a map or a record after a
/// probe can end in, reading it without the probe can end in too.
pub proof fn law_probe_keeps_composite_reads<T: DatomDecode, K: DatomDecode + Ord, V: DatomDecode, R: DatomRecord>(
    st: DecodeState,
)
    requires
        0 <= st.at <= st.text.len(),
    ensures
        forall|after: DecodeState, r: Result<Option<T>, DatomFault>| #[trigger]
            Option::<T>::reads(skipped(st), after, r) ==> Option::<T>::reads(st, after, r),
        forall|after: DecodeState, r: Result<Vec<T>, DatomFault>| #[trigger]
            Vec::<T>::reads(skipped(st), after, r) ==> Vec::<T>::reads(st, after, r),
        forall|after: DecodeState, r: Result<BTreeMap<K, V>, DatomFault>| #[trigger]
            BTreeMap::<K, V>::reads(skipped(st), after, r) ==> BTreeMap::<K, V>::reads(st, after, r),
        forall|after: DecodeState, r: Result<R, DatomFault>| #[trigger]
            <R as DatomDecode>::reads(skipped(st), after, r) ==> <R as DatomDecode>::reads(st, after, r),
{
    law_probe_reads_nothing(st);
    lemma_skip_trivia_bounds(st.text, st.at);
    let p = skipped(st);
    let eo = st.entered(ContextName::Value("Option"), st.scalar_terminator());
    let po = p.entered(ContextName::Value("Option"), p.scalar_terminator());
    assert(skipped(po) == skipped(eo));
    assert forall|after: DecodeState, r: Result<Option<T>, DatomFault>| #[trigger]
        Option::<T>::reads(p, after, r) implies Option::<T>::reads(st, after, r) by {
        let (inner, ir) = choose|inner: DecodeState, ir: Result<Option<T>, DatomFault>|
            #![trigger option_interior(po, inner, ir)]
            option_interior(po, inner, ir) && inner.resumes(po) && concluded_read(
                inner,
                p.scalar_terminator(),
                ir,
                r,
                after,
            );
        assert(option_interior(eo, inner, ir));
        assert(inner.resumes(eo));
    }
    let ev = st.entered(ContextName::Vector, Some(ProtosShape::SquareBracketDelimited));
    let pv = p.entered(ContextName::Vector, Some(ProtosShape::SquareBracketDelimited));
    assert forall|k: int| #[trigger] pv.moved(k) == ev.moved(k) by {}
    assert forall|after: DecodeState, r: Result<Vec<T>, DatomFault>| #[trigger]
        Vec::<T>::reads(p, after, r) implies Vec::<T>::reads(st, after, r) by {
        if opener_at(st.text, st.at, ProtosShape::SquareBracketDelimited) is Err {
            assert(after.left(ev));
        }
    }
    let em = st.entered(ContextName::Mapping, Some(ProtosShape::SquareBracketDelimited));
    let pm = p.entered(ContextName::Mapping, Some(ProtosShape::SquareBracketDelimited));
    assert forall|k: int| #[trigger] pm.moved(k) == em.moved(k) by {}
    assert forall|after: DecodeState, r: Result<BTreeMap<K, V>, DatomFault>| #[trigger]
        BTreeMap::<K, V>::reads(p, after, r) implies BTreeMap::<K, V>::reads(st, after, r) by {
        if named_shape_at(st.text, st.at, "Map"@, ProtosShape::DotBracketed) is Err {
            assert(after.left(em));
        }
    }
    let er = st.entered(ContextName::Record(R::NAME), Some(ProtosShape::BraceDelimited));
    let pr = p.entered(ContextName::Record(R::NAME), Some(ProtosShape::BraceDelimited));
    assert forall|k: int| #[trigger] pr.moved(k) == er.moved(k) by {}
    assert forall|after: DecodeState, r: Result<R, DatomFault>| #[trigger]
        <R as DatomDecode>::reads(p, after, r) implies <R as DatomDecode>::reads(st, after, r) by {
        if named_shape_at(st.text, st.at, R::NAME@, ProtosShape::DotBraced) is Err {
            assert(after.left(er));
        }
    }
}

} // verus!
