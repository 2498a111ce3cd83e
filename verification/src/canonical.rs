//! Canonical text: what a value writes depends on its deep view alone, so
//! that a document read back writes itself again.

use std::collections::BTreeMap;

use vstd::prelude::*;
use vstd::relations::injective;

use crate::codec::{
    ContextName, DatomDecode, DatomEncode, DatomRecord, DecodeState, EncodeState, document_read,
    entry_written,
};
use crate::collections::{elements_written, option_written, write_step, writes_trace};
use crate::expectation::ProtosShape;
use crate::maps::{
    entries_written, entry_writes_trace, in_key_order, keys_lawful, lemma_key_order_unique,
};
use crate::parser::DatomFault;
use crate::round_trip::{law_document_reads_back, reads_back};

verus! {

/// What `v` writes depends on its deep view alone, beside the text written
/// so far and the open contexts: a value with its deep view, written from a
/// walk with the same text and open contexts, writes the same text, is
/// refused exactly when `v` is, and leaves the same open contexts.
#[verifier::opaque]
pub open spec fn writes_by_view<T: DatomEncode + DeepView>(v: T) -> bool {
    forall|
        u: T,
        ev: EncodeState,
        av: EncodeState,
        eu: EncodeState,
        au: EncodeState,
        rv: Result<(), DatomFault>,
        ru: Result<(), DatomFault>,
    |
        #![trigger v.writes(ev, av, rv), u.writes(eu, au, ru)]
        u.deep_view() == v.deep_view() && ev.output == eu.output && ev.frames == eu.frames && v.writes(
            ev,
            av,
            rv,
        ) && av.resumes(ev) && u.writes(eu, au, ru) && au.resumes(eu) ==> av.output == au.output
            && av.frames == au.frames && (rv is Ok) == (ru is Ok)
}

/// A value that reads back and writes by its deep view, written as a whole
/// document and read back, writes the same document again: its text is
/// canonical.
pub proof fn law_document_rewrites_canonically<T: DatomDecode + DatomEncode + DeepView>(
    v: T,
    written: EncodeState,
    wres: Result<(), DatomFault>,
    read: DecodeState,
    x: T,
    rewritten: EncodeState,
    rwres: Result<(), DatomFault>,
)
    requires
        reads_back(v, false),
        writes_by_view(v),
        v.writes(EncodeState::start(), written, wres),
        written.resumes(EncodeState::start()),
        document_read::<T>(written.output, read, Ok::<T, DatomFault>(x)),
        x.writes(EncodeState::start(), rewritten, rwres),
        rewritten.resumes(EncodeState::start()),
    ensures
        rewritten.output == written.output,
{
    law_document_reads_back(v, written, wres, read, Ok::<T, DatomFault>(x));
    reveal(writes_by_view);
    assert(v.writes(EncodeState::start(), written, wres) && x.writes(EncodeState::start(), rewritten, rwres));
}

/// A string writes by its view.
pub proof fn law_string_writes_by_view(v: String)
    ensures
        writes_by_view(v),
{
    reveal(writes_by_view);
    assert forall|
        u: String,
        ev: EncodeState,
        av: EncodeState,
        eu: EncodeState,
        au: EncodeState,
        rv: Result<(), DatomFault>,
        ru: Result<(), DatomFault>,
    |
        u.deep_view() == v.deep_view() && ev.output == eu.output && ev.frames == eu.frames && v.writes(
            ev,
            av,
            rv,
        ) && av.resumes(ev) && u.writes(eu, au, ru) && au.resumes(eu) implies av.output == au.output
            && av.frames == au.frames && (rv is Ok) == (ru is Ok) by {
        assert(u@ == v@);
        assert(av.output == au.output);
        assert(av.frames == au.frames);
    }
}

/// A boolean writes by its value.
pub proof fn law_bool_writes_by_view(v: bool)
    ensures
        writes_by_view(v),
{
    reveal(writes_by_view);
}

/// A `u8` writes by its value.
pub proof fn law_u8_writes_by_view(v: u8)
    ensures
        writes_by_view(v),
{
    reveal(writes_by_view);
}

/// A `u16` writes by its value.
pub proof fn law_u16_writes_by_view(v: u16)
    ensures
        writes_by_view(v),
{
    reveal(writes_by_view);
}

/// A `u32` writes by its value.
pub proof fn law_u32_writes_by_view(v: u32)
    ensures
        writes_by_view(v),
{
    reveal(writes_by_view);
}

/// A `u64` writes by its value.
pub proof fn law_u64_writes_by_view(v: u64)
    ensures
        writes_by_view(v),
{
    reveal(writes_by_view);
}

/// A `i8` writes by its value.
pub proof fn law_i8_writes_by_view(v: i8)
    ensures
        writes_by_view(v),
{
    reveal(writes_by_view);
}

/// A `i16` writes by its value.
pub proof fn law_i16_writes_by_view(v: i16)
    ensures
        writes_by_view(v),
{
    reveal(writes_by_view);
}

/// A `i32` writes by its value.
pub proof fn law_i32_writes_by_view(v: i32)
    ensures
        writes_by_view(v),
{
    reveal(writes_by_view);
}

/// A `i64` writes by its value.
pub proof fn law_i64_writes_by_view(v: i64)
    ensures
        writes_by_view(v),
{
    reveal(writes_by_view);
}

/// An optional value writes by its deep view when its payload does.
pub proof fn law_option_writes_by_view<T: DatomEncode + DeepView>(v: Option<T>)
    requires
        v matches Some(x) ==> writes_by_view(x),
    ensures
        writes_by_view(v),
{
    reveal(writes_by_view);
    assert forall|
        u: Option<T>,
        ev: EncodeState,
        av: EncodeState,
        eu: EncodeState,
        au: EncodeState,
        rv: Result<(), DatomFault>,
        ru: Result<(), DatomFault>,
    |
        u.deep_view() == v.deep_view() && ev.output == eu.output && ev.frames == eu.frames && v.writes(
            ev,
            av,
            rv,
        ) && av.resumes(ev) && u.writes(eu, au, ru) && au.resumes(eu) implies av.output == au.output
            && av.frames == au.frames && (rv is Ok) == (ru is Ok) by {
        let sv = ev.entered(ContextName::Value("Option"), None);
        let su = eu.entered(ContextName::Value("Option"), None);
        let (iv, irv) = choose|inner: EncodeState, ir: Result<(), DatomFault>|
            #![trigger option_written(v, sv, inner, ir)]
            option_written(v, sv, inner, ir) && inner.resumes(sv) && rv == ir && av == inner.closed();
        let (iu, iru) = choose|inner: EncodeState, ir: Result<(), DatomFault>|
            #![trigger option_written(u, su, inner, ir)]
            option_written(u, su, inner, ir) && inner.resumes(su) && ru == ir && au == inner.closed();
        match v {
            None => {
                assert(u is None);
            },
            Some(x) => {
                let y = u->Some_0;
                assert(y.deep_view() == x.deep_view());
                let e_v = sv.entered(ContextName::Variant("Some"), None).wrote("Some"@ + "."@);
                let e_u = su.entered(ContextName::Variant("Some"), None).wrote("Some"@ + "."@);
                let (mv, vrv) = choose|mid: EncodeState, vr: Result<(), DatomFault>|
                    #![trigger x.writes(e_v.separated(), mid, vr)]
                    x.writes(e_v.separated(), mid, vr) && mid.resumes(e_v.separated()) && irv == vr && iv
                        == (if vr is Ok {
                        mid.advanced()
                    } else {
                        mid
                    }).closed();
                let (mu, vru) = choose|mid: EncodeState, vr: Result<(), DatomFault>|
                    #![trigger y.writes(e_u.separated(), mid, vr)]
                    y.writes(e_u.separated(), mid, vr) && mid.resumes(e_u.separated()) && iru == vr && iu
                        == (if vr is Ok {
                        mid.advanced()
                    } else {
                        mid
                    }).closed();
                assert(writes_by_view(x));
                assert(x.writes(e_v.separated(), mv, vrv) && y.writes(e_u.separated(), mu, vru));
            },
        }
    }
}

/// Two writing traces of elements with the same deep views, from walks
/// with the same text and open contexts, agree on their text and open
/// contexts step for step, for the first `n` steps both have taken.
proof fn lemma_traces_agree<T: DatomEncode + DeepView>(
    start_v: EncodeState,
    sv: Seq<EncodeState>,
    vv: Seq<T>,
    start_u: EncodeState,
    su: Seq<EncodeState>,
    vu: Seq<T>,
    n: int,
)
    requires
        writes_trace(start_v, sv, vv),
        writes_trace(start_u, su, vu),
        vv.len() == vu.len(),
        forall|j: int| 0 <= j < vv.len() ==> writes_by_view(#[trigger] vv[j]) && vu[j].deep_view() == vv[j].deep_view(),
        start_v.output == start_u.output,
        start_v.frames == start_u.frames,
        1 <= n <= sv.len(),
        n <= su.len(),
    ensures
        forall|i: int| 0 <= i < n ==> (#[trigger] sv[i]).output == su[i].output && sv[i].frames == su[i].frames,
    decreases n,
{
    if n > 1 {
        let m = n - 1;
        lemma_traces_agree(start_v, sv, vv, start_u, su, vu, m);
        assert(write_step(sv[m - 1], vv[m - 1], sv[m]));
        assert(write_step(su[m - 1], vu[m - 1], su[m]));
        let sep_v = sv[m - 1].separated();
        let sep_u = su[m - 1].separated();
        let mv = choose|mid: EncodeState|
            #![trigger vv[m - 1].writes(sep_v, mid, Ok::<(), DatomFault>(()))]
            vv[m - 1].writes(sep_v, mid, Ok::<(), DatomFault>(())) && mid.resumes(sep_v) && sv[m] == mid.advanced();
        let mu = choose|mid: EncodeState|
            #![trigger vu[m - 1].writes(sep_u, mid, Ok::<(), DatomFault>(()))]
            vu[m - 1].writes(sep_u, mid, Ok::<(), DatomFault>(())) && mid.resumes(sep_u) && su[m] == mid.advanced();
        assert(sep_v.output == sep_u.output && sep_v.frames == sep_u.frames);
        assert(mv.output == mu.output && mv.frames == mu.frames) by {
            assert(writes_by_view(vv[m - 1]));
            reveal(writes_by_view);
            assert(vv[m - 1].writes(sep_v, mv, Ok::<(), DatomFault>(())) && vu[m - 1].writes(sep_u, mu, Ok::<(), DatomFault>(())));
        }
    }
}

/// A vector writes by its deep view when each of its elements does.
pub proof fn law_vec_writes_by_view<T: DatomEncode + DeepView>(v: Vec<T>)
    requires
        forall|i: int| 0 <= i < v@.len() ==> writes_by_view(#[trigger] v@[i]),
    ensures
        writes_by_view(v),
{
    reveal_strlit("[");
    assert forall|
        u: Vec<T>,
        ev: EncodeState,
        av: EncodeState,
        eu: EncodeState,
        au: EncodeState,
        rv: Result<(), DatomFault>,
        ru: Result<(), DatomFault>,
    |
        u.deep_view() == v.deep_view() && ev.output == eu.output && ev.frames == eu.frames && v.writes(
            ev,
            av,
            rv,
        ) && av.resumes(ev) && u.writes(eu, au, ru) && au.resumes(eu) implies av.output == au.output
            && av.frames == au.frames && (rv is Ok) == (ru is Ok) by {
        lemma_vec_writes_agree(v, u, ev, av, rv, eu, au, ru);
    }
    reveal(writes_by_view);
}

/// Two vectors of the same deep view, whose elements write by their deep
/// views, written from walks with the same text and open contexts, write
/// the same text with the same outcome and leave the same open contexts.
#[verifier::spinoff_prover]
proof fn lemma_vec_writes_agree<T: DatomEncode + DeepView>(
    v: Vec<T>,
    u: Vec<T>,
    ev: EncodeState,
    av: EncodeState,
    rv: Result<(), DatomFault>,
    eu: EncodeState,
    au: EncodeState,
    ru: Result<(), DatomFault>,
)
    requires
        forall|i: int| 0 <= i < v@.len() ==> writes_by_view(#[trigger] v@[i]),
        u.deep_view() == v.deep_view(),
        ev.output == eu.output,
        ev.frames == eu.frames,
        v.writes(ev, av, rv),
        u.writes(eu, au, ru),
    ensures
        av.output == au.output,
        av.frames == au.frames,
        (rv is Ok) == (ru is Ok),
{
    let vv = v@;
    let vu = u@;
    assert(vv.len() == v.deep_view().len());
    assert(vu.len() == u.deep_view().len());
    assert forall|j: int| 0 <= j < vv.len() implies writes_by_view(#[trigger] vv[j]) && vu[j].deep_view() == vv[j].deep_view() by {
        assert(writes_by_view(v@[j]));
        assert(u.deep_view()[j] == v.deep_view()[j]);
        assert(u.deep_view()[j] == vu[j].deep_view());
        assert(v.deep_view()[j] == vv[j].deep_view());
    }
    let env = ev.entered(ContextName::Vector, Some(ProtosShape::SquareBracketDelimited)).wrote("["@);
    let enu = eu.entered(ContextName::Vector, Some(ProtosShape::SquareBracketDelimited)).wrote("["@);
    let (iv, irv) = choose|inner: EncodeState, ir: Result<(), DatomFault>|
        #![trigger elements_written(env, vv, inner, ir)]
        elements_written(env, vv, inner, ir) && inner.resumes(env) && rv == ir && av == (if ir is Ok {
            inner.wrote(seq![']'])
        } else {
            inner
        }).closed();
    let (iu, iru) = choose|inner: EncodeState, ir: Result<(), DatomFault>|
        #![trigger elements_written(enu, vu, inner, ir)]
        elements_written(enu, vu, inner, ir) && inner.resumes(enu) && ru == ir && au == (if ir is Ok {
            inner.wrote(seq![']'])
        } else {
            inner
        }).closed();
    let sv = choose|states: Seq<EncodeState>|
        #![trigger writes_trace(env, states, vv)]
        writes_trace(env, states, vv) && match irv {
            Ok(_) => states.len() == vv.len() + 1 && iv == states.last(),
            Err(f) => states.len() <= vv.len() && vv[states.len() - 1].writes(states.last().separated(), iv, Err(f))
                && iv.resumes(states.last().separated()),
        };
    let su = choose|states: Seq<EncodeState>|
        #![trigger writes_trace(enu, states, vu)]
        writes_trace(enu, states, vu) && match iru {
            Ok(_) => states.len() == vu.len() + 1 && iu == states.last(),
            Err(f) => states.len() <= vu.len() && vu[states.len() - 1].writes(states.last().separated(), iu, Err(f))
                && iu.resumes(states.last().separated()),
        };
    let n = if sv.len() <= su.len() { sv.len() as int } else { su.len() as int };
    lemma_traces_agree(env, sv, vv, enu, su, vu, n);
    reveal(writes_by_view);
    if sv.len() < su.len() {
        let k = sv.len() - 1;
        assert(irv is Err);
        assert(write_step(su[k], vu[k], su[k + 1]));
        let sep = su[k].separated();
        let mu = choose|mid: EncodeState|
            #![trigger vu[k].writes(sep, mid, Ok::<(), DatomFault>(()))]
            vu[k].writes(sep, mid, Ok::<(), DatomFault>(())) && mid.resumes(sep) && su[k + 1] == mid.advanced();
        assert(vv[k].writes(sv[k].separated(), iv, irv) && vu[k].writes(sep, mu, Ok::<(), DatomFault>(())));
        assert(false);
    } else if su.len() < sv.len() {
        let k = su.len() - 1;
        assert(iru is Err);
        assert(write_step(sv[k], vv[k], sv[k + 1]));
        let sep = sv[k].separated();
        let mv = choose|mid: EncodeState|
            #![trigger vv[k].writes(sep, mid, Ok::<(), DatomFault>(()))]
            vv[k].writes(sep, mid, Ok::<(), DatomFault>(())) && mid.resumes(sep) && sv[k + 1] == mid.advanced();
        assert(vv[k].writes(sep, mv, Ok::<(), DatomFault>(())) && vu[k].writes(su[k].separated(), iu, iru));
        assert(false);
    } else {
        let k = sv.len() - 1;
        if irv is Ok && iru is Ok {
        } else if irv is Err && iru is Err {
            assert(vv[k].writes(sv[k].separated(), iv, irv) && vu[k].writes(su[k].separated(), iu, iru));
        } else if irv is Ok {
            assert(sv.len() == vv.len() + 1);
            assert(false);
        } else {
            assert(su.len() == vu.len() + 1);
            assert(false);
        }
    }
}

/// What the fields of `v` write depends on its deep view alone, beside the
/// text written so far and the open contexts.
#[verifier::opaque]
pub open spec fn fields_write_by_view<R: DatomRecord + DeepView>(v: R) -> bool {
    forall|
        u: R,
        ev: EncodeState,
        av: EncodeState,
        eu: EncodeState,
        au: EncodeState,
        rv: Result<(), DatomFault>,
        ru: Result<(), DatomFault>,
    |
        #![trigger v.writes_fields(ev, av, rv), u.writes_fields(eu, au, ru)]
        u.deep_view() == v.deep_view() && ev.output == eu.output && ev.frames == eu.frames
            && v.writes_fields(ev, av, rv) && av.resumes(ev) && u.writes_fields(eu, au, ru) && au.resumes(
            eu,
        ) ==> av.output == au.output && av.frames == au.frames && (rv is Ok) == (ru is Ok)
}

/// A record writes by its deep view when its fields do.
pub proof fn law_record_writes_by_view<R: DatomRecord + DeepView>(v: R)
    requires
        fields_write_by_view(v),
    ensures
        writes_by_view(v),
{
    reveal(writes_by_view);
    assert forall|
        u: R,
        ev: EncodeState,
        av: EncodeState,
        eu: EncodeState,
        au: EncodeState,
        rv: Result<(), DatomFault>,
        ru: Result<(), DatomFault>,
    |
        u.deep_view() == v.deep_view() && ev.output == eu.output && ev.frames == eu.frames && v.writes(
            ev,
            av,
            rv,
        ) && av.resumes(ev) && u.writes(eu, au, ru) && au.resumes(eu) implies av.output == au.output
            && av.frames == au.frames && (rv is Ok) == (ru is Ok) by {
        let env = ev.entered(ContextName::Record(R::NAME), Some(ProtosShape::BraceDelimited)).wrote(
            R::NAME@ + ".{"@,
        );
        let enu = eu.entered(ContextName::Record(R::NAME), Some(ProtosShape::BraceDelimited)).wrote(
            R::NAME@ + ".{"@,
        );
        let (iv, irv) = choose|inner: EncodeState, ir: Result<(), DatomFault>|
            #![trigger v.writes_fields(env, inner, ir)]
            v.writes_fields(env, inner, ir) && inner.resumes(env) && rv == ir && av == (if ir is Ok {
                inner.wrote(seq!['}'])
            } else {
                inner
            }).closed();
        let (iu, iru) = choose|inner: EncodeState, ir: Result<(), DatomFault>|
            #![trigger u.writes_fields(enu, inner, ir)]
            u.writes_fields(enu, inner, ir) && inner.resumes(enu) && ru == ir && au == (if ir is Ok {
                inner.wrote(seq!['}'])
            } else {
                inner
            }).closed();
        assert(iv.output == iu.output && iv.frames == iu.frames && (irv is Ok) == (iru is Ok)) by {
            reveal(fields_write_by_view);
            assert(v.writes_fields(env, iv, irv) && u.writes_fields(enu, iu, iru));
        }
    }
}

/// One entry, of a key and of values with the same deep view, written from
/// walks with the same text and open contexts, where the key and the first
/// value write by their deep views: the same text, the same open contexts,
/// and refused exactly together.
proof fn lemma_entry_agree<K: DatomEncode + DeepView, V: DatomEncode + DeepView>(
    k: K,
    v1: V,
    v2: V,
    b1: EncodeState,
    a1: EncodeState,
    r1: Result<(), DatomFault>,
    b2: EncodeState,
    a2: EncodeState,
    r2: Result<(), DatomFault>,
)
    requires
        writes_by_view(k),
        writes_by_view(v1),
        v2.deep_view() == v1.deep_view(),
        b1.output == b2.output,
        b1.frames == b2.frames,
        entry_written(k, v1, b1, a1, r1),
        entry_written(k, v2, b2, a2, r2),
    ensures
        a1.output == a2.output,
        a1.frames == a2.frames,
        (r1 is Ok) == (r2 is Ok),
{
    reveal(writes_by_view);
    let e1 = b1.separated().entered(ContextName::DottedKey, None);
    let e2 = b2.separated().entered(ContextName::DottedKey, None);
    let (ka1, kr1) = choose|ka: EncodeState, kr: Result<(), DatomFault>|
        #![trigger k.writes(e1, ka, kr)]
        k.writes(e1, ka, kr) && ka.resumes(e1) && match kr {
            Err(f) => r1 == Err::<(), DatomFault>(f) && a1 == ka.closed(),
            Ok(_) => exists|va: EncodeState, vr: Result<(), DatomFault>|
                #![trigger v1.writes(ka.wrote("."@), va, vr)]
                v1.writes(ka.wrote("."@), va, vr) && va.resumes(ka.wrote("."@)) && r1 == vr && a1 == (
                if vr is Ok {
                    va.closed().advanced()
                } else {
                    va.closed()
                }),
        };
    let (ka2, kr2) = choose|ka: EncodeState, kr: Result<(), DatomFault>|
        #![trigger k.writes(e2, ka, kr)]
        k.writes(e2, ka, kr) && ka.resumes(e2) && match kr {
            Err(f) => r2 == Err::<(), DatomFault>(f) && a2 == ka.closed(),
            Ok(_) => exists|va: EncodeState, vr: Result<(), DatomFault>|
                #![trigger v2.writes(ka.wrote("."@), va, vr)]
                v2.writes(ka.wrote("."@), va, vr) && va.resumes(ka.wrote("."@)) && r2 == vr && a2 == (
                if vr is Ok {
                    va.closed().advanced()
                } else {
                    va.closed()
                }),
        };
    assert(k.writes(e1, ka1, kr1) && k.writes(e2, ka2, kr2));
    assert(ka1.output == ka2.output && ka1.frames == ka2.frames && (kr1 is Ok) == (kr2 is Ok));
    if kr1 is Ok {
        let d1 = ka1.wrote("."@);
        let d2 = ka2.wrote("."@);
        let (va1, vr1) = choose|va: EncodeState, vr: Result<(), DatomFault>|
            #![trigger v1.writes(d1, va, vr)]
            v1.writes(d1, va, vr) && va.resumes(d1) && r1 == vr && a1 == (if vr is Ok {
                va.closed().advanced()
            } else {
                va.closed()
            });
        let (va2, vr2) = choose|va: EncodeState, vr: Result<(), DatomFault>|
            #![trigger v2.writes(d2, va, vr)]
            v2.writes(d2, va, vr) && va.resumes(d2) && r2 == vr && a2 == (if vr is Ok {
                va.closed().advanced()
            } else {
                va.closed()
            });
        assert(v1.writes(d1, va1, vr1) && v2.writes(d2, va2, vr2));
    }
}

/// Two writing traces of entries with the same keys and values of the same
/// deep views, from walks with the same text and open contexts, agree on
/// their text and open contexts step for step, for the first `n` steps
/// both have taken.
proof fn lemma_entry_traces_agree<K: DatomEncode + DeepView, V: DatomEncode + DeepView>(
    start_v: EncodeState,
    sv: Seq<EncodeState>,
    ev: Seq<(K, V)>,
    start_u: EncodeState,
    su: Seq<EncodeState>,
    eu: Seq<(K, V)>,
    n: int,
)
    requires
        entry_writes_trace(start_v, sv, ev),
        entry_writes_trace(start_u, su, eu),
        ev.len() == eu.len(),
        forall|j: int|
            0 <= j < ev.len() ==> writes_by_view((#[trigger] ev[j]).0) && writes_by_view(ev[j].1)
                && eu[j].0 == ev[j].0 && eu[j].1.deep_view() == ev[j].1.deep_view(),
        start_v.output == start_u.output,
        start_v.frames == start_u.frames,
        1 <= n <= sv.len(),
        n <= su.len(),
    ensures
        forall|i: int| 0 <= i < n ==> (#[trigger] sv[i]).output == su[i].output && sv[i].frames == su[i].frames,
    decreases n,
{
    if n > 1 {
        let m = n - 1;
        lemma_entry_traces_agree(start_v, sv, ev, start_u, su, eu, m);
        assert(entry_written(ev[m - 1].0, ev[m - 1].1, sv[m - 1], sv[m], Ok::<(), DatomFault>(())));
        assert(entry_written(eu[m - 1].0, eu[m - 1].1, su[m - 1], su[m], Ok::<(), DatomFault>(())));
        assert(writes_by_view(ev[m - 1].0) && writes_by_view(ev[m - 1].1));
        lemma_entry_agree(
            ev[m - 1].0,
            ev[m - 1].1,
            eu[m - 1].1,
            sv[m - 1],
            sv[m],
            Ok::<(), DatomFault>(()),
            su[m - 1],
            su[m],
            Ok::<(), DatomFault>(()),
        );
    }
}

/// Two maps of the same deep view, where distinct keys have distinct deep
/// views, have the same keys, and values of the same deep views under them.
proof fn lemma_same_deep_view_maps<K: DeepView, V: DeepView>(a: BTreeMap<K, V>, b: BTreeMap<K, V>)
    requires
        injective(|k: K| k.deep_view()),
        a.deep_view() == b.deep_view(),
    ensures
        a@.dom() == b@.dom(),
        forall|k: K| #[trigger] a@.contains_key(k) ==> a@[k].deep_view() == b@[k].deep_view(),
{
    broadcast use vstd::std_specs::btree::lemma_btree_map_deepview_properties;

    let f = |k: K| k.deep_view();
    assert forall|k: K| #[trigger] a@.contains_key(k) implies b@.contains_key(k) && a@[k].deep_view()
        == b@[k].deep_view() by {
        assert(a.deep_view().contains_key(k.deep_view()));
        let k2 = choose|k2: K| k2.deep_view() == k.deep_view() && #[trigger] b@.contains_key(k2);
        assert(f(k2) == f(k));
    }
    assert forall|k: K| #[trigger] b@.contains_key(k) implies a@.contains_key(k) by {
        assert(b.deep_view().contains_key(k.deep_view()));
        let k2 = choose|k2: K| k2.deep_view() == k.deep_view() && #[trigger] a@.contains_key(k2);
        assert(f(k2) == f(k));
    }
    assert(a@.dom() =~= b@.dom());
}

/// A map writes by its deep view when the order of its keys is lawful,
/// distinct keys have distinct deep views, and each of its keys and values
/// writes by its deep view.
pub proof fn law_map_writes_by_view<K: DatomEncode + DeepView + Ord, V: DatomEncode + DeepView>(m: BTreeMap<K, V>)
    requires
        keys_lawful::<K>(),
        injective(|k: K| k.deep_view()),
        forall|k: K| #[trigger] m@.contains_key(k) ==> writes_by_view(k) && writes_by_view(m@[k]),
    ensures
        writes_by_view(m),
{
    reveal(writes_by_view);
    assert forall|
        u: BTreeMap<K, V>,
        ev: EncodeState,
        av: EncodeState,
        eu: EncodeState,
        au: EncodeState,
        rv: Result<(), DatomFault>,
        ru: Result<(), DatomFault>,
    |
        u.deep_view() == m.deep_view() && ev.output == eu.output && ev.frames == eu.frames && m.writes(
            ev,
            av,
            rv,
        ) && av.resumes(ev) && u.writes(eu, au, ru) && au.resumes(eu) implies av.output == au.output
            && av.frames == au.frames && (rv is Ok) == (ru is Ok) by {
        lemma_map_writes_agree(m, u, ev, av, rv, eu, au, ru);
    }
}

/// Two maps of the same deep view, as in [`law_map_writes_by_view`],
/// written from walks with the same text and open contexts, write the same
/// text with the same outcome and leave the same open contexts.
#[verifier::spinoff_prover]
proof fn lemma_map_writes_agree<K: DatomEncode + DeepView + Ord, V: DatomEncode + DeepView>(
    m: BTreeMap<K, V>,
    u: BTreeMap<K, V>,
    ev: EncodeState,
    av: EncodeState,
    rv: Result<(), DatomFault>,
    eu: EncodeState,
    au: EncodeState,
    ru: Result<(), DatomFault>,
)
    requires
        keys_lawful::<K>(),
        injective(|k: K| k.deep_view()),
        forall|k: K| #[trigger] m@.contains_key(k) ==> writes_by_view(k) && writes_by_view(m@[k]),
        u.deep_view() == m.deep_view(),
        ev.output == eu.output,
        ev.frames == eu.frames,
        m.writes(ev, av, rv),
        u.writes(eu, au, ru),
    ensures
        av.output == au.output,
        av.frames == au.frames,
        (rv is Ok) == (ru is Ok),
{
    lemma_same_deep_view_maps(m, u);
    let env = ev.entered(ContextName::Mapping, Some(ProtosShape::SquareBracketDelimited)).wrote("Map.["@);
    let enu = eu.entered(ContextName::Mapping, Some(ProtosShape::SquareBracketDelimited)).wrote("Map.["@);
    let (xv, iv, irv) = choose|entries: Seq<(K, V)>, inner: EncodeState, ir: Result<(), DatomFault>|
        #![trigger entries_written(env, entries, inner, ir)]
        (keys_lawful::<K>() ==> in_key_order(m@, entries)) && entries_written(env, entries, inner, ir)
            && inner.resumes(env) && rv == ir && av == (if ir is Ok {
            inner.wrote(seq![']'])
        } else {
            inner
        }).closed();
    let (xu, iu, iru) = choose|entries: Seq<(K, V)>, inner: EncodeState, ir: Result<(), DatomFault>|
        #![trigger entries_written(enu, entries, inner, ir)]
        (keys_lawful::<K>() ==> in_key_order(u@, entries)) && entries_written(enu, entries, inner, ir)
            && inner.resumes(enu) && ru == ir && au == (if ir is Ok {
            inner.wrote(seq![']'])
        } else {
            inner
        }).closed();
    lemma_key_order_unique(m@, xv, u@, xu);
    assert forall|j: int| 0 <= j < xv.len() implies writes_by_view((#[trigger] xv[j]).0) && writes_by_view(xv[j].1)
        && xu[j].0 == xv[j].0 && xu[j].1.deep_view() == xv[j].1.deep_view() by {
        assert(m@.contains_pair(xv[j].0, xv[j].1));
        assert(u@.contains_pair(xu[j].0, xu[j].1));
        assert(m@.contains_key(xv[j].0));
    }
    let sv = choose|states: Seq<EncodeState>|
        #![trigger entry_writes_trace(env, states, xv)]
        entry_writes_trace(env, states, xv) && match irv {
            Ok(_) => states.len() == xv.len() + 1 && iv == states.last(),
            Err(f) => states.len() <= xv.len() && entry_written(
                xv[states.len() - 1].0,
                xv[states.len() - 1].1,
                states.last(),
                iv,
                Err::<(), DatomFault>(f),
            ),
        };
    let su = choose|states: Seq<EncodeState>|
        #![trigger entry_writes_trace(enu, states, xu)]
        entry_writes_trace(enu, states, xu) && match iru {
            Ok(_) => states.len() == xu.len() + 1 && iu == states.last(),
            Err(f) => states.len() <= xu.len() && entry_written(
                xu[states.len() - 1].0,
                xu[states.len() - 1].1,
                states.last(),
                iu,
                Err::<(), DatomFault>(f),
            ),
        };
    let n = if sv.len() <= su.len() { sv.len() as int } else { su.len() as int };
    lemma_entry_traces_agree(env, sv, xv, enu, su, xu, n);
    if sv.len() < su.len() {
        let k = sv.len() - 1;
        assert(irv is Err);
        assert(entry_written(xu[k].0, xu[k].1, su[k], su[k + 1], Ok::<(), DatomFault>(())));
        lemma_entry_agree(xv[k].0, xv[k].1, xu[k].1, sv[k], iv, irv, su[k], su[k + 1], Ok::<(), DatomFault>(()));
        assert(false);
    } else if su.len() < sv.len() {
        let k = su.len() - 1;
        assert(iru is Err);
        assert(entry_written(xv[k].0, xv[k].1, sv[k], sv[k + 1], Ok::<(), DatomFault>(())));
        lemma_entry_agree(xv[k].0, xv[k].1, xu[k].1, sv[k], sv[k + 1], Ok::<(), DatomFault>(()), su[k], iu, iru);
        assert(false);
    } else {
        let k = sv.len() - 1;
        if irv is Ok && iru is Ok {
        } else if irv is Err && iru is Err {
            lemma_entry_agree(xv[k].0, xv[k].1, xu[k].1, sv[k], iv, irv, su[k], iu, iru);
        } else if irv is Ok {
            assert(sv.len() == xv.len() + 1);
            assert(false);
        } else {
            assert(su.len() == xu.len() + 1);
            assert(false);
        }
    }
}

} // verus!
