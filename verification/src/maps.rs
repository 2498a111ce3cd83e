//! The map context `Map.[key.value …]`.

use std::collections::BTreeMap;
use std::collections::btree_map;

use vstd::laws_cmp::obeys_cmp;
use vstd::std_specs::btree::increasing_seq;
use vstd::std_specs::cmp::{OrdSpec, PartialOrdSpec};
use vstd::std_specs::iter::IteratorSpec;
use vstd::prelude::*;

use crate::codec::{
    ContextName, DatomDecode, DatomEncode, DecodeState, DecodeWalk, EncodeState, EncodeWalk,
    concluded_read, entry_written, lemma_resumes_write_refl, lemma_write_advanced_resumes,
};
use crate::collections::skipped;
use crate::expectation::ProtosShape;
use crate::parser::{
    DatomError, DatomFault, at_terminator_at, lemma_named_shape_advances, named_shape_at, outcome,
};

verus! {

/// The walk after the trivia that follows `s`, inside a new map-key context.
pub open spec fn keyed(s: DecodeState) -> DecodeState {
    skipped(s).entered(ContextName::DottedKey, None)
}

/// The walk after a key read in state `km` has resumed its key context and left it.
pub open spec fn after_key(km: DecodeState) -> DecodeState {
    km.advanced().closed()
}

/// One entry step of a map: the closing bracket does not follow `s`; a key
/// `k` is read in its own dotted-key context, then a value `v`, leaving the
/// walk resumed in `next`.
pub open spec fn entry_step<K: DatomDecode, V: DatomDecode>(
    s: DecodeState,
    k: K,
    v: V,
    next: DecodeState,
) -> bool {
    &&& !at_terminator_at(s.text, s.at, ProtosShape::SquareBracketDelimited)
    &&& exists|km: DecodeState, vm: DecodeState|
        #![trigger K::reads(keyed(s), km, Ok::<K, DatomFault>(k)), V::reads(after_key(km), vm, Ok::<V, DatomFault>(v))]
        K::reads(keyed(s), km, Ok::<K, DatomFault>(k)) && km.resumes(keyed(s)) && V::reads(
            after_key(km),
            vm,
            Ok::<V, DatomFault>(v),
        ) && vm.resumes(after_key(km)) && next == vm.advanced()
}

/// `states`, `keys` and `vals` trace map entries read one after another from `start`.
pub open spec fn entries_trace<K: DatomDecode, V: DatomDecode>(
    start: DecodeState,
    states: Seq<DecodeState>,
    keys: Seq<K>,
    vals: Seq<V>,
) -> bool {
    &&& states.len() == keys.len() + 1
    &&& keys.len() == vals.len()
    &&& states[0] == start
    &&& forall|i: int|
        0 <= i < keys.len() ==> entry_step(#[trigger] states[i], keys[i], vals[i], states[i + 1])
}

/// Reading an entry after `s` was refused with `f`, in its key or in its value.
pub open spec fn entry_failed<K: DatomDecode, V: DatomDecode>(
    s: DecodeState,
    inner: DecodeState,
    f: DatomFault,
) -> bool {
    &&& !at_terminator_at(s.text, s.at, ProtosShape::SquareBracketDelimited)
    &&& {
        ||| exists|km: DecodeState|
            #![trigger K::reads(keyed(s), km, Err::<K, DatomFault>(f))]
            K::reads(keyed(s), km, Err::<K, DatomFault>(f)) && km.resumes(keyed(s)) && inner
                == km.closed()
        ||| exists|km: DecodeState, k: K|
            #![trigger K::reads(keyed(s), km, Ok::<K, DatomFault>(k))]
            K::reads(keyed(s), km, Ok::<K, DatomFault>(k)) && km.resumes(keyed(s)) && V::reads(
                after_key(km),
                inner,
                Err::<V, DatomFault>(f),
            ) && inner.resumes(after_key(km))
    }
}

/// The map of the first `n` entries read, later keys replacing earlier ones.
pub open spec fn inserted<K, V>(keys: Seq<K>, vals: Seq<V>, n: int) -> Map<K, V>
    decreases n,
{
    if n <= 0 {
        Map::empty()
    } else {
        inserted(keys, vals, n - 1).insert(keys[n - 1], vals[n - 1])
    }
}

/// The map of all entries read, later keys replacing earlier ones.
pub open spec fn inserted_all<K, V>(keys: Seq<K>, vals: Seq<V>) -> Map<K, V> {
    inserted(keys, vals, keys.len() as int)
}

/// Reading the entries of a map context from `start` ended in `inner`
/// with `ir`: entries up to the closing bracket, collected with later keys
/// replacing earlier ones, or the refusal of the first entry that failed.
pub open spec fn entries_read<K: DatomDecode + Ord, V: DatomDecode>(
    start: DecodeState,
    inner: DecodeState,
    ir: Result<BTreeMap<K, V>, DatomFault>,
) -> bool {
    exists|states: Seq<DecodeState>, keys: Seq<K>, vals: Seq<V>|
        #![trigger entries_trace(start, states, keys, vals)]
        entries_trace(start, states, keys, vals) && match ir {
            Ok(m) => at_terminator_at(
                states.last().text,
                states.last().at,
                ProtosShape::SquareBracketDelimited,
            ) && inner == skipped(states.last()) && (obeys_cmp::<K>() ==> m@ == inserted_all(
                keys,
                vals,
            )) && (keys.len() == 0 ==> m@ == Map::<K, V>::empty()),
            Err(f) => entry_failed::<K, V>(states.last(), inner, f),
        }
}

/// Read one key of `K` in the current map-key context.
fn read_key<K: DatomDecode>(walk: &mut DecodeWalk<'_>) -> (r: Result<K, DatomError>)
    requires
        old(walk).wf(),
    ensures
        final(walk).wf(),
        final(walk)@.resumes(old(walk)@),
        r is Ok ==> old(walk)@.at < final(walk)@.at,
        exists|mid: DecodeState|
            #![trigger K::reads(old(walk)@, mid, outcome(r))]
            K::reads(old(walk)@, mid, outcome(r)) && mid.resumes(old(walk)@) && final(walk)@ == (
            if r is Ok {
                mid.advanced()
            } else {
                mid
            }),
{
    let r = walk.value::<K>();
    proof {
        broadcast use crate::codec::lemma_resumes_trans;

        let mid = choose|mid: DecodeState|
            #![trigger K::reads(old(walk)@, mid, outcome(r))]
            K::reads(old(walk)@, mid, outcome(r)) && mid.resumes(old(walk)@) && walk@ == (
            if r is Ok {
                mid.advanced()
            } else {
                mid
            });
        crate::codec::lemma_advanced_resumes(mid);
    }
    r
}

/// Read `key.value` entries until the closing bracket of the current context.
fn read_entries<K: DatomDecode + Ord, V: DatomDecode>(walk: &mut DecodeWalk<'_>) -> (r: Result<
    BTreeMap<K, V>,
    DatomError,
>)
    requires
        old(walk).wf(),
    ensures
        final(walk).wf(),
        final(walk)@.resumes(old(walk)@),
        entries_read::<K, V>(old(walk)@, final(walk)@, outcome(r)),
{
    let ghost start = walk@;
    let mut entries: BTreeMap<K, V> = BTreeMap::new();
    let ghost mut states: Seq<DecodeState> = seq![walk@];
    let ghost mut keys: Seq<K> = Seq::empty();
    let ghost mut vals: Seq<V> = Seq::empty();
    proof {
        crate::codec::lemma_resumes_refl(start);
    }
    loop
        invariant
            walk.wf(),
            start == old(walk)@,
            walk@.resumes(start),
            entries_trace(start, states, keys, vals),
            walk@ == states.last(),
            obeys_cmp::<K>() ==> entries@ == inserted_all(keys, vals),
            keys.len() == 0 ==> entries@ == Map::<K, V>::empty(),
        decreases walk@.text.len() - walk@.at,
    {
        proof {
            walk.lemma_cursor();
        }
        let ghost before = walk@;
        if walk.at_terminator(ProtosShape::SquareBracketDelimited) {
            proof {
                broadcast use crate::codec::lemma_resumes_trans;

            }
            let r: Result<BTreeMap<K, V>, DatomError> = Ok(entries);
            assert(entries_read::<K, V>(start, walk@, outcome(r)));
            return r;
        }
        let ghost st = walk@;
        let key_read = walk.dotted_key(read_key::<K>);
        let ghost after_key_state = walk@;
        let ghost kr = outcome(key_read);
        let key = match key_read {
            Ok(k) => k,
            Err(e) => {
                proof {
                    broadcast use crate::codec::lemma_resumes_trans;

                    assert(st == skipped(before));
                    assert(keyed(before) == st.entered(ContextName::DottedKey, None));
                    assert(kr == Err::<K, DatomFault>(e@));
                }
                let r: Result<BTreeMap<K, V>, DatomError> = Err(e);
                assert(entry_failed::<K, V>(before, walk@, outcome(r)->Err_0));
                assert(entries_read::<K, V>(start, walk@, outcome(r)));
                return r;
            },
        };
        let value_read = walk.value::<V>();
        let ghost vr = outcome(value_read);
        let value = match value_read {
            Ok(v) => v,
            Err(e) => {
                proof {
                    broadcast use crate::codec::lemma_resumes_trans;

                    assert(st == skipped(before));
                    assert(keyed(before) == st.entered(ContextName::DottedKey, None));
                    assert(kr == Ok::<K, DatomFault>(key));
                    assert(vr == Err::<V, DatomFault>(e@));
                }
                let r: Result<BTreeMap<K, V>, DatomError> = Err(e);
                assert(entry_failed::<K, V>(before, walk@, outcome(r)->Err_0));
                assert(entries_read::<K, V>(start, walk@, outcome(r)));
                return r;
            },
        };
        proof {
            broadcast use crate::codec::lemma_resumes_trans;

            assert(st == skipped(before));
            let vm = choose|vm: DecodeState|
                #![trigger V::reads(after_key_state, vm, outcome(value_read))]
                V::reads(after_key_state, vm, outcome(value_read)) && vm.resumes(after_key_state)
                    && walk@ == vm.advanced();
            crate::codec::lemma_advanced_resumes(vm);
            assert(keyed(before) == st.entered(ContextName::DottedKey, None));
            assert(kr == Ok::<K, DatomFault>(key));
            assert(vr == Ok::<V, DatomFault>(value));
            assert(exists|km: DecodeState|
                #![trigger K::reads(keyed(before), km, kr)]
                K::reads(keyed(before), km, kr) && km.resumes(keyed(before)) && after_key_state
                    == after_key(km));
            let km = choose|km: DecodeState|
                #![trigger K::reads(keyed(before), km, kr)]
                K::reads(keyed(before), km, kr) && km.resumes(keyed(before)) && after_key_state
                    == after_key(km);
            assert(V::reads(after_key(km), vm, Ok::<V, DatomFault>(value)));
            assert(entry_step(before, key, value, walk@));
            let old_states = states;
            let old_keys = keys;
            let old_vals = vals;
            states = states.push(walk@);
            keys = keys.push(key);
            vals = vals.push(value);
            assert forall|i: int| 0 <= i < keys.len() implies entry_step(
                #[trigger] states[i],
                keys[i],
                vals[i],
                states[i + 1],
            ) by {
                if i < keys.len() - 1 {
                    assert(states[i] == old_states[i]);
                    assert(states[i + 1] == old_states[i + 1]);
                }
            }
            lemma_inserted_push(old_keys, old_vals, key, value);
        }
        entries.insert(key, value);
        proof {
            walk.lemma_cursor();
        }
    }
}

/// The map of the first `n` entries depends only on those entries.
proof fn lemma_inserted_prefix<K, V>(keys: Seq<K>, vals: Seq<V>, n: int)
    requires
        0 <= n < keys.len(),
        keys.len() == vals.len(),
    ensures
        inserted(keys, vals, n) == inserted(keys.drop_last(), vals.drop_last(), n),
    decreases n,
{
    if n > 0 {
        lemma_inserted_prefix(keys, vals, n - 1);
    }
}

/// One more entry read inserts it into the map of those read before.
proof fn lemma_inserted_push<K, V>(keys: Seq<K>, vals: Seq<V>, k: K, v: V)
    requires
        keys.len() == vals.len(),
    ensures
        inserted_all(keys.push(k), vals.push(v)) == inserted_all(keys, vals).insert(k, v),
{
    let n = keys.len() as int;
    assert(keys.push(k).drop_last() =~= keys);
    assert(vals.push(v).drop_last() =~= vals);
    lemma_inserted_prefix(keys.push(k), vals.push(v), n);
}

impl<K: DatomDecode + Ord, V: DatomDecode> DatomDecode for BTreeMap<K, V> {
    open spec fn reads(before: DecodeState, after: DecodeState, result: Result<BTreeMap<K, V>, DatomFault>) -> bool {
        let entered = before.entered(
            ContextName::Mapping,
            Some(ProtosShape::SquareBracketDelimited),
        );
        match named_shape_at(before.text, before.at, "Map"@, ProtosShape::DotBracketed) {
            Err(f) => result == Err::<BTreeMap<K, V>, DatomFault>(f) && after.left(entered),
            Ok(k) => exists|inner: DecodeState, ir: Result<BTreeMap<K, V>, DatomFault>|
                #![trigger entries_read(entered.moved(k), inner, ir)]
                entries_read(entered.moved(k), inner, ir) && inner.resumes(entered.moved(k))
                    && concluded_read(
                    inner,
                    Some(ProtosShape::SquareBracketDelimited),
                    ir,
                    result,
                    after,
                ),
        }
    }

    fn decode(walk: &mut DecodeWalk<'_>) -> (r: Result<Self, DatomError>) {
        proof {
            walk.lemma_cursor();
            lemma_named_shape_advances(walk@.text, walk@.at, "Map"@, ProtosShape::DotBracketed);
        }
        walk.map(read_entries::<K, V>)
    }
}

/// The comparison of `K` obeys the laws of a total order, on which the
/// order and the contents of a `BTreeMap` rest.
pub open spec fn keys_lawful<K: Ord>() -> bool {
    obeys_cmp::<K>()
}

/// `entries` lists the pairs of `m` once each, by increasing key.
pub open spec fn in_key_order<K: Ord, V>(m: Map<K, V>, entries: Seq<(K, V)>) -> bool {
    &&& entries.len() == m.len()
    &&& forall|i: int|
        0 <= i < entries.len() ==> #[trigger] m.contains_pair(entries[i].0, entries[i].1)
    &&& forall|k: K|
        #[trigger] m.contains_key(k) ==> exists|i: int| 0 <= i < entries.len() && entries[i].0 == k
    &&& forall|i: int, j: int|
        #![trigger entries[i], entries[j]]
        0 <= i < j < entries.len() ==> entries[i].0.cmp_spec(&entries[j].0) is Less
            && entries[i].0 != entries[j].0
}

/// `states` trace the first `states.len() - 1` of `entries` written one
/// after another from `start`.
pub open spec fn entry_writes_trace<K: DatomEncode, V: DatomEncode>(
    start: EncodeState,
    states: Seq<EncodeState>,
    entries: Seq<(K, V)>,
) -> bool {
    &&& 1 <= states.len() <= entries.len() + 1
    &&& states[0] == start
    &&& forall|i: int|
        0 <= i < states.len() - 1 ==> entry_written(
            entries[i].0,
            entries[i].1,
            #[trigger] states[i],
            states[i + 1],
            Ok::<(), DatomFault>(()),
        )
}

/// Writing `entries` one after another from `start` ended in `inner` with
/// `ir`: all of them, or up to the first one that was refused.
pub open spec fn entries_written<K: DatomEncode, V: DatomEncode>(
    start: EncodeState,
    entries: Seq<(K, V)>,
    inner: EncodeState,
    ir: Result<(), DatomFault>,
) -> bool {
    exists|states: Seq<EncodeState>|
        #![trigger entry_writes_trace(start, states, entries)]
        entry_writes_trace(start, states, entries) && match ir {
            Ok(_) => states.len() == entries.len() + 1 && inner == states.last(),
            Err(f) => states.len() <= entries.len() && entry_written(
                entries[states.len() - 1].0,
                entries[states.len() - 1].1,
                states.last(),
                inner,
                Err::<(), DatomFault>(f),
            ),
        }
}

/// A trace of the first entries of `entries` is one of any listing that
/// begins with them.
proof fn lemma_trace_extends<K: DatomEncode, V: DatomEncode>(
    start: EncodeState,
    states: Seq<EncodeState>,
    entries: Seq<(K, V)>,
    listing: Seq<(K, V)>,
)
    requires
        entry_writes_trace(start, states, entries),
        entries.len() <= listing.len(),
        entries == listing.take(entries.len() as int),
    ensures
        entry_writes_trace(start, states, listing),
{
    assert forall|i: int| 0 <= i < states.len() - 1 implies entry_written(
        listing[i].0,
        listing[i].1,
        #[trigger] states[i],
        states[i + 1],
        Ok::<(), DatomFault>(()),
    ) by {
        assert(listing[i] == entries[i]);
    }
}

/// The pairs that a map of lawfully ordered keys yields, by increasing key
/// and each of its pairs once, list it in key order.
proof fn lemma_listing_in_key_order<K: Ord, V>(m: Map<K, V>, pairs: Seq<(&K, &V)>)
    requires
        keys_lawful::<K>(),
        increasing_seq(pairs.map_values(|kv: (&K, &V)| *kv.0)),
        pairs.len() == m.dom().len(),
        forall|i: int|
            0 <= i < pairs.len() ==> #[trigger] m.contains_key(*pairs[i].0) && m[*pairs[i].0]
                == *pairs[i].1,
        forall|k: K| #[trigger] m.contains_key(k) ==> pairs.contains((&k, &m[k])),
    ensures
        in_key_order(m, pairs.unref()),
{
    broadcast use vstd::std_specs::btree::group_btree_axioms;

    let keys = pairs.map_values(|kv: (&K, &V)| *kv.0);
    let listing = pairs.unref();
    assert forall|i: int, j: int| #![trigger listing[i], listing[j]] 0 <= i < j < listing.len() implies
        listing[i].0.cmp_spec(&listing[j].0) is Less && listing[i].0 != listing[j].0 by {
        assert(keys[i] == listing[i].0);
        assert(keys[j] == listing[j].0);
        if listing[i].0 == listing[j].0 {
            let x = listing[i].0;
            reveal(vstd::laws_cmp::obeys_cmp_ord);
            reveal(vstd::laws_cmp::obeys_partial_cmp_spec_properties);
            assert(x.partial_cmp_spec(&x) == Some(x.cmp_spec(&x)));
        }
    }
    assert forall|k: K| #[trigger] m.contains_key(k) implies exists|i: int|
        0 <= i < listing.len() && listing[i].0 == k by {
        let i = choose|i: int| 0 <= i < pairs.len() && pairs[i] == (&k, &m[k]);
        assert(listing[i].0 == k);
    }
    assert forall|i: int| 0 <= i < listing.len() implies #[trigger] m.contains_pair(
        listing[i].0,
        listing[i].1,
    ) by {
        assert(m.contains_key(*pairs[i].0));
    }
}

/// Take the next item of `it`: the first of those it has yet to yield.
fn next_item<I: Iterator>(it: &mut I) -> (r: Option<I::Item>)
    ensures
        (*final(it)).obeys_prophetic_iter_laws() == (*old(it)).obeys_prophetic_iter_laws(),
        (*old(it)).obeys_prophetic_iter_laws() ==> if (*old(it)).remaining().len() > 0 {
            &&& (*final(it)).remaining() == (*old(it)).remaining().drop_first()
            &&& r == Some((*old(it)).remaining()[0])
        } else {
            r is None
        },
{
    it.next()
}

/// Write the entries of `map` in the current map context, in the order in
/// which the map yields them.
fn write_entries<K: DatomEncode + Ord, V: DatomEncode>(
    walk: &mut EncodeWalk,
    map: &BTreeMap<K, V>,
) -> (r: Result<(), DatomError>)
    requires
        old(walk).wf(),
    ensures
        final(walk).wf(),
        final(walk)@.resumes(old(walk)@),
        exists|entries: Seq<(K, V)>|
            #![trigger entries_written(old(walk)@, entries, final(walk)@, outcome(r))]
            (keys_lawful::<K>() ==> in_key_order(map@, entries)) && (map@.is_empty() ==> entries.len()
                == 0) && entries_written(old(walk)@, entries, final(walk)@, outcome(r)),
{
    broadcast use vstd::std_specs::btree::group_btree_axioms;

    let ghost start = walk@;
    if map.is_empty() {
        proof {
            lemma_resumes_write_refl(start);
            let states0: Seq<EncodeState> = seq![start];
            assert(entry_writes_trace(start, states0, Seq::<(K, V)>::empty()));
            assert(entries_written(start, Seq::<(K, V)>::empty(), walk@, Ok::<(), DatomFault>(())));
            if keys_lawful::<K>() {
                assert(in_key_order(map@, Seq::<(K, V)>::empty()));
            }
        }
        return Ok(());
    }
    let n = map.len();
    let mut it: btree_map::Iter<'_, K, V> = map.iter();
    let ghost listing: Seq<(K, V)> = it.remaining().unref();
    let ghost mut seen: Seq<(K, V)> = Seq::empty();
    let ghost mut states: Seq<EncodeState> = seq![walk@];
    proof {
        lemma_resumes_write_refl(start);
        if keys_lawful::<K>() {
            lemma_listing_in_key_order(map@, it.remaining());
        }
    }
    let mut i: usize = 0;
    while i < n
        invariant
            walk.wf(),
            start == old(walk)@,
            walk@.resumes(start),
            i <= n,
            seen.len() == i,
            states.len() == i + 1,
            !map@.is_empty(),
            entry_writes_trace(start, states, seen),
            walk@ == states.last(),
            keys_lawful::<K>() ==> {
                &&& in_key_order(map@, listing)
                &&& n == listing.len()
                &&& seen == listing.take(i as int)
                &&& it.remaining().unref() == listing.skip(i as int)
            },
        decreases n - i,
    {
        let ghost rem = it.remaining();
        let next = next_item(&mut it);
        match next {
            Some((k, v)) => {
                proof {
                    if keys_lawful::<K>() {
                        assert(rem.unref()[0] == listing.skip(i as int)[0]);
                        assert((*k, *v) == listing[i as int]);
                    }
                }
                let ghost before = walk@;
                let written = walk.map_entry(k, v);
                proof {
                    broadcast use crate::codec::lemma_write_resumes_trans;

                    let old_seen = seen;
                    seen = seen.push((*k, *v));
                    if keys_lawful::<K>() {
                        assert(seen =~= listing.take(i + 1));
                    }
                    assert forall|j: int| 0 <= j < states.len() - 1 implies entry_written(
                        seen[j].0,
                        seen[j].1,
                        #[trigger] states[j],
                        states[j + 1],
                        Ok::<(), DatomFault>(()),
                    ) by {
                        assert(seen[j] == old_seen[j]);
                    }
                }
                match written {
                    Ok(()) => {
                        proof {
                            let old_states = states;
                            states = states.push(walk@);
                            assert forall|j: int| 0 <= j < states.len() - 1 implies entry_written(
                                seen[j].0,
                                seen[j].1,
                                #[trigger] states[j],
                                states[j + 1],
                                Ok::<(), DatomFault>(()),
                            ) by {
                                if j < old_states.len() - 1 {
                                    assert(states[j] == old_states[j]);
                                    assert(states[j + 1] == old_states[j + 1]);
                                }
                            }
                            if keys_lawful::<K>() {
                                assert(it.remaining() == rem.drop_first());
                                assert(it.remaining().unref() =~= rem.unref().drop_first());
                                assert(it.remaining().unref() =~= listing.skip(i + 1));
                            }
                        }
                        i = i + 1;
                    },
                    Err(e) => {
                        let r: Result<(), DatomError> = Err(e);
                        proof {
                            assert(entry_writes_trace(start, states, seen));
                            assert(seen[seen.len() - 1] == (*k, *v));
                            assert(entries_written(start, seen, walk@, outcome(r)));
                            if keys_lawful::<K>() {
                                lemma_trace_extends(start, states, seen, listing);
                                assert(entries_written(start, listing, walk@, outcome(r)));
                            }
                        }
                        return r;
                    },
                }
            },
            None => {
                let r: Result<(), DatomError> = Ok(());
                assert(entries_written(start, seen, walk@, outcome(r)));
                return r;
            },
        }
    }
    let r: Result<(), DatomError> = Ok(());
    proof {
        assert(entries_written(start, seen, walk@, outcome(r)));
        if keys_lawful::<K>() {
            assert(seen =~= listing);
        }
    }
    r
}

impl<K: DatomEncode + Ord, V: DatomEncode> DatomEncode for BTreeMap<K, V> {
    open spec fn writes(&self, before: EncodeState, after: EncodeState, result: Result<(), DatomFault>) -> bool {
        let entered = before.entered(ContextName::Mapping, Some(ProtosShape::SquareBracketDelimited))
            .wrote("Map.["@);
        exists|entries: Seq<(K, V)>, inner: EncodeState, ir: Result<(), DatomFault>|
            #![trigger entries_written(entered, entries, inner, ir)]
            (keys_lawful::<K>() ==> in_key_order(self@, entries)) && (self@.is_empty() ==> entries.len()
                == 0) && entries_written(
                entered,
                entries,
                inner,
                ir,
            ) && inner.resumes(entered) && result == ir && after == (if ir is Ok {
                inner.wrote(seq![']'])
            } else {
                inner
            }).closed()
    }

    fn encode(&self, walk: &mut EncodeWalk) -> (r: Result<(), DatomError>) {
        walk.map(
            (|walk: &mut EncodeWalk| -> (r: Result<(), DatomError>)
                requires
                    old(walk).wf(),
                ensures
                    final(walk).wf(),
                    final(walk)@.resumes(old(walk)@),
                    exists|entries: Seq<(K, V)>|
                        #![trigger entries_written(old(walk)@, entries, final(walk)@, outcome(r))]
                        (keys_lawful::<K>() ==> in_key_order(self@, entries)) && (self@.is_empty()
                            ==> entries.len() == 0) && entries_written(
                            old(walk)@,
                            entries,
                            final(walk)@,
                            outcome(r),
                        ),
                { write_entries(walk, self) }),
        )
    }
}

/// Two listings in key order of maps with the same keys list the same keys
/// at the same places.
pub proof fn lemma_key_order_unique<K: Ord, V, W>(
    a: Map<K, V>,
    ea: Seq<(K, V)>,
    b: Map<K, W>,
    eb: Seq<(K, W)>,
)
    requires
        keys_lawful::<K>(),
        a.dom() == b.dom(),
        in_key_order(a, ea),
        in_key_order(b, eb),
    ensures
        ea.len() == eb.len(),
        forall|i: int| 0 <= i < ea.len() ==> (#[trigger] ea[i]).0 == eb[i].0,
{
    assert(ea.len() == eb.len());
    assert forall|i: int| 0 <= i < ea.len() implies (#[trigger] ea[i]).0 == eb[i].0 by {
        lemma_key_order_agrees_at(a, ea, b, eb, i);
    }
}

/// Two listings in key order of maps with the same keys agree at `i` when
/// they agree before it.
proof fn lemma_key_order_agrees_at<K: Ord, V, W>(
    a: Map<K, V>,
    ea: Seq<(K, V)>,
    b: Map<K, W>,
    eb: Seq<(K, W)>,
    i: int,
)
    requires
        keys_lawful::<K>(),
        a.dom() == b.dom(),
        in_key_order(a, ea),
        in_key_order(b, eb),
        ea.len() == eb.len(),
        0 <= i < ea.len(),
    ensures
        ea[i].0 == eb[i].0,
    decreases i,
{
    if i > 0 {
        lemma_key_order_agrees_at(a, ea, b, eb, i - 1);
    }
    assert forall|j: int| 0 <= j < i implies ea[j].0 == eb[j].0 by {
        lemma_key_order_agrees_at(a, ea, b, eb, j);
    }
    let x = ea[i].0;
    let y = eb[i].0;
    if x != y {
        assert(a.contains_pair(ea[i].0, ea[i].1));
        assert(b.contains_key(x));
        let j = choose|j: int| 0 <= j < eb.len() && eb[j].0 == x;
        assert(b.contains_pair(eb[i].0, eb[i].1));
        assert(a.contains_key(y));
        let k = choose|k: int| 0 <= k < ea.len() && ea[k].0 == y;
        if j < i {
            assert(ea[j].0 == eb[j].0);
            assert(ea[j].0 != ea[i].0);
        }
        if k < i {
            assert(ea[k].0 == eb[k].0);
            assert(eb[k].0 != eb[i].0);
        }
        assert(j > i && k > i);
        assert(eb[i].0.cmp_spec(&eb[j].0) is Less);
        assert(ea[i].0.cmp_spec(&ea[k].0) is Less);
        reveal(vstd::laws_cmp::obeys_cmp_ord);
        reveal(vstd::laws_cmp::obeys_partial_cmp_spec_properties);
        assert(x.partial_cmp_spec(&y) == Some(x.cmp_spec(&y)));
        assert(y.partial_cmp_spec(&x) == Some(y.cmp_spec(&x)));
    }
}

} // verus!
