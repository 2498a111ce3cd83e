//! Meaning, the parenthesized shape, is recognized and refused wherever a
//! value of the library's types is read: its shape is not yet ruled.

use std::collections::BTreeMap;

use vstd::prelude::*;

use crate::codec::{DatomDecode, DatomRecord, DecodeState};
use crate::expectation::{ProtosShape, shape_is_parenthesized};
use crate::parser::{DatomFault, probe_at};
use crate::round_trip::in_key;
use crate::scalars::integer_reads;

verus! {

/// Whether a parenthesized shape, the reserved shape of Meaning, is met at
/// the cursor of `st`.  Inside a map key that is a parenthesis itself: in
/// `k.(…)` the key is `k`, and the parenthesis stands where the value does.
pub open spec fn meets_meaning(st: DecodeState) -> bool {
    probe_at(st.text, st.at) matches Ok((shape, _)) && if in_key(st) {
        shape == ProtosShape::ParenthesisDelimited
    } else {
        shape_is_parenthesized(shape)
    }
}

/// The refusal that Meaning receives: its shape is not yet ruled.
pub open spec fn refuses_meaning<T>(r: Result<T, DatomFault>) -> bool {
    r == Err::<T, DatomFault>(DatomFault::ShapeNotYetRuled { shape: ProtosShape::ParenthesisDelimited })
}

/// A string read refuses Meaning, in a map key too.
pub proof fn law_string_refuses_meaning(db: DecodeState, da: DecodeState, r: Result<String, DatomFault>)
    requires
        meets_meaning(db),
        String::reads(db, da, r),
    ensures
        refuses_meaning(r),
{
}

/// A boolean read refuses Meaning, in a map key too.
pub proof fn law_bool_refuses_meaning(db: DecodeState, da: DecodeState, r: Result<bool, DatomFault>)
    requires
        meets_meaning(db),
        bool::reads(db, da, r),
    ensures
        refuses_meaning(r),
{
}

/// An integer read refuses Meaning, in a map key too, whatever the range
/// of its integer context.
pub proof fn law_integer_refuses_meaning(
    db: DecodeState,
    da: DecodeState,
    r: Result<int, DatomFault>,
    name: &'static str,
    signed: bool,
    min: int,
    max: int,
)
    requires
        meets_meaning(db),
        integer_reads(db, da, r, name, signed, min, max),
    ensures
        refuses_meaning(r),
{
}

/// An optional value read refuses Meaning.
pub proof fn law_option_refuses_meaning<T: DatomDecode>(
    db: DecodeState,
    da: DecodeState,
    r: Result<Option<T>, DatomFault>,
)
    requires
        meets_meaning(db),
        Option::<T>::reads(db, da, r),
    ensures
        refuses_meaning(r),
{
}

/// A vector refuses Meaning where a parenthesis opens.
pub proof fn law_vec_refuses_meaning<T: DatomDecode>(
    db: DecodeState,
    da: DecodeState,
    r: Result<Vec<T>, DatomFault>,
)
    requires
        probe_at(db.text, db.at) matches Ok((shape, _)) && shape == ProtosShape::ParenthesisDelimited,
        Vec::<T>::reads(db, da, r),
    ensures
        refuses_meaning(r),
{
}

/// A map refuses Meaning.
pub proof fn law_map_refuses_meaning<K: DatomDecode + Ord, V: DatomDecode>(
    db: DecodeState,
    da: DecodeState,
    r: Result<BTreeMap<K, V>, DatomFault>,
)
    requires
        meets_meaning(db),
        BTreeMap::<K, V>::reads(db, da, r),
    ensures
        refuses_meaning(r),
{
}

/// A record refuses Meaning.
pub proof fn law_record_refuses_meaning<R: DatomRecord>(
    db: DecodeState,
    da: DecodeState,
    r: Result<R, DatomFault>,
)
    requires
        meets_meaning(db),
        <R as DatomDecode>::reads(db, da, r),
    ensures
        refuses_meaning(r),
{
}

} // verus!
