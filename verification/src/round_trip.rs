//! What the two halves of the codec promise of each other: a value
//! written where a value stands reads back as that value.

use std::collections::BTreeMap;

use vstd::prelude::*;
use vstd::relations::injective;
use vstd::std_specs::btree::spec_btree_map_len;

use crate::codec::{
    ContextName, DatomDecode, DatomEncode, DatomRecord, DecodeState, EncodeState, bare_at,
    concluded_read, document_read, entry_written,
};
use crate::collections::{
    element_step, elements_read, elements_trace, elements_written, option_interior,
    option_written, skipped, some_read, write_step, writes_trace,
};
use crate::decimal::{decimal_text, digits_of, is_digit, lemma_decimal_round_trip, lemma_digits_of};
use crate::expectation::{ProtosShape, shape_is_dotted, shape_is_parenthesized};
use crate::indentation::strip_indentation;
use crate::lexis::{
    is_angle, is_bare_boundary, is_ws, lemma_skip_trivia_none, skip_trivia, skip_ws,
};
use crate::maps::{
    after_key, entries_read, entries_trace, entries_written, entry_failed, entry_step,
    entry_writes_trace, in_key_order, inserted, inserted_all, keyed, keys_lawful,
};
use crate::parser::{
    DatomFault, at_terminator_at, dot_at, dotted_shape_at, find_dot, finish_at, head_dot_at,
    lemma_scan_symbol_bounds, named_shape_at, opener_at, probe_at, scan_bare, scan_legacy,
    scan_symbol, take_bare_at, trivia_at, unescaped,
};
use crate::pretty::{escape_char, escaped, is_bare_char, is_bare_text, string_text};
use crate::scalars::{
    bool_interior, bool_text, integer_interior, scalar_entered, scalar_read, string_interior,
};

verus! {


/// A run of bare characters from `k` that ends at `e`, at the end of the
/// source or before a boundary, scans as one symbol and as one bare symbol.
proof fn lemma_symbol_run(s: Seq<char>, k: int, e: int)
    requires
        0 <= k <= e <= s.len(),
        forall|m: int| k <= m < e ==> is_bare_char(#[trigger] s[m]),
        e == s.len() || is_bare_boundary(s[e]),
    ensures
        scan_symbol(s, k) == Ok::<int, DatomFault>(e),
        scan_bare(s, k, false) == Ok::<int, DatomFault>(e),
        scan_bare(s, k, true) == Ok::<int, DatomFault>(e),
    decreases e - k,
{
    if k < e {
        lemma_symbol_run(s, k + 1, e);
    }
}

/// Bare text holds no dot.
proof fn lemma_no_dot(t: Seq<char>, k: int)
    requires
        0 <= k,
        forall|m: int| k <= m < t.len() ==> is_bare_char(#[trigger] t[m]),
    ensures
        find_dot(t, k) is None,
    decreases t.len() - k,
{
    if k < t.len() {
        lemma_no_dot(t, k + 1);
    }
}

/// Escaped text inside a legacy string reads back as the text itself.
proof fn lemma_scan_escaped(s: Seq<char>, k: int, t: Seq<char>, acc: Seq<char>)
    requires
        0 <= k,
        k + escaped(t).len() <= s.len(),
        s.subrange(k, k + escaped(t).len()) == escaped(t),
    ensures
        scan_legacy(s, k, 1, acc) == scan_legacy(s, k + escaped(t).len(), 1, acc + t),
    decreases t.len(),
{
    if t.len() == 0 {
        assert(acc + t =~= acc);
    } else {
        let front = t.drop_last();
        let c = t.last();
        let m = k + escaped(front).len();
        assert(escaped(t) == escaped(front) + escape_char(c));
        assert(s.subrange(k, m) =~= escaped(front)) by {
            assert(s.subrange(k, m) =~= s.subrange(k, k + escaped(t).len()).subrange(0, escaped(front).len() as int));
        }
        lemma_scan_escaped(s, k, front, acc);
        assert(s.subrange(m, m + escape_char(c).len()) =~= escape_char(c)) by {
            assert(s.subrange(m, m + escape_char(c).len()) =~= s.subrange(k, k + escaped(t).len()).subrange(
                escaped(front).len() as int,
                escaped(t).len() as int,
            ));
        }
        assert(s[m] == escape_char(c)[0]);
        if escape_char(c).len() == 2 {
            assert(s[m + 1] == escape_char(c)[1]);
            assert(unescaped(s[m + 1]) == Some(c));
        }
        assert((acc + front).push(c) =~= acc + t);
    }
}

/// The decimal text of an integer holds only bare characters.
proof fn lemma_decimal_bare(v: int)
    ensures
        decimal_text(v).len() > 0,
        forall|m: int| 0 <= m < decimal_text(v).len() ==> is_bare_char(#[trigger] decimal_text(v)[m]),
{
    let t = decimal_text(v);
    if v < 0 {
        lemma_digits_of((-v) as nat);
        let d = digits_of((-v) as nat);
        assert forall|m: int| 0 <= m < t.len() implies is_bare_char(#[trigger] t[m]) by {
            if m > 0 {
                assert(t[m] == d[m - 1]);
                assert(is_digit(d[m - 1]));
            }
        }
    } else {
        lemma_digits_of(v as nat);
        let d = digits_of(v as nat);
        assert forall|m: int| 0 <= m < t.len() implies is_bare_char(#[trigger] t[m]) by {
            assert(is_digit(d[m]));
        }
    }
}

/// The text that a writing walk wrote between the states `before` and `after`.
pub open spec fn written_between(before: EncodeState, after: EncodeState) -> Seq<char> {
    after.output.subrange(before.output.len() as int, after.output.len() as int)
}

/// Whether the innermost open context of a reading walk is a map key.
pub open spec fn in_key(st: DecodeState) -> bool {
    st.frames.len() > 0 && st.frames.last().context == ContextName::DottedKey
}

/// Whether a reading walk meets the text `w` at its cursor, followed by
/// what follows a value there: inside a map key the dot, glued to the text
/// that follows it; elsewhere a boundary or the end of the source.
pub open spec fn meets(st: DecodeState, w: Seq<char>) -> bool {
    let e = st.at + w.len();
    &&& 0 <= st.at
    &&& e <= st.text.len()
    &&& st.text.subrange(st.at, e) == w
    &&& if in_key(st) {
        e < st.text.len() && st.text[e] == '.' && !trivia_at(st.text, e + 1)
    } else {
        e == st.text.len() || is_bare_boundary(st.text[e])
    }
}

/// Where reading the text `w` met at the cursor of `st` ends: just after
/// it, and after the dot that ends a map key.
pub open spec fn read_end(st: DecodeState, w: Seq<char>) -> int {
    if in_key(st) {
        st.at + w.len() + 1
    } else {
        st.at + w.len()
    }
}

/// Whether written text opens cleanly: it is not empty, it begins with
/// neither trivia nor a parenthesis nor a character that closes a context,
/// and no angle bracket stands in it before its first boundary.
pub open spec fn opens_cleanly(w: Seq<char>) -> bool {
    &&& w.len() > 0
    &&& !is_ws(w[0])
    &&& w[0] != ';'
    &&& w[0] != '('
    &&& w[0] != ']'
    &&& w[0] != '}'
    &&& w[0] != '”'
    &&& w[0] != ')'
    &&& w[0] != '.'
    &&& scan_symbol(w, 0) is Ok
}

/// `v` is read from its written text `w` in contexts that are map keys when
/// `key` and others when not: `w` opens cleanly, and a reading walk in such
/// a context that meets `w` reads a value of the same deep view from it,
/// ends where `w` does, and leaves its open contexts as they were.
#[verifier::opaque]
pub open spec fn read_from<T: DatomDecode + DeepView>(v: T, key: bool, w: Seq<char>) -> bool {
    &&& opens_cleanly(w)
    &&& forall|db: DecodeState, da: DecodeState, r: Result<T, DatomFault>|
        #![trigger T::reads(db, da, r)]
        in_key(db) == key && meets(db, w) && T::reads(db, da, r) && da.resumes(db) ==> {
            &&& r matches Ok(x) && x.deep_view() == v.deep_view()
            &&& da.at == read_end(db, w)
            &&& da.frames == db.frames
        }
}

/// `v` reads back in contexts that are map keys when `key` and others when
/// not: whatever it writes is written without refusal, leaves the open
/// contexts as they were, and is read back as `v` in such a context.
#[verifier::opaque]
pub open spec fn reads_back<T: DatomDecode + DatomEncode + DeepView>(v: T, key: bool) -> bool {
    forall|eb: EncodeState, ea: EncodeState, res: Result<(), DatomFault>|
        #![trigger v.writes(eb, ea, res)]
        v.writes(eb, ea, res) && ea.resumes(eb) ==> {
            &&& res is Ok
            &&& ea.frames == eb.frames
            &&& read_from(v, key, written_between(eb, ea))
        }
}

/// What a walk wrote after `before` is what it appended.
proof fn lemma_written_between(before: EncodeState, after: EncodeState, t: Seq<char>)
    requires
        after.output == before.output + t,
    ensures
        written_between(before, after) == t,
{
    assert(after.output.subrange(before.output.len() as int, after.output.len() as int) =~= t);
}

/// Bare text opens cleanly.
proof fn lemma_bare_opens_cleanly(w: Seq<char>)
    requires
        is_bare_text(w),
    ensures
        opens_cleanly(w),
{
    lemma_symbol_run(w, 0, w.len() as int);
}

/// The text a string is written as opens cleanly.
proof fn lemma_string_opens_cleanly(v: Seq<char>)
    ensures
        opens_cleanly(string_text(v)),
{
    if is_bare_text(v) {
        lemma_bare_opens_cleanly(v);
    } else {
        assert(string_text(v)[0] == '“');
    }
}

/// A bare text met at the cursor of a scalar context is read whole: up to
/// its boundary, or to the dot of a map key, which is then consumed.
proof fn lemma_bare_read(db: DecodeState, w: Seq<char>, name: &'static str)
    requires
        is_bare_text(w),
        meets(db, w),
    ensures
        bare_at(scalar_entered(db, name)) == Ok::<(int, int), DatomFault>((db.at, db.at + w.len())),
        db.text.subrange(db.at, db.at + w.len()) == w,
        skip_trivia(db.text, db.at) == db.at,
        !in_key(db) ==> probe_at(db.text, db.at) == Ok::<(ProtosShape, Option<Seq<char>>), DatomFault>(
            (ProtosShape::BareSymbol, Some(w)),
        ),
        forall|x: Seq<char>| #[trigger] scalar_read(db, Ok::<(Seq<char>, int), DatomFault>((x, db.at + w.len())))
            == Ok::<(Seq<char>, int), DatomFault>((x, read_end(db, w))),
        forall|x: bool| #[trigger] scalar_read(db, Ok::<(bool, int), DatomFault>((x, db.at + w.len())))
            == Ok::<(bool, int), DatomFault>((x, read_end(db, w))),
        forall|x: int| #[trigger] scalar_read(db, Ok::<(int, int), DatomFault>((x, db.at + w.len())))
            == Ok::<(int, int), DatomFault>((x, read_end(db, w))),
{
    let s = db.text;
    let i = db.at;
    let e = i + w.len();
    assert(s[i] == w[0]);
    lemma_skip_trivia_none(s, i);
    assert forall|m: int| i <= m < e implies is_bare_char(#[trigger] s[m]) by {
        assert(s[m] == w[m - i]);
    }
    if in_key(db) {
        assert(s[i] != '(');
        lemma_skip_trivia_none(s, e);
        assert(is_bare_boundary(s[e]) || s[e] == '.');
        lemma_dot_run(s, i, e);
    } else {
        lemma_symbol_run(s, i, e);
        lemma_no_dot(w, 0);
        assert(s.subrange(i, e) == w);
    }
}

/// A run of bare characters from `k` that ends at a dot scans, with the
/// dot ending it, as one bare symbol.
proof fn lemma_dot_run(s: Seq<char>, k: int, e: int)
    requires
        0 <= k <= e < s.len(),
        forall|m: int| k <= m < e ==> is_bare_char(#[trigger] s[m]),
        s[e] == '.',
    ensures
        scan_bare(s, k, true) == Ok::<int, DatomFault>(e),
    decreases e - k,
{
    if k < e {
        lemma_dot_run(s, k + 1, e);
    }
}

/// The text a string is written as, met at the cursor of a string context,
/// is read as the string, unless stripping would change it.
proof fn lemma_string_read(v: Seq<char>, db: DecodeState)
    requires
        strip_indentation(v) == v,
        in_key(db) ==> is_bare_text(v),
        meets(db, string_text(v)),
    ensures
        scalar_read(db, string_interior(scalar_entered(db, "String"))) == Ok::<(Seq<char>, int), DatomFault>(
            (v, read_end(db, string_text(v))),
        ),
{
    let w = string_text(v);
    let s = db.text;
    let i = db.at;
    if is_bare_text(v) {
        lemma_bare_read(db, w, "String");
    } else {
        let e = escaped(v);
        let q = i + 1 + e.len() as int;
        assert(w == seq!['“'] + e + seq!['”']);
        assert(s[i] == w[0]);
        lemma_skip_trivia_none(s, i);
        assert(s.subrange(i + 1, q) =~= e) by {
            assert(s.subrange(i + 1, q) =~= s.subrange(i, i + w.len()).subrange(1, 1 + e.len() as int));
        }
        lemma_scan_escaped(s, i + 1, v, Seq::empty());
        assert(Seq::<char>::empty() + v =~= v);
        assert(s[q] == w[q - i]);
        lemma_skip_trivia_none(s, q);
    }
}

/// The text a boolean is written as, met at the cursor of a boolean
/// context, is read as the boolean.
proof fn lemma_bool_read(v: bool, db: DecodeState)
    requires
        meets(db, bool_text(v)),
    ensures
        scalar_read(db, bool_interior(scalar_entered(db, "bool"))) == Ok::<(bool, int), DatomFault>(
            (v, read_end(db, bool_text(v))),
        ),
{
    reveal_strlit("True");
    reveal_strlit("False");
    lemma_bare_read(db, bool_text(v), "bool");
}

/// The decimal text of an integer within the range of an integer context,
/// met at the cursor of that context, is read as the integer.
proof fn lemma_integer_read(v: int, db: DecodeState, name: &'static str, signed: bool, min: int, max: int)
    requires
        min <= v <= max,
        signed || min >= 0,
        meets(db, decimal_text(v)),
    ensures
        scalar_read(db, integer_interior(scalar_entered(db, name), name, signed, min, max)) == Ok::<
            (int, int),
            DatomFault,
        >((v, read_end(db, decimal_text(v)))),
{
    lemma_decimal_bare(v);
    lemma_decimal_round_trip(v, signed);
    lemma_bare_read(db, decimal_text(v), name);
}

/// A string reads back wherever it is written, but for text that stripping
/// common indentation would change, and, inside a map key, text that is not
/// written bare.
pub proof fn law_string_reads_back(v: String, key: bool)
    requires
        strip_indentation(v@) == v@,
        key ==> is_bare_text(v@),
    ensures
        reads_back(v, key),
{
    reveal(reads_back);
    reveal(read_from);
    let w = string_text(v@);
    lemma_string_opens_cleanly(v@);
    assert forall|eb: EncodeState, ea: EncodeState, res: Result<(), DatomFault>|
        v.writes(eb, ea, res) && ea.resumes(eb) implies {
        &&& res is Ok
        &&& ea.frames == eb.frames
        &&& read_from(v, key, written_between(eb, ea))
    } by {
        lemma_written_between(eb, ea, w);
        assert forall|db: DecodeState, da: DecodeState, r: Result<String, DatomFault>|
            in_key(db) == key && meets(db, w) && String::reads(db, da, r) && da.resumes(db) implies {
            &&& r matches Ok(x) && x.deep_view() == v.deep_view()
            &&& da.at == read_end(db, w)
            &&& da.frames == db.frames
        } by {
            lemma_string_read(v@, db);
        }
    }
}

/// A boolean reads back wherever it is written.
pub proof fn law_bool_reads_back(v: bool, key: bool)
    ensures
        reads_back(v, key),
{
    reveal(reads_back);
    reveal(read_from);
    let w = bool_text(v);
    reveal_strlit("True");
    reveal_strlit("False");
    lemma_bare_opens_cleanly(w);
    assert forall|eb: EncodeState, ea: EncodeState, res: Result<(), DatomFault>|
        v.writes(eb, ea, res) && ea.resumes(eb) implies {
        &&& res is Ok
        &&& ea.frames == eb.frames
        &&& read_from(v, key, written_between(eb, ea))
    } by {
        lemma_written_between(eb, ea, w);
        assert forall|db: DecodeState, da: DecodeState, r: Result<bool, DatomFault>|
            in_key(db) == key && meets(db, w) && bool::reads(db, da, r) && da.resumes(db) implies {
            &&& r matches Ok(x) && x.deep_view() == v.deep_view()
            &&& da.at == read_end(db, w)
            &&& da.frames == db.frames
        } by {
            lemma_bool_read(v, db);
        }
    }
}

/// A value that reads back outside map keys, written as a whole document,
/// is read from that document as itself, and nothing follows it there.
pub proof fn law_document_reads_back<T: DatomDecode + DatomEncode + DeepView>(
    v: T,
    written: EncodeState,
    wres: Result<(), DatomFault>,
    read: DecodeState,
    rres: Result<T, DatomFault>,
)
    requires
        reads_back(v, false),
        v.writes(EncodeState::start(), written, wres),
        written.resumes(EncodeState::start()),
        document_read::<T>(written.output, read, rres),
    ensures
        wres is Ok,
        rres matches Ok(x) && x.deep_view() == v.deep_view(),
        finish_at(read.text, read.at) is Ok,
{
    reveal(reads_back);
    reveal(read_from);
    let text = written.output;
    let w = written_between(EncodeState::start(), written);
    assert(w =~= text);
    let db = DecodeState::start(text);
    assert(text.subrange(0, text.len() as int) =~= text);
    assert(!in_key(db));
    assert(meets(db, w));
    lemma_skip_trivia_none(text, text.len() as int);
}

/// Every an unsigned 8-bit integer reads back wherever it is written.
pub proof fn law_u8_reads_back(v: u8, key: bool)
    ensures
        reads_back(v, key),
{
    reveal(reads_back);
    reveal(read_from);
    let w = decimal_text(v as int);
    lemma_decimal_bare(v as int);
    lemma_bare_opens_cleanly(w);
    assert forall|eb: EncodeState, ea: EncodeState, res: Result<(), DatomFault>|
        v.writes(eb, ea, res) && ea.resumes(eb) implies {
        &&& res is Ok
        &&& ea.frames == eb.frames
        &&& read_from(v, key, written_between(eb, ea))
    } by {
        lemma_written_between(eb, ea, w);
        assert forall|db: DecodeState, da: DecodeState, r: Result<u8, DatomFault>|
            in_key(db) == key && meets(db, w) && u8::reads(db, da, r) && da.resumes(db) implies {
            &&& r matches Ok(x) && x.deep_view() == v.deep_view()
            &&& da.at == read_end(db, w)
            &&& da.frames == db.frames
        } by {
            lemma_integer_read(v as int, db, "u8", false, u8::MIN as int, u8::MAX as int);
        }
    }
}

/// Every an unsigned 16-bit integer reads back wherever it is written.
pub proof fn law_u16_reads_back(v: u16, key: bool)
    ensures
        reads_back(v, key),
{
    reveal(reads_back);
    reveal(read_from);
    let w = decimal_text(v as int);
    lemma_decimal_bare(v as int);
    lemma_bare_opens_cleanly(w);
    assert forall|eb: EncodeState, ea: EncodeState, res: Result<(), DatomFault>|
        v.writes(eb, ea, res) && ea.resumes(eb) implies {
        &&& res is Ok
        &&& ea.frames == eb.frames
        &&& read_from(v, key, written_between(eb, ea))
    } by {
        lemma_written_between(eb, ea, w);
        assert forall|db: DecodeState, da: DecodeState, r: Result<u16, DatomFault>|
            in_key(db) == key && meets(db, w) && u16::reads(db, da, r) && da.resumes(db) implies {
            &&& r matches Ok(x) && x.deep_view() == v.deep_view()
            &&& da.at == read_end(db, w)
            &&& da.frames == db.frames
        } by {
            lemma_integer_read(v as int, db, "u16", false, u16::MIN as int, u16::MAX as int);
        }
    }
}

/// Every an unsigned 32-bit integer reads back wherever it is written.
pub proof fn law_u32_reads_back(v: u32, key: bool)
    ensures
        reads_back(v, key),
{
    reveal(reads_back);
    reveal(read_from);
    let w = decimal_text(v as int);
    lemma_decimal_bare(v as int);
    lemma_bare_opens_cleanly(w);
    assert forall|eb: EncodeState, ea: EncodeState, res: Result<(), DatomFault>|
        v.writes(eb, ea, res) && ea.resumes(eb) implies {
        &&& res is Ok
        &&& ea.frames == eb.frames
        &&& read_from(v, key, written_between(eb, ea))
    } by {
        lemma_written_between(eb, ea, w);
        assert forall|db: DecodeState, da: DecodeState, r: Result<u32, DatomFault>|
            in_key(db) == key && meets(db, w) && u32::reads(db, da, r) && da.resumes(db) implies {
            &&& r matches Ok(x) && x.deep_view() == v.deep_view()
            &&& da.at == read_end(db, w)
            &&& da.frames == db.frames
        } by {
            lemma_integer_read(v as int, db, "u32", false, u32::MIN as int, u32::MAX as int);
        }
    }
}

/// Every an unsigned 64-bit integer reads back wherever it is written.
pub proof fn law_u64_reads_back(v: u64, key: bool)
    ensures
        reads_back(v, key),
{
    reveal(reads_back);
    reveal(read_from);
    let w = decimal_text(v as int);
    lemma_decimal_bare(v as int);
    lemma_bare_opens_cleanly(w);
    assert forall|eb: EncodeState, ea: EncodeState, res: Result<(), DatomFault>|
        v.writes(eb, ea, res) && ea.resumes(eb) implies {
        &&& res is Ok
        &&& ea.frames == eb.frames
        &&& read_from(v, key, written_between(eb, ea))
    } by {
        lemma_written_between(eb, ea, w);
        assert forall|db: DecodeState, da: DecodeState, r: Result<u64, DatomFault>|
            in_key(db) == key && meets(db, w) && u64::reads(db, da, r) && da.resumes(db) implies {
            &&& r matches Ok(x) && x.deep_view() == v.deep_view()
            &&& da.at == read_end(db, w)
            &&& da.frames == db.frames
        } by {
            lemma_integer_read(v as int, db, "u64", false, u64::MIN as int, u64::MAX as int);
        }
    }
}

/// Every a signed 8-bit integer reads back wherever it is written.
pub proof fn law_i8_reads_back(v: i8, key: bool)
    ensures
        reads_back(v, key),
{
    reveal(reads_back);
    reveal(read_from);
    let w = decimal_text(v as int);
    lemma_decimal_bare(v as int);
    lemma_bare_opens_cleanly(w);
    assert forall|eb: EncodeState, ea: EncodeState, res: Result<(), DatomFault>|
        v.writes(eb, ea, res) && ea.resumes(eb) implies {
        &&& res is Ok
        &&& ea.frames == eb.frames
        &&& read_from(v, key, written_between(eb, ea))
    } by {
        lemma_written_between(eb, ea, w);
        assert forall|db: DecodeState, da: DecodeState, r: Result<i8, DatomFault>|
            in_key(db) == key && meets(db, w) && i8::reads(db, da, r) && da.resumes(db) implies {
            &&& r matches Ok(x) && x.deep_view() == v.deep_view()
            &&& da.at == read_end(db, w)
            &&& da.frames == db.frames
        } by {
            lemma_integer_read(v as int, db, "i8", true, i8::MIN as int, i8::MAX as int);
        }
    }
}

/// Every a signed 16-bit integer reads back wherever it is written.
pub proof fn law_i16_reads_back(v: i16, key: bool)
    ensures
        reads_back(v, key),
{
    reveal(reads_back);
    reveal(read_from);
    let w = decimal_text(v as int);
    lemma_decimal_bare(v as int);
    lemma_bare_opens_cleanly(w);
    assert forall|eb: EncodeState, ea: EncodeState, res: Result<(), DatomFault>|
        v.writes(eb, ea, res) && ea.resumes(eb) implies {
        &&& res is Ok
        &&& ea.frames == eb.frames
        &&& read_from(v, key, written_between(eb, ea))
    } by {
        lemma_written_between(eb, ea, w);
        assert forall|db: DecodeState, da: DecodeState, r: Result<i16, DatomFault>|
            in_key(db) == key && meets(db, w) && i16::reads(db, da, r) && da.resumes(db) implies {
            &&& r matches Ok(x) && x.deep_view() == v.deep_view()
            &&& da.at == read_end(db, w)
            &&& da.frames == db.frames
        } by {
            lemma_integer_read(v as int, db, "i16", true, i16::MIN as int, i16::MAX as int);
        }
    }
}

/// Every a signed 32-bit integer reads back wherever it is written.
pub proof fn law_i32_reads_back(v: i32, key: bool)
    ensures
        reads_back(v, key),
{
    reveal(reads_back);
    reveal(read_from);
    let w = decimal_text(v as int);
    lemma_decimal_bare(v as int);
    lemma_bare_opens_cleanly(w);
    assert forall|eb: EncodeState, ea: EncodeState, res: Result<(), DatomFault>|
        v.writes(eb, ea, res) && ea.resumes(eb) implies {
        &&& res is Ok
        &&& ea.frames == eb.frames
        &&& read_from(v, key, written_between(eb, ea))
    } by {
        lemma_written_between(eb, ea, w);
        assert forall|db: DecodeState, da: DecodeState, r: Result<i32, DatomFault>|
            in_key(db) == key && meets(db, w) && i32::reads(db, da, r) && da.resumes(db) implies {
            &&& r matches Ok(x) && x.deep_view() == v.deep_view()
            &&& da.at == read_end(db, w)
            &&& da.frames == db.frames
        } by {
            lemma_integer_read(v as int, db, "i32", true, i32::MIN as int, i32::MAX as int);
        }
    }
}

/// Every a signed 64-bit integer reads back wherever it is written.
pub proof fn law_i64_reads_back(v: i64, key: bool)
    ensures
        reads_back(v, key),
{
    reveal(reads_back);
    reveal(read_from);
    let w = decimal_text(v as int);
    lemma_decimal_bare(v as int);
    lemma_bare_opens_cleanly(w);
    assert forall|eb: EncodeState, ea: EncodeState, res: Result<(), DatomFault>|
        v.writes(eb, ea, res) && ea.resumes(eb) implies {
        &&& res is Ok
        &&& ea.frames == eb.frames
        &&& read_from(v, key, written_between(eb, ea))
    } by {
        lemma_written_between(eb, ea, w);
        assert forall|db: DecodeState, da: DecodeState, r: Result<i64, DatomFault>|
            in_key(db) == key && meets(db, w) && i64::reads(db, da, r) && da.resumes(db) implies {
            &&& r matches Ok(x) && x.deep_view() == v.deep_view()
            &&& da.at == read_end(db, w)
            &&& da.frames == db.frames
        } by {
            lemma_integer_read(v as int, db, "i64", true, i64::MIN as int, i64::MAX as int);
        }
    }
}

/// A symbol scanned inside a text that `s` holds at `at`, followed by a
/// boundary or the end, scans the same way within `s`.
proof fn lemma_scan_symbol_shift(s: Seq<char>, w: Seq<char>, at: int, k: int)
    requires
        0 <= at,
        at + w.len() <= s.len(),
        s.subrange(at, at + w.len()) == w,
        at + w.len() == s.len() || is_bare_boundary(s[at + w.len()]),
        0 <= k <= w.len(),
    ensures
        scan_symbol(s, at + k) == match scan_symbol(w, k) {
            Ok(e) => Ok::<int, DatomFault>(at + e),
            Err(f) => Err::<int, DatomFault>(f),
        },
    decreases w.len() - k,
{
    if k < w.len() {
        assert(s[at + k] == w[k]);
        lemma_scan_symbol_shift(s, w, at, k + 1);
    }
}

/// Characters that neither end nor refuse a symbol are passed over by its scan.
proof fn lemma_scan_symbol_skip(s: Seq<char>, k: int, m: int)
    requires
        0 <= k <= m <= s.len(),
        forall|j: int| k <= j < m ==> !is_angle(#[trigger] s[j]) && !is_bare_boundary(s[j]),
    ensures
        scan_symbol(s, k) == scan_symbol(s, m),
    decreases m - k,
{
    if k < m {
        lemma_scan_symbol_skip(s, k + 1, m);
    }
}

/// A bare head glued by a dot to text that opens cleanly, met at `i`, is
/// probed as a dotted shape with that head, and its head and dot are
/// consumed together.
proof fn lemma_dotted_head(s: Seq<char>, i: int, head: Seq<char>, w: Seq<char>)
    requires
        is_bare_text(head),
        opens_cleanly(w),
        0 <= i,
        i + head.len() + 1 + w.len() <= s.len(),
        s.subrange(i, i + head.len() + 1 + w.len()) == head + "."@ + w,
        i + head.len() + 1 + w.len() == s.len() || is_bare_boundary(s[i + head.len() + 1 + w.len()]),
    ensures
        probe_at(s, i) matches Ok((shape, h)) && shape_is_dotted(shape) && !shape_is_parenthesized(shape)
            && h == Some(head) && shape == dotted_shape_at(s, i + head.len() + 1),
        head_dot_at(s, i, head) == Ok::<int, DatomFault>(i + head.len() + 1),
        dot_at(s, i + head.len()) == Ok::<int, DatomFault>(i + head.len() + 1),
        skip_trivia(s, i) == i,
{
    reveal_strlit(".");
    let d = i + head.len();
    let b = d + 1;
    let whole = head + "."@ + w;
    assert forall|j: int| i <= j < d implies #[trigger] s[j] == head[j - i] by {
        assert(s[j] == whole[j - i]);
    }
    assert(s[d] == whole[head.len() as int]);
    assert(s[d] == '.');
    assert(s.subrange(b, b + w.len()) =~= w) by {
        assert forall|j: int| 0 <= j < w.len() implies s.subrange(b, b + w.len())[j] == w[j] by {
            assert(s[b + j] == whole[head.len() + 1 + j]);
        }
    }
    assert(s[b] == w[0]);
    lemma_skip_trivia_none(s, i);
    lemma_skip_trivia_none(s, d);
    assert forall|j: int| i <= j < b implies !is_angle(#[trigger] s[j]) && !is_bare_boundary(s[j]) by {
        if j < d {
            assert(is_bare_char(head[j - i]));
        }
    }
    lemma_scan_symbol_skip(s, i, b);
    lemma_scan_symbol_shift(s, w, b, 0);
    let end = scan_symbol(s, i)->Ok_0;
    lemma_scan_symbol_bounds(w, 0);
    let text = s.subrange(i, end);
    assert forall|j: int| 0 <= j < head.len() implies #[trigger] text[j] == head[j] by {
        assert(text[j] == s[i + j]);
    }
    assert(text[head.len() as int] == '.');
    lemma_dot_after_bare(text, head, 0);
    assert(text.subrange(0, head.len() as int) =~= head);
}

/// In text that begins with bare text `head` and then a dot, the first dot
/// from `k` on is the one after the head.
proof fn lemma_dot_after_bare(t: Seq<char>, head: Seq<char>, k: int)
    requires
        is_bare_text(head),
        0 <= k <= head.len() < t.len(),
        forall|j: int| 0 <= j < head.len() ==> #[trigger] t[j] == head[j],
        t[head.len() as int] == '.',
    ensures
        find_dot(t, k) == Some(head.len() as int),
    decreases head.len() - k,
{
    if k < head.len() {
        assert(is_bare_char(head[k]));
        lemma_dot_after_bare(t, head, k + 1);
    }
}

/// The payload of `Some.` met at `i`: reading an optional value from a
/// walk at `i` outside a map key reads `Some` of the payload's reading.
proof fn lemma_some_read<T: DatomDecode + DatomEncode + DeepView>(
    x: T,
    wx: Seq<char>,
    db: DecodeState,
    da: DecodeState,
    r: Result<Option<T>, DatomFault>,
)
    requires
        read_from(x, false, wx),
        !in_key(db),
        meets(db, "Some."@ + wx),
        Option::<T>::reads(db, da, r),
        da.resumes(db),
    ensures
        r matches Ok(y) && y.deep_view() == Some(x).deep_view(),
        da.at == read_end(db, "Some."@ + wx),
        da.frames == db.frames,
{
    reveal(read_from);
    reveal_strlit("Some.");
    reveal_strlit("Some");
    reveal_strlit(".");
    let s = db.text;
    let i = db.at;
    let w = "Some."@ + wx;
    let head = "Some"@;
    assert(w =~= head + "."@ + wx);
    assert(is_bare_text(head));
    lemma_dotted_head(s, i, head, wx);
    let st = db.entered(ContextName::Value("Option"), db.scalar_terminator());
    assert(db.scalar_terminator() is None);
    assert(skipped(st) == st);
    let b = i + 5;
    let entered = st.entered(ContextName::Variant("Some"), None);
    let dx = entered.moved(b);
    assert(!in_key(dx));
    assert(s.subrange(b, b + wx.len()) =~= wx) by {
        assert forall|j: int| 0 <= j < wx.len() implies s.subrange(b, b + wx.len())[j] == wx[j] by {
            assert(s[b + j] == w[5 + j]);
        }
    }
    assert(meets(dx, wx));
    let (inner, ir) = choose|inner: DecodeState, ir: Result<Option<T>, DatomFault>|
        #![trigger option_interior(st, inner, ir)]
        option_interior(st, inner, ir) && inner.resumes(st) && concluded_read(inner, db.scalar_terminator(), ir, r, da);
    assert(some_read(st, inner, ir));
    let (mid, vr) = choose|mid: DecodeState, vr: Result<T, DatomFault>|
        #![trigger T::reads(dx, mid, vr)]
        T::reads(dx, mid, vr) && mid.resumes(dx) && match vr {
            Ok(v) => ir == Ok::<Option<T>, DatomFault>(Some(v)) && inner == mid.advanced().closed(),
            Err(f) => ir == Err::<Option<T>, DatomFault>(f) && inner == mid.closed(),
        };
    assert(T::reads(dx, mid, vr));
    assert(mid.frames =~= dx.frames);
}

/// An optional value reads back outside map keys when its payload does.
pub proof fn law_option_reads_back<T: DatomDecode + DatomEncode + DeepView>(v: Option<T>)
    requires
        v matches Some(x) ==> reads_back(x, false),
    ensures
        reads_back(v, false),
{
    reveal(reads_back);
    reveal(read_from);
    reveal_strlit("None");
    reveal_strlit("Some.");
    assert forall|eb: EncodeState, ea: EncodeState, res: Result<(), DatomFault>|
        v.writes(eb, ea, res) && ea.resumes(eb) implies {
        &&& res is Ok
        &&& ea.frames == eb.frames
        &&& read_from(v, false, written_between(eb, ea))
    } by {
        let st = eb.entered(ContextName::Value("Option"), None);
        let (inner, ir) = choose|inner: EncodeState, ir: Result<(), DatomFault>|
            #![trigger option_written(v, st, inner, ir)]
            option_written(v, st, inner, ir) && inner.resumes(st) && res == ir && ea == inner.closed();
        match v {
            None => {
                let w = "None"@;
                assert(ea.output == eb.output + w);
                assert(ea.frames =~= eb.frames);
                lemma_written_between(eb, ea, w);
                lemma_bare_opens_cleanly(w);
                assert forall|db: DecodeState, da: DecodeState, r: Result<Option<T>, DatomFault>|
                    in_key(db) == false && meets(db, w) && Option::<T>::reads(db, da, r) && da.resumes(db) implies {
                    &&& r matches Ok(y) && y.deep_view() == v.deep_view()
                    &&& da.at == read_end(db, w)
                    &&& da.frames == db.frames
                } by {
                    lemma_bare_read(db, w, "Option");
                    let sr = db.entered(ContextName::Value("Option"), db.scalar_terminator());
                    assert(skipped(sr) == sr);
                    let (ri, rir) = choose|ri: DecodeState, rir: Result<Option<T>, DatomFault>|
                        #![trigger option_interior(sr, ri, rir)]
                        option_interior(sr, ri, rir) && ri.resumes(sr) && concluded_read(ri, db.scalar_terminator(), rir, r, da);
                    assert(bare_at(skipped(sr)) == Ok::<(int, int), DatomFault>((db.at, db.at + 4)));
                    assert(ri.frames =~= sr.frames);
                }
            },
            Some(x) => {
                reveal_strlit("Some");
                reveal_strlit(".");
                assert("Some"@ + "."@ =~= "Some."@);
                let e = st.entered(ContextName::Variant("Some"), None).wrote("Some"@ + "."@);
                assert(e.separated() == e);
                let (mid, vr) = choose|mid: EncodeState, vr: Result<(), DatomFault>|
                    #![trigger x.writes(e.separated(), mid, vr)]
                    x.writes(e.separated(), mid, vr) && mid.resumes(e.separated()) && ir == vr && inner
                        == (if vr is Ok {
                        mid.advanced()
                    } else {
                        mid
                    }).closed();
                assert(x.writes(e, mid, vr));
                let wx = written_between(e, mid);
                let w = "Some."@ + wx;
                assert(mid.output =~= e.output + wx);
                assert(ea.output == mid.output);
                assert(ea.output =~= eb.output + w);
                assert(ea.frames =~= eb.frames);
                lemma_written_between(eb, ea, w);
                assert(opens_cleanly(w)) by {
                    assert(w.subrange(5, 5 + wx.len() as int) =~= wx);
                    lemma_scan_symbol_skip(w, 0, 5);
                    lemma_scan_symbol_shift(w, wx, 5, 0);
                }
                assert forall|db: DecodeState, da: DecodeState, r: Result<Option<T>, DatomFault>|
                    in_key(db) == false && meets(db, w) && Option::<T>::reads(db, da, r) && da.resumes(db) implies {
                    &&& r matches Ok(y) && y.deep_view() == v.deep_view()
                    &&& da.at == read_end(db, w)
                    &&& da.frames == db.frames
                } by {
                    lemma_some_read(x, wx, db, da, r);
                }
            },
        }
    }
}

/// What a writing walk has written it keeps, so that it holds what it
/// wrote since an earlier state after what it held then.
proof fn lemma_resumes_output(before: EncodeState, after: EncodeState)
    requires
        after.resumes(before),
    ensures
        after.output == before.output + written_between(before, after),
{
    assert(after.output =~= before.output + written_between(before, after));
}

/// The first `n` of `texts`, one after another with a space between two.
pub open spec fn spaced(texts: Seq<Seq<char>>, n: int) -> Seq<char>
    decreases n,
{
    if n <= 0 {
        Seq::empty()
    } else if n == 1 {
        texts[0]
    } else {
        spaced(texts, n - 1) + seq![' '] + texts[n - 1]
    }
}

/// The spaced text of fewer texts begins the spaced text of more.
proof fn lemma_spaced_prefix(texts: Seq<Seq<char>>, i: int, n: int)
    requires
        0 <= i <= n <= texts.len(),
    ensures
        spaced(texts, i).len() <= spaced(texts, n).len(),
        spaced(texts, n).subrange(0, spaced(texts, i).len() as int) == spaced(texts, i),
    decreases n,
{
    if i == n {
        assert(spaced(texts, n).subrange(0, spaced(texts, n).len() as int) =~= spaced(texts, n));
    } else {
        lemma_spaced_prefix(texts, i, n - 1);
        let a = spaced(texts, i);
        let b = spaced(texts, n - 1);
        let c = spaced(texts, n);
        assert(c.subrange(0, b.len() as int) =~= b);
        assert(c.subrange(0, a.len() as int) =~= b.subrange(0, a.len() as int));
    }
}

/// One white-space character before text that opens cleanly is all the
/// trivia there.
proof fn lemma_skip_one_space(s: Seq<char>, k: int)
    requires
        0 <= k,
        k + 1 < s.len(),
        is_ws(s[k]),
        !is_ws(s[k + 1]),
        s[k + 1] != ';',
    ensures
        skip_trivia(s, k) == k + 1,
{
    assert(skip_ws(s, k + 1) == k + 1);
    assert(skip_ws(s, k) == k + 1);
}

/// Whether `s` holds, from `p`, `texts` one after another with a space
/// between two of them, and then the closing bracket.
pub open spec fn laid_out(s: Seq<char>, p: int, texts: Seq<Seq<char>>) -> bool {
    let body = spaced(texts, texts.len() as int);
    &&& 0 <= p
    &&& p + body.len() < s.len()
    &&& s.subrange(p, p + body.len()) == body
    &&& s[p + body.len()] == ']'
    &&& forall|j: int| 0 <= j < texts.len() ==> opens_cleanly(#[trigger] texts[j])
}

/// In laid-out text, the `i`-th text stands after the trivia that follows
/// the texts before it, and a boundary follows it.
proof fn lemma_element_met(s: Seq<char>, p: int, texts: Seq<Seq<char>>, i: int)
    requires
        laid_out(s, p, texts),
        0 <= i < texts.len(),
    ensures
        ({
            let q = p + spaced(texts, i).len();
            let e = skip_trivia(s, q);
            let t = texts[i];
            &&& e == if i > 0 { q + 1 } else { q }
            &&& e + t.len() == p + spaced(texts, i + 1).len()
            &&& e + t.len() < s.len()
            &&& s.subrange(e, e + t.len()) == t
            &&& is_bare_boundary(s[e + t.len()])
            &&& s[e] != ']'
            &&& s[e] == t[0]
        }),
{
    let n = texts.len() as int;
    let body = spaced(texts, n);
    let q = p + spaced(texts, i).len();
    let t = texts[i];
    let a = spaced(texts, i + 1);
    lemma_spaced_prefix(texts, i + 1, n);
    assert(opens_cleanly(t));
    let e = if i > 0 { q + 1 } else { q };
    assert(a == if i > 0 { spaced(texts, i) + seq![' '] + t } else { t });
    assert(e + t.len() == p + a.len());
    assert forall|j: int| 0 <= j < a.len() implies #[trigger] s[p + j] == a[j] by {
        assert(s[p + j] == body[j]);
        assert(body.subrange(0, a.len() as int)[j] == a[j]);
    }
    assert(s.subrange(e, e + t.len()) =~= t) by {
        assert forall|j: int| 0 <= j < t.len() implies s.subrange(e, e + t.len())[j] == t[j] by {
            assert(s[p + (e - p + j)] == a[e - p + j]);
        }
    }
    assert(s[e] == t[0]) by {
        assert(s[p + (e - p)] == a[e - p]);
    }
    if i > 0 {
        assert(s[q] == ' ') by {
            assert(s[p + (q - p)] == a[q - p]);
        }
        lemma_skip_one_space(s, q);
    } else {
        lemma_skip_trivia_none(s, q);
    }
    let f = e + t.len();
    if i + 1 < n {
        lemma_spaced_prefix(texts, i + 2, n);
        let a2 = spaced(texts, i + 2);
        assert(a2 == a + seq![' '] + texts[i + 1]);
        assert(s[f] == ' ') by {
            assert(s[p + (f - p)] == body[f - p]);
            assert(body.subrange(0, a2.len() as int)[f - p] == a2[f - p]);
        }
    } else {
        assert(f == p + body.len());
    }
}

/// The separator written before a value that is not the first of its
/// context, whose innermost position is `position`.
pub open spec fn separator(position: usize) -> Seq<char> {
    if position > 0 {
        seq![' ']
    } else {
        Seq::empty()
    }
}

/// One element written after its separator, by a value that reads back:
/// the text it wrote, after which the walk holds the separator and that
/// text, with the innermost context resumed at its following position.
proof fn lemma_write_step_text<T: DatomDecode + DatomEncode + DeepView>(
    before: EncodeState,
    v: T,
    after: EncodeState,
) -> (t: Seq<char>)
    requires
        write_step(before, v, after),
        reads_back(v, false),
        before.frames.len() > 0,
        before.frames.last().position < usize::MAX,
    ensures
        read_from(v, false, t),
        after.output == before.output + separator(before.frames.last().position) + t,
        after.frames.len() == before.frames.len(),
        after.frames.drop_last() == before.frames.drop_last(),
        after.frames.last().context == before.frames.last().context,
        after.frames.last().terminator == before.frames.last().terminator,
        after.frames.last().position == before.frames.last().position + 1,
{
    let sep = before.separated();
    let mid = choose|mid: EncodeState|
        #![trigger v.writes(sep, mid, Ok::<(), DatomFault>(()))]
        v.writes(sep, mid, Ok::<(), DatomFault>(())) && mid.resumes(sep) && after == mid.advanced();
    let t = written_between(sep, mid);
    assert(mid.frames == sep.frames && read_from(v, false, t)) by {
        reveal(reads_back);
    }
    lemma_resumes_output(sep, mid);
    assert(sep.output == before.output + separator(before.frames.last().position)) by {
        if before.frames.last().position == 0 {
            assert(before.output + Seq::<char>::empty() =~= before.output);
        }
    }
    assert(after.output =~= before.output + separator(before.frames.last().position) + t);
    assert(after.frames.drop_last() =~= before.frames.drop_last());
    t
}

/// The first `n - 1` elements a vector wrote, each after its separator: for
/// each, the text it wrote, and the walks before and after them, which hold
/// those texts spaced after the opening text, with the innermost context
/// resumed past them.
#[verifier::spinoff_prover]
proof fn lemma_elements_text<T: DatomDecode + DatomEncode + DeepView>(
    start: EncodeState,
    states: Seq<EncodeState>,
    vals: Seq<T>,
    n: int,
) -> (texts: Seq<Seq<char>>)
    requires
        writes_trace(start, states, vals),
        1 <= n <= states.len(),
        forall|i: int| 0 <= i < vals.len() ==> reads_back(#[trigger] vals[i], false),
        start.frames.len() > 0,
        start.frames.last().position == 0,
        vals.len() <= usize::MAX,
    ensures
        texts.len() == n - 1,
        forall|i: int| 0 <= i < texts.len() ==> read_from(vals[i], false, #[trigger] texts[i]),
        forall|i: int|
            0 <= i < n ==> {
                &&& (#[trigger] states[i]).output == start.output + spaced(texts, i)
                &&& states[i].frames.len() == start.frames.len()
                &&& states[i].frames.drop_last() == start.frames.drop_last()
                &&& states[i].frames.last().context == start.frames.last().context
                &&& states[i].frames.last().terminator == start.frames.last().terminator
                &&& states[i].frames.last().position == i
            },
    decreases n,
{
    if n == 1 {
        assert(start.output + spaced(Seq::<Seq<char>>::empty(), 0) =~= start.output);
        Seq::empty()
    } else {
        let m = n - 1;
        let prior = lemma_elements_text(start, states, vals, m);
        let before = states[m - 1];
        assert(write_step(states[m - 1], vals[m - 1], states[m]));
        let t = lemma_write_step_text(before, vals[m - 1], states[m]);
        let texts = prior.push(t);
        lemma_spaced_same(prior, texts, m - 1);
        assert(states[m].output == start.output + spaced(texts, m)) by {
            if m - 1 > 0 {
                assert(spaced(texts, m) == spaced(texts, m - 1) + seq![' '] + t);
                assert(start.output + spaced(texts, m) =~= start.output + spaced(prior, m - 1) + seq![' '] + t);
            } else {
                assert(spaced(texts, m) == t);
                assert(start.output + spaced(prior, 0) =~= start.output);
            }
        }
        assert forall|i: int| 0 <= i < texts.len() implies read_from(vals[i], false, #[trigger] texts[i]) by {
            if i < m - 1 {
                assert(texts[i] == prior[i]);
            }
        }
        assert forall|i: int| 0 <= i < n implies {
            &&& (#[trigger] states[i]).output == start.output + spaced(texts, i)
            &&& states[i].frames.len() == start.frames.len()
            &&& states[i].frames.drop_last() == start.frames.drop_last()
            &&& states[i].frames.last().context == start.frames.last().context
            &&& states[i].frames.last().terminator == start.frames.last().terminator
            &&& states[i].frames.last().position == i
        } by {
            if i < m {
                lemma_spaced_same(prior, texts, i);
            }
        }
        texts
    }
}

/// The spaced text of the first `n` texts depends on those texts alone.
proof fn lemma_spaced_same(a: Seq<Seq<char>>, b: Seq<Seq<char>>, n: int)
    requires
        0 <= n <= a.len(),
        n <= b.len(),
        forall|j: int| 0 <= j < n ==> a[j] == b[j],
    ensures
        spaced(a, n) == spaced(b, n),
    decreases n,
{
    if n > 1 {
        lemma_spaced_same(a, b, n - 1);
    }
}

/// Reading the elements of a laid-out vector: the trace stops no later than
/// the last text, each walk of it stands after the texts read so far, and
/// each value read has the deep view of the value that wrote its text.
proof fn lemma_elements_trace_read<T: DatomDecode + DatomEncode + DeepView>(
    vals: Seq<T>,
    texts: Seq<Seq<char>>,
    s0: DecodeState,
    states: Seq<DecodeState>,
    rvals: Seq<T>,
)
    requires
        texts.len() == vals.len(),
        forall|i: int| 0 <= i < texts.len() ==> read_from(vals[i], false, #[trigger] texts[i]),
        laid_out(s0.text, s0.at, texts),
        !in_key(s0),
        s0.frames.len() > 0,
        elements_trace(s0, states, rvals),
    ensures
        rvals.len() <= vals.len(),
        forall|i: int|
            0 <= i < states.len() ==> {
                &&& (#[trigger] states[i]).at == s0.at + spaced(texts, i).len()
                &&& states[i].text == s0.text
                &&& states[i].frames.len() == s0.frames.len()
                &&& states[i].frames.drop_last() == s0.frames.drop_last()
                &&& states[i].frames.last().context == s0.frames.last().context
            },
        forall|i: int| 0 <= i < rvals.len() ==> (#[trigger] rvals[i]).deep_view() == vals[i].deep_view(),
    decreases states.len(),
{
    reveal(read_from);
    let s = s0.text;
    let p = s0.at;
    let n = texts.len() as int;
    if states.len() > 1 {
        let m = states.len() - 1;
        let front = states.drop_last();
        let rfront = rvals.drop_last();
        assert(elements_trace(s0, front, rfront)) by {
            assert forall|i: int| 0 <= i < rfront.len() implies element_step(
                #[trigger] front[i],
                rfront[i],
                front[i + 1],
            ) by {
                assert(front[i] == states[i]);
                assert(front[i + 1] == states[i + 1]);
                assert(rfront[i] == rvals[i]);
                assert(element_step(states[i], rvals[i], states[i + 1]));
            }
        }
        lemma_elements_trace_read(vals, texts, s0, front, rfront);
        let before = states[m - 1];
        assert(before == front[m - 1]);
        assert(element_step(states[m - 1], rvals[m - 1], states[m]));
        if m - 1 == n {
            lemma_spaced_prefix(texts, n, n);
            lemma_skip_trivia_none(s, p + spaced(texts, n).len());
            assert(at_terminator_at(before.text, before.at, ProtosShape::SquareBracketDelimited));
        }
        assert(m - 1 < n);
        lemma_element_met(s, p, texts, m - 1);
        let db = skipped(before);
        let mid = choose|mid: DecodeState|
            #![trigger T::reads(db, mid, Ok::<T, DatomFault>(rvals[m - 1]))]
            T::reads(db, mid, Ok::<T, DatomFault>(rvals[m - 1])) && mid.resumes(db) && states[m]
                == mid.advanced();
        assert(!in_key(db));
        assert(meets(db, texts[m - 1]));
        assert(read_from(vals[m - 1], false, texts[m - 1]));
        assert(T::reads(db, mid, Ok::<T, DatomFault>(rvals[m - 1])));
        assert(states[m].frames.drop_last() =~= mid.frames.drop_last());
        assert forall|i: int| 0 <= i < states.len() implies {
            &&& (#[trigger] states[i]).at == s0.at + spaced(texts, i).len()
            &&& states[i].text == s0.text
            &&& states[i].frames.len() == s0.frames.len()
            &&& states[i].frames.drop_last() == s0.frames.drop_last()
            &&& states[i].frames.last().context == s0.frames.last().context
        } by {
            if i < m {
                assert(states[i] == front[i]);
            }
        }
        assert forall|i: int| 0 <= i < rvals.len() implies (#[trigger] rvals[i]).deep_view()
            == vals[i].deep_view() by {
            if i < m - 1 {
                assert(rvals[i] == rfront[i]);
            }
        }
    }
}

/// What a vector whose elements read back writes: without refusal, its
/// elements' texts spaced between brackets, with the open contexts left as
/// they were.
proof fn lemma_vec_written<T: DatomDecode + DatomEncode + DeepView>(
    v: Vec<T>,
    eb: EncodeState,
    ea: EncodeState,
    res: Result<(), DatomFault>,
) -> (texts: Seq<Seq<char>>)
    requires
        forall|i: int| 0 <= i < v@.len() ==> reads_back(#[trigger] v@[i], false),
        v.writes(eb, ea, res),
        ea.resumes(eb),
    ensures
        res is Ok,
        ea.frames == eb.frames,
        texts.len() == v@.len(),
        forall|i: int| 0 <= i < texts.len() ==> read_from(v@[i], false, #[trigger] texts[i]),
        ea.output == eb.output + (seq!['['] + spaced(texts, texts.len() as int) + seq![']']),
{
    broadcast use vstd::std_specs::vec::axiom_spec_len;

    let vals = v@;
    let n = vals.len() as int;
    assert(v.len() == vals.len());
    let entered = eb.entered(ContextName::Vector, Some(ProtosShape::SquareBracketDelimited)).wrote(
        "["@,
    );
    let (inner, ir) = choose|inner: EncodeState, ir: Result<(), DatomFault>|
        #![trigger elements_written(entered, vals, inner, ir)]
        elements_written(entered, vals, inner, ir) && inner.resumes(entered) && res == ir && ea == (
        if ir is Ok {
            inner.wrote(seq![']'])
        } else {
            inner
        }).closed();
    let states = choose|states: Seq<EncodeState>|
        #![trigger writes_trace(entered, states, vals)]
        writes_trace(entered, states, vals) && match ir {
            Ok(_) => states.len() == vals.len() + 1 && inner == states.last(),
            Err(f) => states.len() <= vals.len() && vals[states.len() - 1].writes(
                states.last().separated(),
                inner,
                Err(f),
            ) && inner.resumes(states.last().separated()),
        };
    let texts = lemma_elements_text(entered, states, vals, states.len() as int);
    if ir is Err {
        let k = states.len() - 1;
        assert(reads_back(vals[k], false));
        assert(vals[k].writes(states.last().separated(), inner, ir));
        reveal(reads_back);
    }
    assert(ir is Ok);
    let body = spaced(texts, n);
    assert(inner == states[n]);
    reveal_strlit("[");
    assert(entered.output =~= eb.output + seq!['[']);
    assert(ea.output =~= eb.output + (seq!['['] + body + seq![']']));
    assert(ea.frames =~= eb.frames);
    texts
}

/// A vector reads back outside map keys when each of its elements does.
pub proof fn law_vec_reads_back<T: DatomDecode + DatomEncode + DeepView>(v: Vec<T>)
    requires
        forall|i: int| 0 <= i < v@.len() ==> reads_back(#[trigger] v@[i], false),
    ensures
        reads_back(v, false),
{
    reveal(reads_back);
    reveal(read_from);
    assert forall|eb: EncodeState, ea: EncodeState, res: Result<(), DatomFault>|
        v.writes(eb, ea, res) && ea.resumes(eb) implies {
        &&& res is Ok
        &&& ea.frames == eb.frames
        &&& read_from(v, false, written_between(eb, ea))
    } by {
        let texts = lemma_vec_written(v, eb, ea, res);
        let w = seq!['['] + spaced(texts, texts.len() as int) + seq![']'];
        lemma_written_between(eb, ea, w);
        assert(opens_cleanly(w)) by {
            assert(w[0] == '[');
        }
        assert forall|db: DecodeState, da: DecodeState, r: Result<Vec<T>, DatomFault>|
            in_key(db) == false && meets(db, w) && Vec::<T>::reads(db, da, r) && da.resumes(db) implies {
            &&& r matches Ok(y) && y.deep_view() == v.deep_view()
            &&& da.at == read_end(db, w)
            &&& da.frames == db.frames
        } by {
            lemma_vec_read(v@, texts, v, db, da, r);
        }
    }
}

/// A walk outside a map key that meets a vector written as `texts`,
/// bracketed, reads back a vector with the deep view of `v`.
proof fn lemma_vec_read<T: DatomDecode + DatomEncode + DeepView>(
    vals: Seq<T>,
    texts: Seq<Seq<char>>,
    v: Vec<T>,
    db: DecodeState,
    da: DecodeState,
    r: Result<Vec<T>, DatomFault>,
)
    requires
        vals == v@,
        texts.len() == vals.len(),
        forall|i: int| 0 <= i < texts.len() ==> read_from(vals[i], false, #[trigger] texts[i]),
        !in_key(db),
        meets(db, seq!['['] + spaced(texts, texts.len() as int) + seq![']']),
        Vec::<T>::reads(db, da, r),
        da.resumes(db),
    ensures
        r matches Ok(y) && y.deep_view() == v.deep_view(),
        da.at == read_end(db, seq!['['] + spaced(texts, texts.len() as int) + seq![']']),
        da.frames == db.frames,
{
    reveal(read_from);
    let s = db.text;
    let i = db.at;
    let n = texts.len() as int;
    let body = spaced(texts, n);
    let w = seq!['['] + body + seq![']'];
    let p = i + 1;
    assert(s[i] == w[0]);
    lemma_skip_trivia_none(s, i);
    assert(opener_at(s, i, ProtosShape::SquareBracketDelimited) == Ok::<int, DatomFault>(p));
    assert(s.subrange(p, p + body.len()) =~= body) by {
        assert forall|j: int| 0 <= j < body.len() implies s.subrange(p, p + body.len())[j] == body[j] by {
            assert(s[i + (1 + j)] == w[1 + j]);
        }
    }
    assert(s[p + body.len()] == ']') by {
        assert(s[i + (1 + body.len())] == w[1 + body.len() as int]);
    }
    assert forall|j: int| 0 <= j < texts.len() implies opens_cleanly(#[trigger] texts[j]) by {
        assert(read_from(vals[j], false, texts[j]));
    }
    assert(laid_out(s, p, texts));
    let entered = db.entered(ContextName::Vector, Some(ProtosShape::SquareBracketDelimited));
    let s0 = entered.moved(p);
    assert(!in_key(s0));
    let (inner, ir) = choose|inner: DecodeState, ir: Result<Vec<T>, DatomFault>|
        #![trigger elements_read(s0, inner, ir)]
        elements_read(s0, inner, ir) && inner.resumes(s0) && concluded_read(
            inner,
            Some(ProtosShape::SquareBracketDelimited),
            ir,
            r,
            da,
        );
    let (states, rvals) = choose|states: Seq<DecodeState>, rvals: Seq<T>|
        #![trigger elements_trace(s0, states, rvals)]
        elements_trace(s0, states, rvals) && match ir {
            Ok(vs) => vs@ == rvals && at_terminator_at(
                states.last().text,
                states.last().at,
                ProtosShape::SquareBracketDelimited,
            ) && inner == skipped(states.last()),
            Err(f) => !at_terminator_at(
                states.last().text,
                states.last().at,
                ProtosShape::SquareBracketDelimited,
            ) && T::reads(skipped(states.last()), inner, Err(f)) && inner.resumes(
                skipped(states.last()),
            ),
        };
    lemma_elements_trace_read(vals, texts, s0, states, rvals);
    let m = rvals.len() as int;
    let last = states[m];
    assert(last == states.last());
    let q = p + body.len();
    if m < n {
        lemma_element_met(s, p, texts, m);
        let e = skip_trivia(s, last.at);
        if ir is Err {
            let db2 = skipped(last);
            assert(!in_key(db2));
            assert(meets(db2, texts[m]));
            assert(read_from(vals[m], false, texts[m]));
            assert(T::reads(db2, inner, Err::<T, DatomFault>(ir->Err_0)));
        }
        assert(!at_terminator_at(last.text, last.at, ProtosShape::SquareBracketDelimited));
        assert(false);
    }
    assert(m == n);
    lemma_skip_trivia_none(s, q);
    assert(last.at == q);
    assert(at_terminator_at(last.text, last.at, ProtosShape::SquareBracketDelimited));
    let vs = ir->Ok_0;
    assert(inner == last.moved(q));
    assert(inner.frames.drop_last() =~= db.frames);
    assert(vs.deep_view() =~= v.deep_view()) by {
        assert forall|j: int| 0 <= j < n implies vs.deep_view()[j] == v.deep_view()[j] by {
            assert(vs@[j] == rvals[j]);
        }
    }
}

/// The text of map entries: each key text glued by a dot to its value text.
pub open spec fn entry_texts(ktexts: Seq<Seq<char>>, vtexts: Seq<Seq<char>>) -> Seq<Seq<char>> {
    Seq::new(ktexts.len(), |i: int| ktexts[i] + seq!['.'] + vtexts[i])
}

/// Whether each key of `entries` reads back inside a map key and each
/// value outside one.
pub open spec fn entries_read_back<K: DatomDecode + DatomEncode + DeepView, V: DatomDecode + DatomEncode + DeepView>(
    entries: Seq<(K, V)>,
) -> bool {
    forall|i: int|
        0 <= i < entries.len() ==> reads_back((#[trigger] entries[i]).0, true) && reads_back(
            entries[i].1,
            false,
        )
}

/// One map entry written after its separator, by a key and a value that
/// read back: the texts of its key and value, after which the walk holds
/// the separator and the entry text, with the innermost context resumed at
/// its following position.
proof fn lemma_entry_step_text<K: DatomDecode + DatomEncode + DeepView, V: DatomDecode + DatomEncode + DeepView>(
    before: EncodeState,
    k: K,
    v: V,
    after: EncodeState,
) -> (texts: (Seq<char>, Seq<char>))
    requires
        entry_written(k, v, before, after, Ok::<(), DatomFault>(())),
        reads_back(k, true),
        reads_back(v, false),
        before.frames.len() > 0,
        before.frames.last().position < usize::MAX,
    ensures
        read_from(k, true, texts.0),
        read_from(v, false, texts.1),
        after.output == before.output + separator(before.frames.last().position) + (texts.0 + seq!['.']
            + texts.1),
        after.frames.len() == before.frames.len(),
        after.frames.drop_last() == before.frames.drop_last(),
        after.frames.last().context == before.frames.last().context,
        after.frames.last().terminator == before.frames.last().terminator,
        after.frames.last().position == before.frames.last().position + 1,
{
    reveal_strlit(".");
    let sep = before.separated();
    let e = sep.entered(ContextName::DottedKey, None);
    let (ka, kr) = choose|ka: EncodeState, kr: Result<(), DatomFault>|
        #![trigger k.writes(e, ka, kr)]
        k.writes(e, ka, kr) && ka.resumes(e) && match kr {
            Err(f) => Ok::<(), DatomFault>(()) == Err::<(), DatomFault>(f) && after == ka.closed(),
            Ok(_) => exists|va: EncodeState, vr: Result<(), DatomFault>|
                #![trigger v.writes(ka.wrote("."@), va, vr)]
                v.writes(ka.wrote("."@), va, vr) && va.resumes(ka.wrote("."@)) && Ok::<(), DatomFault>(())
                    == vr && after == (if vr is Ok {
                    va.closed().advanced()
                } else {
                    va.closed()
                }),
        };
    let dot = ka.wrote("."@);
    let (va, vr) = choose|va: EncodeState, vr: Result<(), DatomFault>|
        #![trigger v.writes(dot, va, vr)]
        v.writes(dot, va, vr) && va.resumes(dot) && Ok::<(), DatomFault>(()) == vr && after == (if vr is Ok {
            va.closed().advanced()
        } else {
            va.closed()
        });
    let kt = written_between(e, ka);
    let vt = written_between(dot, va);
    assert(ka.frames == e.frames && read_from(k, true, kt)) by {
        reveal(reads_back);
    }
    assert(va.frames == dot.frames && read_from(v, false, vt)) by {
        reveal(reads_back);
    }
    lemma_resumes_output(e, ka);
    lemma_resumes_output(dot, va);
    assert(sep.output == before.output + separator(before.frames.last().position)) by {
        if before.frames.last().position == 0 {
            assert(before.output + Seq::<char>::empty() =~= before.output);
        }
    }
    assert(after.output =~= before.output + separator(before.frames.last().position) + (kt + seq!['.']
        + vt));
    assert(va.closed().frames =~= before.frames);
    assert(after.frames.drop_last() =~= before.frames.drop_last());
    (kt, vt)
}

/// The first `n - 1` entries a map wrote, each after its separator: for
/// each, the texts of its key and value, and the walks before and after
/// them, which hold the entry texts spaced after the opening text, with the
/// innermost context resumed past them.
#[verifier::spinoff_prover]
proof fn lemma_entries_text<K: DatomDecode + DatomEncode + DeepView, V: DatomDecode + DatomEncode + DeepView>(
    start: EncodeState,
    states: Seq<EncodeState>,
    entries: Seq<(K, V)>,
    n: int,
) -> (texts: (Seq<Seq<char>>, Seq<Seq<char>>))
    requires
        entry_writes_trace(start, states, entries),
        1 <= n <= states.len(),
        entries_read_back(entries),
        start.frames.len() > 0,
        start.frames.last().position == 0,
        entries.len() <= usize::MAX,
    ensures
        texts.0.len() == n - 1,
        texts.1.len() == n - 1,
        forall|i: int|
            0 <= i < texts.0.len() ==> read_from(entries[i].0, true, #[trigger] texts.0[i])
                && read_from(entries[i].1, false, texts.1[i]),
        forall|i: int|
            0 <= i < n ==> {
                &&& (#[trigger] states[i]).output == start.output + spaced(entry_texts(texts.0, texts.1), i)
                &&& states[i].frames.len() == start.frames.len()
                &&& states[i].frames.drop_last() == start.frames.drop_last()
                &&& states[i].frames.last().context == start.frames.last().context
                &&& states[i].frames.last().terminator == start.frames.last().terminator
                &&& states[i].frames.last().position == i
            },
    decreases n,
{
    if n == 1 {
        assert(start.output + spaced(entry_texts(Seq::empty(), Seq::empty()), 0) =~= start.output);
        (Seq::empty(), Seq::empty())
    } else {
        let m = n - 1;
        let (pk, pv) = lemma_entries_text(start, states, entries, m);
        let before = states[m - 1];
        assert(entry_written(entries[m - 1].0, entries[m - 1].1, states[m - 1], states[m], Ok::<(), DatomFault>(())));
        assert(reads_back(entries[m - 1].0, true) && reads_back(entries[m - 1].1, false));
        let (kt, vt) = lemma_entry_step_text(before, entries[m - 1].0, entries[m - 1].1, states[m]);
        let kts = pk.push(kt);
        let vts = pv.push(vt);
        let texts = entry_texts(kts, vts);
        let prior = entry_texts(pk, pv);
        assert forall|j: int| 0 <= j < m - 1 implies prior[j] == texts[j] by {
            assert(kts[j] == pk[j]);
            assert(vts[j] == pv[j]);
        }
        lemma_spaced_same(prior, texts, m - 1);
        let t = texts[m - 1];
        assert(t == kt + seq!['.'] + vt);
        assert(states[m].output == start.output + spaced(texts, m)) by {
            if m - 1 > 0 {
                assert(spaced(texts, m) == spaced(texts, m - 1) + seq![' '] + t);
                assert(start.output + spaced(texts, m) =~= start.output + spaced(prior, m - 1) + seq![' '] + t);
            } else {
                assert(spaced(texts, m) == t);
                assert(start.output + spaced(prior, 0) =~= start.output);
            }
        }
        assert forall|i: int| 0 <= i < kts.len() implies read_from(entries[i].0, true, #[trigger] kts[i])
            && read_from(entries[i].1, false, vts[i]) by {
            if i < m - 1 {
                assert(kts[i] == pk[i]);
                assert(vts[i] == pv[i]);
            }
        }
        assert forall|i: int| 0 <= i < n implies {
            &&& (#[trigger] states[i]).output == start.output + spaced(entry_texts(kts, vts), i)
            &&& states[i].frames.len() == start.frames.len()
            &&& states[i].frames.drop_last() == start.frames.drop_last()
            &&& states[i].frames.last().context == start.frames.last().context
            &&& states[i].frames.last().terminator == start.frames.last().terminator
            &&& states[i].frames.last().position == i
        } by {
            if i < m {
                lemma_spaced_same(prior, texts, i);
            }
        }
        (kts, vts)
    }
}

/// Inside laid-out entry text `kt.vt` met at `e`: the key text, its dot,
/// and the value text after it.
proof fn lemma_entry_parts(s: Seq<char>, e: int, kt: Seq<char>, vt: Seq<char>)
    requires
        0 <= e,
        e + kt.len() + 1 + vt.len() <= s.len(),
        s.subrange(e, e + kt.len() + 1 + vt.len()) == kt + seq!['.'] + vt,
    ensures
        s.subrange(e, e + kt.len()) == kt,
        s[e + kt.len()] == '.',
        s.subrange(e + kt.len() + 1, e + kt.len() + 1 + vt.len()) == vt,
{
    let t = kt + seq!['.'] + vt;
    let b = e + kt.len() + 1;
    assert(s.subrange(e, e + kt.len()) =~= kt) by {
        assert forall|j: int| 0 <= j < kt.len() implies s.subrange(e, e + kt.len())[j] == kt[j] by {
            assert(s[e + j] == t[j]);
        }
    }
    assert(s[e + kt.len()] == t[kt.len() as int]);
    assert(s.subrange(b, b + vt.len()) =~= vt) by {
        assert forall|j: int| 0 <= j < vt.len() implies s.subrange(b, b + vt.len())[j] == vt[j] by {
            assert(s[e + (kt.len() + 1 + j)] == t[kt.len() + 1 + j]);
        }
    }
}

/// A value text that opens cleanly, standing at `p`, is glued to what
/// stands before it: no trivia begins at `p`.
proof fn lemma_glued_value<V: DatomDecode + DatomEncode + DeepView>(v: V, s: Seq<char>, p: int, vt: Seq<char>)
    requires
        read_from(v, false, vt),
        0 <= p,
        p + vt.len() <= s.len(),
        s.subrange(p, p + vt.len()) == vt,
    ensures
        !trivia_at(s, p),
{
    reveal(read_from);
    assert(s[p] == s.subrange(p, p + vt.len())[0]);
    lemma_skip_trivia_none(s, p);
}

/// One map entry read where its key text, dot and value text stand after
/// the trivia that follows `before`: the key and value read have the deep
/// views of those that wrote the texts, and the walk stands after them.
proof fn lemma_entry_read_step<K: DatomDecode + DatomEncode + DeepView, V: DatomDecode + DatomEncode + DeepView>(
    k: K,
    v: V,
    kt: Seq<char>,
    vt: Seq<char>,
    before: DecodeState,
    rk: K,
    rv: V,
    after: DecodeState,
)
    requires
        read_from(k, true, kt),
        read_from(v, false, vt),
        entry_step(before, rk, rv, after),
        !in_key(before),
        before.frames.len() > 0,
        ({
            let s = before.text;
            let e = skip_trivia(s, before.at);
            let f = e + kt.len() + 1 + vt.len();
            &&& 0 <= e
            &&& f < s.len()
            &&& s.subrange(e, e + kt.len()) == kt
            &&& s[e + kt.len()] == '.'
            &&& s.subrange(e + kt.len() + 1, f) == vt
            &&& is_bare_boundary(s[f])
        }),
    ensures
        rk.deep_view() == k.deep_view(),
        rv.deep_view() == v.deep_view(),
        after.at == skip_trivia(before.text, before.at) + kt.len() + 1 + vt.len(),
        after.text == before.text,
        after.frames.len() == before.frames.len(),
        after.frames.drop_last() == before.frames.drop_last(),
        after.frames.last().context == before.frames.last().context,
{
    let dk = keyed(before);
    let (km, vm) = choose|km: DecodeState, vm: DecodeState|
        #![trigger K::reads(dk, km, Ok::<K, DatomFault>(rk)), V::reads(after_key(km), vm, Ok::<V, DatomFault>(rv))]
        K::reads(dk, km, Ok::<K, DatomFault>(rk)) && km.resumes(dk) && V::reads(
            after_key(km),
            vm,
            Ok::<V, DatomFault>(rv),
        ) && vm.resumes(after_key(km)) && after == vm.advanced();
    assert(in_key(dk));
    lemma_glued_value(v, before.text, skip_trivia(before.text, before.at) + kt.len() + 1, vt);
    assert(meets(dk, kt));
    assert(rk.deep_view() == k.deep_view() && km.at == read_end(dk, kt) && km.frames == dk.frames) by {
        reveal(read_from);
    }
    let dv = after_key(km);
    assert(dv.frames =~= before.frames);
    assert(!in_key(dv));
    assert(meets(dv, vt));
    assert(rv.deep_view() == v.deep_view() && vm.at == read_end(dv, vt) && vm.frames == dv.frames) by {
        reveal(read_from);
    }
    assert(after.frames.drop_last() =~= vm.frames.drop_last());
}

/// Reading the first `n - 1` entries of a laid-out map: the trace stops no
/// later than the last entry text, each walk of it stands after the entry
/// texts read so far, and each key and value read has the deep view of the
/// one that wrote its text.
#[verifier::spinoff_prover]
proof fn lemma_entries_trace_read<K: DatomDecode + DatomEncode + DeepView, V: DatomDecode + DatomEncode + DeepView>(
    entries: Seq<(K, V)>,
    kts: Seq<Seq<char>>,
    vts: Seq<Seq<char>>,
    s0: DecodeState,
    states: Seq<DecodeState>,
    rkeys: Seq<K>,
    rvals: Seq<V>,
    n: int,
)
    requires
        kts.len() == entries.len(),
        vts.len() == entries.len(),
        forall|i: int|
            0 <= i < entries.len() ==> read_from(entries[i].0, true, #[trigger] kts[i]) && read_from(
                entries[i].1,
                false,
                vts[i],
            ),
        laid_out(s0.text, s0.at, entry_texts(kts, vts)),
        !in_key(s0),
        s0.frames.len() > 0,
        entries_trace(s0, states, rkeys, rvals),
        1 <= n <= states.len(),
    ensures
        n - 1 <= entries.len(),
        forall|i: int|
            0 <= i < n ==> {
                &&& (#[trigger] states[i]).at == s0.at + spaced(entry_texts(kts, vts), i).len()
                &&& states[i].text == s0.text
                &&& states[i].frames.len() == s0.frames.len()
                &&& states[i].frames.drop_last() == s0.frames.drop_last()
                &&& states[i].frames.last().context == s0.frames.last().context
            },
        forall|i: int|
            0 <= i < n - 1 ==> (#[trigger] rkeys[i]).deep_view() == entries[i].0.deep_view()
                && rvals[i].deep_view() == entries[i].1.deep_view(),
    decreases n,
{
    let s = s0.text;
    let p = s0.at;
    let texts = entry_texts(kts, vts);
    let count = texts.len() as int;
    if n > 1 {
        let m = n - 1;
        lemma_entries_trace_read(entries, kts, vts, s0, states, rkeys, rvals, m);
        let before = states[m - 1];
        assert(entry_step(states[m - 1], rkeys[m - 1], rvals[m - 1], states[m]));
        if m - 1 == count {
            lemma_spaced_prefix(texts, count, count);
            lemma_skip_trivia_none(s, p + spaced(texts, count).len());
            assert(at_terminator_at(before.text, before.at, ProtosShape::SquareBracketDelimited));
        }
        assert(m - 1 < count);
        lemma_element_met(s, p, texts, m - 1);
        let kt = kts[m - 1];
        let vt = vts[m - 1];
        let e = skip_trivia(s, before.at);
        assert(texts[m - 1] == kt + seq!['.'] + vt);
        lemma_entry_parts(s, e, kt, vt);
        lemma_entry_read_step(entries[m - 1].0, entries[m - 1].1, kt, vt, before, rkeys[m - 1], rvals[m - 1], states[m]);
    }
}

/// Entries read with distinct keys are each found in the map they make,
/// and it holds no other key.
proof fn lemma_inserted_lookup<K, V>(keys: Seq<K>, vals: Seq<V>, n: int)
    requires
        keys.len() == vals.len(),
        0 <= n <= keys.len(),
        forall|i: int, j: int| 0 <= i < j < keys.len() ==> keys[i] != keys[j],
    ensures
        forall|i: int|
            0 <= i < n ==> #[trigger] inserted(keys, vals, n).contains_key(keys[i]) && inserted(
                keys,
                vals,
                n,
            )[keys[i]] == vals[i],
        forall|k: K|
            #[trigger] inserted(keys, vals, n).contains_key(k) ==> exists|i: int|
                0 <= i < n && keys[i] == k,
    decreases n,
{
    if n > 0 {
        lemma_inserted_lookup(keys, vals, n - 1);
        assert forall|i: int| 0 <= i < n implies #[trigger] inserted(keys, vals, n).contains_key(keys[i])
            && inserted(keys, vals, n)[keys[i]] == vals[i] by {
            if i < n - 1 {
                assert(keys[i] != keys[n - 1]);
                assert(inserted(keys, vals, n - 1).contains_key(keys[i]));
            }
        }
        assert forall|k: K| #[trigger] inserted(keys, vals, n).contains_key(k) implies exists|i: int|
            0 <= i < n && keys[i] == k by {
            if k != keys[n - 1] {
                assert(inserted(keys, vals, n - 1).contains_key(k));
            }
        }
    }
}

/// A map read back from written entries in key order, key for key and
/// value for value of the same deep views, has the deep view of the map
/// that wrote them, where distinct keys have distinct deep views.
proof fn lemma_map_deep_view<K: DeepView, V: DeepView>(
    m: BTreeMap<K, V>,
    read: BTreeMap<K, V>,
    entries: Seq<(K, V)>,
    rkeys: Seq<K>,
    rvals: Seq<V>,
)
    requires
        injective(|k: K| k.deep_view()),
        entries.len() == rkeys.len(),
        rkeys.len() == rvals.len(),
        forall|i: int| 0 <= i < entries.len() ==> #[trigger] m@.contains_pair(entries[i].0, entries[i].1),
        forall|k: K| #[trigger] m@.contains_key(k) ==> exists|i: int| 0 <= i < entries.len() && entries[i].0 == k,
        forall|i: int, j: int| 0 <= i < j < entries.len() ==> entries[i].0 != entries[j].0,
        forall|i: int|
            0 <= i < rkeys.len() ==> (#[trigger] rkeys[i]).deep_view() == entries[i].0.deep_view()
                && rvals[i].deep_view() == entries[i].1.deep_view(),
        read@ == inserted_all(rkeys, rvals),
    ensures
        read.deep_view() == m.deep_view(),
{
    broadcast use vstd::std_specs::btree::lemma_btree_map_deepview_properties;

    let f = |k: K| k.deep_view();
    assert forall|i: int| 0 <= i < rkeys.len() implies #[trigger] rkeys[i] == entries[i].0 by {
        assert(f(rkeys[i]) == f(entries[i].0));
    }
    lemma_inserted_lookup(rkeys, rvals, rkeys.len() as int);
    let a = read.deep_view();
    let b = m.deep_view();
    assert forall|dk: K::V| a.contains_key(dk) implies b.contains_key(dk) && a[dk] == b[dk] by {
        let k = choose|k: K| k.deep_view() == dk && #[trigger] read@.contains_key(k);
        assert(inserted(rkeys, rvals, rkeys.len() as int).contains_key(k));
        let i = choose|i: int| 0 <= i < rkeys.len() && rkeys[i] == k;
        assert(m@.contains_pair(entries[i].0, entries[i].1));
        assert(m@.contains_key(k));
    }
    assert forall|dk: K::V| b.contains_key(dk) implies a.contains_key(dk) by {
        let k = choose|k: K| k.deep_view() == dk && #[trigger] m@.contains_key(k);
        let i = choose|i: int| 0 <= i < entries.len() && entries[i].0 == k;
        assert(rkeys[i] == k);
        assert(inserted(rkeys, rvals, rkeys.len() as int).contains_key(rkeys[i]));
        assert(read@.contains_key(k));
    }
    assert(a =~= b);
}

/// Where a key text, its dot and a value text stand after the trivia that
/// follows `before`, and both read back, reading that entry is not refused.
proof fn lemma_entry_not_failed<K: DatomDecode + DatomEncode + DeepView, V: DatomDecode + DatomEncode + DeepView>(
    k: K,
    v: V,
    kt: Seq<char>,
    vt: Seq<char>,
    before: DecodeState,
    inner: DecodeState,
    f: DatomFault,
)
    requires
        read_from(k, true, kt),
        read_from(v, false, vt),
        !in_key(before),
        before.frames.len() > 0,
        ({
            let s = before.text;
            let e = skip_trivia(s, before.at);
            let g = e + kt.len() + 1 + vt.len();
            &&& 0 <= e
            &&& g < s.len()
            &&& s.subrange(e, e + kt.len()) == kt
            &&& s[e + kt.len()] == '.'
            &&& s.subrange(e + kt.len() + 1, g) == vt
            &&& is_bare_boundary(s[g])
        }),
    ensures
        !entry_failed::<K, V>(before, inner, f),
{
    let dk = keyed(before);
    assert(in_key(dk));
    lemma_glued_value(v, before.text, skip_trivia(before.text, before.at) + kt.len() + 1, vt);
    assert(meets(dk, kt));
    if !entry_failed::<K, V>(before, inner, f) {
    } else if exists|km: DecodeState|
        #![trigger K::reads(dk, km, Err::<K, DatomFault>(f))]
        K::reads(dk, km, Err::<K, DatomFault>(f)) && km.resumes(dk) && inner == km.closed() {
        let km = choose|km: DecodeState|
            #![trigger K::reads(dk, km, Err::<K, DatomFault>(f))]
            K::reads(dk, km, Err::<K, DatomFault>(f)) && km.resumes(dk) && inner == km.closed();
        assert(K::reads(dk, km, Err::<K, DatomFault>(f)));
        reveal(read_from);
    } else {
        let (km, rk) = choose|km: DecodeState, rk: K|
            #![trigger K::reads(dk, km, Ok::<K, DatomFault>(rk))]
            K::reads(dk, km, Ok::<K, DatomFault>(rk)) && km.resumes(dk) && V::reads(
                after_key(km),
                inner,
                Err::<V, DatomFault>(f),
            ) && inner.resumes(after_key(km));
        assert(km.at == read_end(dk, kt) && km.frames == dk.frames) by {
            reveal(read_from);
        }
        let dv = after_key(km);
        assert(dv.frames =~= before.frames);
        assert(!in_key(dv));
        assert(meets(dv, vt));
        assert(V::reads(dv, inner, Err::<V, DatomFault>(f)));
        reveal(read_from);
    }
}

/// A walk that meets a map written as entry texts that open cleanly finds
/// its `Map.[` head and opener, and after them the entry texts laid out.
proof fn lemma_map_laid_out(db: DecodeState, kts: Seq<Seq<char>>, vts: Seq<Seq<char>>)
    requires
        kts.len() == vts.len(),
        forall|j: int| 0 <= j < kts.len() ==> opens_cleanly(#[trigger] kts[j]),
        forall|j: int| 0 <= j < vts.len() ==> opens_cleanly(#[trigger] vts[j]),
        !in_key(db),
        meets(db, "Map.["@ + spaced(entry_texts(kts, vts), kts.len() as int) + seq![']']),
    ensures
        named_shape_at(db.text, db.at, "Map"@, ProtosShape::DotBracketed) == Ok::<int, DatomFault>(
            db.at + 5,
        ),
        laid_out(db.text, db.at + 5, entry_texts(kts, vts)),
        db.at + 5 + spaced(entry_texts(kts, vts), kts.len() as int).len() + 1 == db.at + (
        "Map.["@ + spaced(entry_texts(kts, vts), kts.len() as int) + seq![']']).len(),
{
    reveal_strlit("Map.[");
    reveal_strlit("Map");
    reveal_strlit(".");
    let s = db.text;
    let i = db.at;
    let texts = entry_texts(kts, vts);
    let count = texts.len() as int;
    let body = spaced(texts, count);
    let w = "Map.["@ + body + seq![']'];
    let rest = seq!['['] + body + seq![']'];
    assert(w =~= "Map"@ + "."@ + rest);
    let p = i + 5;
    assert(is_bare_text("Map"@));
    assert(opens_cleanly(rest)) by {
        assert(rest[0] == '[');
    }
    lemma_dotted_head(s, i, "Map"@, rest);
    assert(s[i + 4] == w[4]);
    lemma_skip_trivia_none(s, i + 4);
    assert(s.subrange(p, p + body.len()) =~= body) by {
        assert forall|j: int| 0 <= j < body.len() implies s.subrange(p, p + body.len())[j] == body[j] by {
            assert(s[i + (5 + j)] == w[5 + j]);
        }
    }
    assert(s[p + body.len()] == ']') by {
        assert(s[i + (5 + body.len())] == w[5 + body.len() as int]);
    }
    assert forall|j: int| 0 <= j < texts.len() implies opens_cleanly(#[trigger] texts[j]) by {
        lemma_entry_opens_cleanly(kts[j], vts[j]);
    }
}

/// Texts that values are read from open cleanly.
proof fn lemma_entry_texts_open<K: DatomDecode + DeepView, V: DatomDecode + DeepView>(
    entries: Seq<(K, V)>,
    kts: Seq<Seq<char>>,
    vts: Seq<Seq<char>>,
)
    requires
        kts.len() == entries.len(),
        vts.len() == entries.len(),
        forall|i: int|
            0 <= i < entries.len() ==> read_from(entries[i].0, true, #[trigger] kts[i]) && read_from(
                entries[i].1,
                false,
                vts[i],
            ),
    ensures
        forall|j: int| 0 <= j < kts.len() ==> opens_cleanly(#[trigger] kts[j]),
        forall|j: int| 0 <= j < vts.len() ==> opens_cleanly(#[trigger] vts[j]),
{
    assert forall|j: int| 0 <= j < kts.len() implies opens_cleanly(#[trigger] kts[j]) by {
        lemma_read_from_opens(entries[j].0, true, kts[j]);
    }
    assert forall|j: int| 0 <= j < vts.len() implies opens_cleanly(#[trigger] vts[j]) by {
        assert(read_from(entries[j].0, true, kts[j]) && read_from(entries[j].1, false, vts[j]));
        lemma_read_from_opens(entries[j].1, false, vts[j]);
    }
}

/// Text that a value is read from opens cleanly.
proof fn lemma_read_from_opens<T: DatomDecode + DeepView>(v: T, key: bool, w: Seq<char>)
    requires
        read_from(v, key, w),
    ensures
        opens_cleanly(w),
{
    reveal(read_from);
}

/// The entries of a map read from laid-out entry texts: a map with the
/// deep view of the one that wrote them, read up to its closing bracket.
#[verifier::spinoff_prover]
proof fn lemma_map_entries_read<K: DatomDecode + DatomEncode + DeepView + Ord, V: DatomDecode + DatomEncode + DeepView>(
    m: BTreeMap<K, V>,
    entries: Seq<(K, V)>,
    kts: Seq<Seq<char>>,
    vts: Seq<Seq<char>>,
    s0: DecodeState,
    inner: DecodeState,
    ir: Result<BTreeMap<K, V>, DatomFault>,
)
    requires
        keys_lawful::<K>(),
        injective(|k: K| k.deep_view()),
        in_key_order(m@, entries),
        kts.len() == entries.len(),
        vts.len() == entries.len(),
        forall|i: int|
            0 <= i < entries.len() ==> read_from(entries[i].0, true, #[trigger] kts[i]) && read_from(
                entries[i].1,
                false,
                vts[i],
            ),
        laid_out(s0.text, s0.at, entry_texts(kts, vts)),
        !in_key(s0),
        s0.frames.len() > 0,
        entries_read(s0, inner, ir),
    ensures
        ir matches Ok(y) && y.deep_view() == m.deep_view(),
        inner.at == s0.at + spaced(entry_texts(kts, vts), kts.len() as int).len(),
        inner.text == s0.text,
        inner.frames.len() == s0.frames.len(),
        inner.frames.drop_last() == s0.frames.drop_last(),
{
    let s = s0.text;
    let p = s0.at;
    let texts = entry_texts(kts, vts);
    let count = texts.len() as int;
    let body = spaced(texts, count);
    let (states, rkeys, rvals) = choose|states: Seq<DecodeState>, rkeys: Seq<K>, rvals: Seq<V>|
        #![trigger entries_trace(s0, states, rkeys, rvals)]
        entries_trace(s0, states, rkeys, rvals) && match ir {
            Ok(mm) => at_terminator_at(
                states.last().text,
                states.last().at,
                ProtosShape::SquareBracketDelimited,
            ) && inner == skipped(states.last()) && (keys_lawful::<K>() ==> mm@ == inserted_all(rkeys, rvals)),
            Err(f) => entry_failed::<K, V>(states.last(), inner, f),
        };
    lemma_entries_trace_read(entries, kts, vts, s0, states, rkeys, rvals, states.len() as int);
    let mm = rkeys.len() as int;
    let last = states[mm];
    assert(last == states.last());
    let q = p + body.len();
    if mm < count {
        lemma_element_met(s, p, texts, mm);
        let e = skip_trivia(s, last.at);
        assert(texts[mm] == kts[mm] + seq!['.'] + vts[mm]);
        lemma_entry_parts(s, e, kts[mm], vts[mm]);
        if ir is Err {
            lemma_entry_not_failed(entries[mm].0, entries[mm].1, kts[mm], vts[mm], last, inner, ir->Err_0);
        }
        assert(!at_terminator_at(last.text, last.at, ProtosShape::SquareBracketDelimited));
        assert(false);
    }
    assert(mm == count);
    lemma_skip_trivia_none(s, q);
    assert(last.at == q);
    assert(at_terminator_at(last.text, last.at, ProtosShape::SquareBracketDelimited));
    let y = ir->Ok_0;
    assert(inner == last.moved(q));
    lemma_map_deep_view(m, y, entries, rkeys, rvals);
}

/// A walk outside a map key that meets a map written as its entries in key
/// order reads back a map with the deep view of the one written, where the
/// order of its keys is lawful and distinct keys have distinct deep views.
proof fn lemma_map_read<K: DatomDecode + DatomEncode + DeepView + Ord, V: DatomDecode + DatomEncode + DeepView>(
    m: BTreeMap<K, V>,
    entries: Seq<(K, V)>,
    kts: Seq<Seq<char>>,
    vts: Seq<Seq<char>>,
    db: DecodeState,
    da: DecodeState,
    r: Result<BTreeMap<K, V>, DatomFault>,
)
    requires
        keys_lawful::<K>(),
        injective(|k: K| k.deep_view()),
        in_key_order(m@, entries),
        kts.len() == entries.len(),
        vts.len() == entries.len(),
        forall|i: int|
            0 <= i < entries.len() ==> read_from(entries[i].0, true, #[trigger] kts[i]) && read_from(
                entries[i].1,
                false,
                vts[i],
            ),
        !in_key(db),
        meets(db, "Map.["@ + spaced(entry_texts(kts, vts), kts.len() as int) + seq![']']),
        BTreeMap::<K, V>::reads(db, da, r),
        da.resumes(db),
    ensures
        r matches Ok(y) && y.deep_view() == m.deep_view(),
        da.at == read_end(db, "Map.["@ + spaced(entry_texts(kts, vts), kts.len() as int) + seq![']']),
        da.frames == db.frames,
{
    let s = db.text;
    let texts = entry_texts(kts, vts);
    let body = spaced(texts, texts.len() as int);
    lemma_entry_texts_open(entries, kts, vts);
    lemma_map_laid_out(db, kts, vts);
    let p = db.at + 5;
    let entered = db.entered(ContextName::Mapping, Some(ProtosShape::SquareBracketDelimited));
    let s0 = entered.moved(p);
    assert(!in_key(s0));
    let (inner, ir) = choose|inner: DecodeState, ir: Result<BTreeMap<K, V>, DatomFault>|
        #![trigger entries_read(s0, inner, ir)]
        entries_read(s0, inner, ir) && inner.resumes(s0) && concluded_read(
            inner,
            Some(ProtosShape::SquareBracketDelimited),
            ir,
            r,
            da,
        );
    lemma_map_entries_read(m, entries, kts, vts, s0, inner, ir);
    let q = p + body.len();
    assert(s[q] == ']');
    lemma_skip_trivia_none(s, q);
    assert(inner.frames.drop_last() =~= db.frames);
}

/// An entry text, a key text glued by a dot to a value text, opens cleanly
/// where both do.
proof fn lemma_entry_opens_cleanly(kt: Seq<char>, vt: Seq<char>)
    requires
        opens_cleanly(kt),
        opens_cleanly(vt),
    ensures
        opens_cleanly(kt + seq!['.'] + vt),
{
    let t = kt + seq!['.'] + vt;
    let d = kt.len() as int;
    lemma_scan_symbol_bounds(kt, 0);
    let e = scan_symbol(kt, 0)->Ok_0;
    if e < d {
        assert(t.subrange(0, d) =~= kt);
        lemma_scan_symbol_prefix_stop(t, kt, 0, e);
    } else {
        assert forall|j: int| 0 <= j < d implies !is_angle(#[trigger] t[j]) && !is_bare_boundary(t[j]) by {
            lemma_scan_symbol_run_chars(kt, 0, j);
            assert(t[j] == kt[j]);
        }
        assert(!is_angle(t[d]) && !is_bare_boundary(t[d]));
        lemma_scan_symbol_skip(t, 0, d + 1);
        assert(t.subrange(d + 1, d + 1 + vt.len()) =~= vt);
        lemma_scan_symbol_shift(t, vt, d + 1, 0);
    }
}

/// Where a symbol's scan stops inside a prefix, at a boundary, it stops
/// there in the whole text too.
proof fn lemma_scan_symbol_prefix_stop(t: Seq<char>, a: Seq<char>, k: int, e: int)
    requires
        a.len() <= t.len(),
        t.subrange(0, a.len() as int) == a,
        0 <= k <= e < a.len(),
        scan_symbol(a, k) == Ok::<int, DatomFault>(e),
    ensures
        scan_symbol(t, k) == Ok::<int, DatomFault>(e),
    decreases e - k,
{
    assert(t[k] == a[k]);
    if k < e {
        lemma_scan_symbol_prefix_stop(t, a, k + 1, e);
    } else {
        lemma_scan_symbol_bounds(a, k + 1);
    }
}

/// A symbol's scan that runs to the end passes only characters that
/// neither end nor refuse it.
proof fn lemma_scan_symbol_run_chars(a: Seq<char>, k: int, j: int)
    requires
        0 <= k <= j < a.len(),
        scan_symbol(a, k) == Ok::<int, DatomFault>(a.len() as int),
    ensures
        !is_angle(a[j]) && !is_bare_boundary(a[j]),
    decreases j - k,
{
    if k < j {
        lemma_scan_symbol_run_chars(a, k + 1, j);
    }
}

/// A key and a value that read back are written as an entry without refusal.
proof fn lemma_entry_not_refused<K: DatomDecode + DatomEncode + DeepView, V: DatomDecode + DatomEncode + DeepView>(
    k: K,
    v: V,
    before: EncodeState,
    after: EncodeState,
    f: DatomFault,
)
    requires
        reads_back(k, true),
        reads_back(v, false),
    ensures
        !entry_written(k, v, before, after, Err::<(), DatomFault>(f)),
{
    reveal(reads_back);
}

/// What a map whose keys read back inside map keys and whose values read
/// back outside them writes, where the order of its keys is lawful: without
/// refusal, its entries in key order, each as its key text glued by a dot
/// to its value text, spaced after `Map.[` and before the closing bracket,
/// with the open contexts left as they were.
#[verifier::spinoff_prover]
proof fn lemma_map_written<K: DatomDecode + DatomEncode + DeepView + Ord, V: DatomDecode + DatomEncode + DeepView>(
    m: BTreeMap<K, V>,
    eb: EncodeState,
    ea: EncodeState,
    res: Result<(), DatomFault>,
) -> (written: (Seq<(K, V)>, Seq<Seq<char>>, Seq<Seq<char>>))
    requires
        keys_lawful::<K>(),
        forall|k: K| #[trigger] m@.contains_key(k) ==> reads_back(k, true) && reads_back(m@[k], false),
        m.writes(eb, ea, res),
        ea.resumes(eb),
    ensures
        res is Ok,
        ea.frames == eb.frames,
        in_key_order(m@, written.0),
        written.1.len() == written.0.len(),
        written.2.len() == written.0.len(),
        forall|i: int|
            0 <= i < written.0.len() ==> read_from(written.0[i].0, true, #[trigger] written.1[i])
                && read_from(written.0[i].1, false, written.2[i]),
        ea.output == eb.output + ("Map.["@ + spaced(entry_texts(written.1, written.2), written.1.len() as int)
            + seq![']']),
{
    broadcast use vstd::std_specs::btree::group_btree_axioms;

    let entered = eb.entered(ContextName::Mapping, Some(ProtosShape::SquareBracketDelimited)).wrote(
        "Map.["@,
    );
    let (entries, inner, ir) = choose|entries: Seq<(K, V)>, inner: EncodeState, ir: Result<(), DatomFault>|
        #![trigger entries_written(entered, entries, inner, ir)]
        (keys_lawful::<K>() ==> in_key_order(m@, entries)) && entries_written(entered, entries, inner, ir)
            && inner.resumes(entered) && res == ir && ea == (if ir is Ok {
            inner.wrote(seq![']'])
        } else {
            inner
        }).closed();
    assert(entries_read_back(entries)) by {
        assert forall|i: int| 0 <= i < entries.len() implies reads_back((#[trigger] entries[i]).0, true)
            && reads_back(entries[i].1, false) by {
            assert(m@.contains_pair(entries[i].0, entries[i].1));
            assert(m@.contains_key(entries[i].0));
        }
    }
    assert(spec_btree_map_len(&m) == m@.len());
    let n = entries.len() as int;
    let states = choose|states: Seq<EncodeState>|
        #![trigger entry_writes_trace(entered, states, entries)]
        entry_writes_trace(entered, states, entries) && match ir {
            Ok(_) => states.len() == entries.len() + 1 && inner == states.last(),
            Err(f) => states.len() <= entries.len() && entry_written(
                entries[states.len() - 1].0,
                entries[states.len() - 1].1,
                states.last(),
                inner,
                Err::<(), DatomFault>(f),
            ),
        };
    let (kts, vts) = lemma_entries_text(entered, states, entries, states.len() as int);
    if ir is Err {
        let k = states.len() - 1;
        assert(reads_back(entries[k].0, true) && reads_back(entries[k].1, false));
        lemma_entry_not_refused(entries[k].0, entries[k].1, states.last(), inner, ir->Err_0);
    }
    assert(ir is Ok);
    let body = spaced(entry_texts(kts, vts), n);
    assert(inner == states[n]);
    assert(ea.output =~= eb.output + ("Map.["@ + body + seq![']']));
    assert(ea.frames =~= eb.frames);
    (entries, kts, vts)
}

/// A map reads back outside map keys when the order of its keys is lawful,
/// distinct keys have distinct deep views, each of its keys reads back
/// inside a map key and each of its values outside one.
pub proof fn law_map_reads_back<K: DatomDecode + DatomEncode + DeepView + Ord, V: DatomDecode + DatomEncode + DeepView>(
    m: BTreeMap<K, V>,
)
    requires
        keys_lawful::<K>(),
        injective(|k: K| k.deep_view()),
        forall|k: K| #[trigger] m@.contains_key(k) ==> reads_back(k, true) && reads_back(m@[k], false),
    ensures
        reads_back(m, false),
{
    reveal(reads_back);
    assert forall|eb: EncodeState, ea: EncodeState, res: Result<(), DatomFault>|
        m.writes(eb, ea, res) && ea.resumes(eb) implies {
        &&& res is Ok
        &&& ea.frames == eb.frames
        &&& read_from(m, false, written_between(eb, ea))
    } by {
        let (entries, kts, vts) = lemma_map_written(m, eb, ea, res);
        let w = "Map.["@ + spaced(entry_texts(kts, vts), kts.len() as int) + seq![']'];
        lemma_written_between(eb, ea, w);
        reveal_strlit("Map.[");
        assert(opens_cleanly(w)) by {
            lemma_scan_symbol_skip(w, 0, 4);
            assert(w[4] == '[');
        }
        assert forall|db: DecodeState, da: DecodeState, r: Result<BTreeMap<K, V>, DatomFault>|
            in_key(db) == false && meets(db, w) && BTreeMap::<K, V>::reads(db, da, r) && da.resumes(db) implies {
            &&& r matches Ok(y) && y.deep_view() == m.deep_view()
            &&& da.at == read_end(db, w)
            &&& da.frames == db.frames
        } by {
            lemma_map_read(m, entries, kts, vts, db, da, r);
        }
        reveal(read_from);
    }
}

/// The fields of `v` are read from their written text `w`: a reading walk
/// outside a map key that meets `w` with the closing brace after it reads
/// fields of a record with the deep view of `v`, and ends where `w` does.
#[verifier::opaque]
pub open spec fn fields_read_from<R: DatomRecord + DeepView>(v: R, w: Seq<char>) -> bool {
    forall|db: DecodeState, da: DecodeState, r: Result<R, DatomFault>|
        #![trigger R::reads_fields(db, da, r)]
        !in_key(db) && db.frames.len() > 0 && 0 <= db.at && db.at + w.len() < db.text.len()
            && db.text.subrange(db.at, db.at + w.len()) == w && db.text[db.at + w.len()] == '}'
            && R::reads_fields(db, da, r) && da.resumes(db) ==> {
            &&& r matches Ok(x) && x.deep_view() == v.deep_view()
            &&& da.at == db.at + w.len()
        }
}

/// The fields of `v` read back: whatever they write is written without
/// refusal and is read back as the fields of `v`.
#[verifier::opaque]
pub open spec fn fields_read_back<R: DatomRecord + DeepView>(v: R) -> bool {
    forall|eb: EncodeState, ea: EncodeState, res: Result<(), DatomFault>|
        #![trigger v.writes_fields(eb, ea, res)]
        v.writes_fields(eb, ea, res) && ea.resumes(eb) ==> res is Ok && fields_read_from(
            v,
            written_between(eb, ea),
        )
}

/// A walk outside a map key that meets a record written with fields text
/// `wf` reads back a record with the deep view of `v`.
proof fn lemma_record_read<R: DatomRecord + DeepView>(
    v: R,
    wf: Seq<char>,
    db: DecodeState,
    da: DecodeState,
    r: Result<R, DatomFault>,
)
    requires
        is_bare_text(R::NAME@),
        fields_read_from(v, wf),
        !in_key(db),
        meets(db, R::NAME@ + ".{"@ + wf + seq!['}']),
        <R as DatomDecode>::reads(db, da, r),
        da.resumes(db),
    ensures
        r matches Ok(y) && y.deep_view() == v.deep_view(),
        da.at == read_end(db, R::NAME@ + ".{"@ + wf + seq!['}']),
        da.frames == db.frames,
{
    reveal_strlit(".{");
    reveal_strlit(".");
    let name = R::NAME@;
    let s = db.text;
    let i = db.at;
    let w = name + ".{"@ + wf + seq!['}'];
    let rest = seq!['{'] + wf + seq!['}'];
    assert(w =~= name + "."@ + rest);
    assert(opens_cleanly(rest)) by {
        assert(rest[0] == '{');
    }
    lemma_dotted_head(s, i, name, rest);
    let d = i + name.len() + 1;
    let k = d + 1;
    assert(s[d] == w[name.len() as int + 1]);
    lemma_skip_trivia_none(s, d);
    assert(named_shape_at(s, i, name, ProtosShape::DotBraced) == Ok::<int, DatomFault>(k));
    let entered = db.entered(ContextName::Record(R::NAME), Some(ProtosShape::BraceDelimited));
    let df = entered.moved(k);
    assert(!in_key(df));
    assert(s.subrange(k, k + wf.len()) =~= wf) by {
        assert forall|j: int| 0 <= j < wf.len() implies s.subrange(k, k + wf.len())[j] == wf[j] by {
            assert(s[i + (name.len() + 2 + j)] == w[name.len() + 2 + j]);
        }
    }
    let q = k + wf.len();
    assert(s[q] == '}') by {
        assert(s[i + (name.len() + 2 + wf.len())] == w[name.len() as int + 2 + wf.len() as int]);
    }
    let (inner, ir) = choose|inner: DecodeState, ir: Result<R, DatomFault>|
        #![trigger R::reads_fields(df, inner, ir)]
        R::reads_fields(df, inner, ir) && inner.resumes(df) && concluded_read(
            inner,
            Some(ProtosShape::BraceDelimited),
            ir,
            r,
            da,
        );
    assert(ir matches Ok(x) && x.deep_view() == v.deep_view() && inner.at == q) by {
        reveal(fields_read_from);
    }
    lemma_skip_trivia_none(s, q);
    assert(inner.frames.drop_last() =~= db.frames);
}

/// A record whose head is bare text reads back outside map keys when its
/// fields do.
pub proof fn law_record_reads_back<R: DatomRecord + DeepView>(v: R)
    requires
        is_bare_text(R::NAME@),
        fields_read_back(v),
    ensures
        reads_back(v, false),
{
    reveal(reads_back);
    reveal_strlit(".{");
    assert forall|eb: EncodeState, ea: EncodeState, res: Result<(), DatomFault>|
        v.writes(eb, ea, res) && ea.resumes(eb) implies {
        &&& res is Ok
        &&& ea.frames == eb.frames
        &&& read_from(v, false, written_between(eb, ea))
    } by {
        let entered = eb.entered(ContextName::Record(R::NAME), Some(ProtosShape::BraceDelimited)).wrote(
            R::NAME@ + ".{"@,
        );
        let (inner, ir) = choose|inner: EncodeState, ir: Result<(), DatomFault>|
            #![trigger v.writes_fields(entered, inner, ir)]
            v.writes_fields(entered, inner, ir) && inner.resumes(entered) && res == ir && ea == (
            if ir is Ok {
                inner.wrote(seq!['}'])
            } else {
                inner
            }).closed();
        let wf = written_between(entered, inner);
        assert(ir is Ok && fields_read_from(v, wf)) by {
            reveal(fields_read_back);
        }
        lemma_resumes_output(entered, inner);
        let w = R::NAME@ + ".{"@ + wf + seq!['}'];
        assert(ea.output =~= eb.output + w);
        assert(ea.frames =~= eb.frames);
        lemma_written_between(eb, ea, w);
        assert(opens_cleanly(w)) by {
            let name = R::NAME@;
            assert(w[0] == name[0]);
            assert forall|j: int| 0 <= j < name.len() + 1 implies !is_angle(#[trigger] w[j]) && !is_bare_boundary(w[j]) by {
                if j < name.len() {
                    assert(w[j] == name[j]);
                    assert(is_bare_char(name[j]));
                } else {
                    assert(w[j] == '.');
                }
            }
            lemma_scan_symbol_skip(w, 0, name.len() as int + 1);
            assert(w[name.len() as int + 1] == '{');
        }
        assert forall|db: DecodeState, da: DecodeState, r: Result<R, DatomFault>|
            in_key(db) == false && meets(db, w) && <R as DatomDecode>::reads(db, da, r) && da.resumes(db) implies {
            &&& r matches Ok(y) && y.deep_view() == v.deep_view()
            &&& da.at == read_end(db, w)
            &&& da.frames == db.frames
        } by {
            lemma_record_read(v, wf, db, da, r);
        }
        reveal(read_from);
    }
}

/// Bare text survives every step unchanged: a string holding it is written
/// as the text itself, a probe at its start meets it as one bare symbol, a
/// bare read takes all of it, nothing is left after it, and a document
/// that holds only it is read as a string holding that text.
pub proof fn law_bare_text_survives(t: Seq<char>)
    requires
        is_bare_text(t),
    ensures
        string_text(t) == t,
        forall|v: String, eb: EncodeState, ea: EncodeState, res: Result<(), DatomFault>|
            v@ == t && #[trigger] v.writes(eb, ea, res) ==> res is Ok && written_between(eb, ea)
                == t,
        probe_at(t, 0) == Ok::<(ProtosShape, Option<Seq<char>>), DatomFault>(
            (ProtosShape::BareSymbol, Some(t)),
        ),
        take_bare_at(t, 0, false) == Ok::<(int, int), DatomFault>((0, t.len() as int)),
        finish_at(t, t.len() as int) is Ok,
        forall|after: DecodeState, r: Result<String, DatomFault>| #[trigger]
            String::reads(DecodeState::start(t), after, r) ==> (r matches Ok(x) && x@ == t)
                && after.at == t.len(),
{
    let db = DecodeState::start(t);
    assert(t.subrange(0, t.len() as int) =~= t);
    assert(!in_key(db));
    assert(meets(db, t));
    lemma_bare_read(db, t, "String");
    let st = scalar_entered(db, "String");
    assert(st.moved(st.at) == st);
    assert(string_interior(st) == Ok::<(Seq<char>, int), DatomFault>((t, t.len() as int)));
    assert(scalar_read(db, string_interior(st)) == Ok::<(Seq<char>, int), DatomFault>(
        (t, t.len() as int),
    ));
    assert forall|v: String, eb: EncodeState, ea: EncodeState, res: Result<(), DatomFault>|
        v@ == t && #[trigger] v.writes(eb, ea, res) implies res is Ok && written_between(eb, ea) == t by {
        lemma_written_between(eb, ea, t);
    }
    lemma_skip_trivia_none(t, t.len() as int);
}

} // verus!
